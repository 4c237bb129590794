//! Unsigned lexicographic order on byte sequences, and bytewise
//! complement.  The codecs promise that their outputs sort in this order;
//! negative carriers are produced by complementing a positive encoding.

use vstd::prelude::*;

verus! {

/// Strict unsigned lexicographic order on byte sequences: a proper
/// prefix sorts before its extensions.
pub open spec fn lex_lt(a: Seq<u8>, b: Seq<u8>) -> bool
    decreases a.len(),
{
    if b.len() == 0 {
        false
    } else if a.len() == 0 {
        true
    } else if a[0] < b[0] {
        true
    } else if a[0] > b[0] {
        false
    } else {
        lex_lt(a.skip(1), b.skip(1))
    }
}

/// The bytewise complement of a sequence.
pub open spec fn compl(s: Seq<u8>) -> Seq<u8> {
    Seq::new(s.len(), |i: int| (255 - s[i]) as u8)
}

/// Complements the bytes of a vector in place.
pub fn negate(v: &mut Vec<u8>)
    ensures
        final(v)@ == compl(old(v)@),
{
    let mut i: usize = 0;
    while i < v.len()
        invariant
            i <= v@.len(),
            v@.len() == old(v)@.len(),
            forall|j: int| 0 <= j < i ==> v@[j] == (255 - old(v)@[j]) as u8,
            forall|j: int| i <= j < v@.len() ==> v@[j] == old(v)@[j],
        decreases v@.len() - i,
    {
        v[i] = 255 - v[i];
        i = i + 1;
    }
    proof {
        assert(v@ =~= compl(old(v)@));
    }
}

/// Complements the bytes of a vector in place from index `from` on,
/// leaving the prefix unchanged.
pub fn negate_from(v: &mut Vec<u8>, from: usize)
    requires
        from <= old(v)@.len(),
    ensures
        final(v)@ == old(v)@.take(from as int) + compl(old(v)@.skip(from as int)),
{
    let mut i: usize = from;
    while i < v.len()
        invariant
            from <= i <= v@.len(),
            v@.len() == old(v)@.len(),
            forall|j: int| 0 <= j < from ==> v@[j] == old(v)@[j],
            forall|j: int| from <= j < i ==> v@[j] == (255 - old(v)@[j]) as u8,
            forall|j: int| i <= j < v@.len() ==> v@[j] == old(v)@[j],
        decreases v@.len() - i,
    {
        v[i] = 255 - v[i];
        i = i + 1;
    }
    proof {
        assert(v@ =~= old(v)@.take(from as int) + compl(old(v)@.skip(from as int)));
    }
}

/// Complementing twice gives the sequence back.
pub proof fn lemma_compl_compl(s: Seq<u8>)
    ensures
        compl(compl(s)) == s,
{
    assert(compl(compl(s)) =~= s);
}

/// A sequence that differs from another at some index, with equal bytes
/// before it and a smaller byte there, sorts strictly before it, whatever
/// follows the differing index on either side.
pub proof fn lemma_lt_from_diff(a: Seq<u8>, b: Seq<u8>, i: int)
    requires
        0 <= i < a.len(),
        i < b.len(),
        forall|k: int| 0 <= k < i ==> a[k] == b[k],
        a[i] < b[i],
    ensures
        lex_lt(a, b),
    decreases i,
{
    if i == 0 {
    } else {
        assert(a[0] == b[0]);
        assert forall|k: int| 0 <= k < i - 1 implies a.skip(1)[k] == b.skip(1)[k] by {
            assert(a[k + 1] == b[k + 1]);
        }
        assert(a.skip(1)[i - 1] < b.skip(1)[i - 1]);
        lemma_lt_from_diff(a.skip(1), b.skip(1), i - 1);
    }
}

/// Two ordered sequences of which the first is no prefix of the second
/// differ at an index inside both, with equal bytes before it.
pub proof fn lemma_lt_gives_diff(a: Seq<u8>, b: Seq<u8>) -> (i: int)
    requires
        lex_lt(a, b),
        !a.is_prefix_of(b),
    ensures
        0 <= i < a.len(),
        i < b.len(),
        forall|k: int| 0 <= k < i ==> a[k] == b[k],
        a[i] < b[i],
    decreases a.len(),
{
    if a.len() == 0 {
        assert(a.is_prefix_of(b)) by {
            assert(a =~= b.subrange(0, 0));
        }
        0
    } else if a[0] < b[0] {
        0
    } else {
        assert(a[0] == b[0]);
        assert(!a.skip(1).is_prefix_of(b.skip(1))) by {
            if a.skip(1).is_prefix_of(b.skip(1)) {
                assert forall|k: int| 0 <= k < a.len() implies a[k] == b.subrange(
                    0,
                    a.len() as int,
                )[k] by {
                    if k > 0 {
                        assert(a[k] == a.skip(1)[k - 1]);
                        assert(a.skip(1)[k - 1] == b.skip(1).subrange(0, a.len() - 1)[k - 1]);
                        assert(b.skip(1).subrange(0, a.len() - 1)[k - 1] == b.skip(1)[k - 1]);
                        assert(b.skip(1)[k - 1] == b[k]);
                    }
                }
                assert(a =~= b.subrange(0, a.len() as int));
            }
        }
        let j = lemma_lt_gives_diff(a.skip(1), b.skip(1));
        assert forall|k: int| 0 <= k < j + 1 implies a[k] == b[k] by {
            if k > 0 {
                assert(a.skip(1)[k - 1] == b.skip(1)[k - 1]);
            }
        }
        assert(a[j + 1] == a.skip(1)[j]);
        assert(b[j + 1] == b.skip(1)[j]);
        j + 1
    }
}

/// Order of sequences that differ at an index is kept by appending
/// anything to either side.
pub proof fn lemma_lt_append(a: Seq<u8>, b: Seq<u8>, x: Seq<u8>, y: Seq<u8>)
    requires
        lex_lt(a, b),
        !a.is_prefix_of(b),
    ensures
        lex_lt(a + x, b + y),
        !(a + x).is_prefix_of(b + y),
{
    let i = lemma_lt_gives_diff(a, b);
    assert forall|k: int| 0 <= k < i implies (a + x)[k] == (b + y)[k] by {
        assert(a[k] == b[k]);
    }
    assert((a + x)[i] == a[i]);
    assert((b + y)[i] == b[i]);
    lemma_lt_from_diff(a + x, b + y, i);
    lemma_diff_not_prefix(a + x, b + y, i);
}

/// Complement reverses the order of sequences that differ at an index.
pub proof fn lemma_lt_compl(a: Seq<u8>, b: Seq<u8>)
    requires
        lex_lt(a, b),
        !a.is_prefix_of(b),
    ensures
        lex_lt(compl(b), compl(a)),
        !compl(b).is_prefix_of(compl(a)),
{
    let i = lemma_lt_gives_diff(a, b);
    assert forall|k: int| 0 <= k < i implies compl(b)[k] == compl(a)[k] by {
        assert(a[k] == b[k]);
    }
    assert(compl(b)[i] < compl(a)[i]);
    lemma_lt_from_diff(compl(b), compl(a), i);
    assert(!compl(b).is_prefix_of(compl(a))) by {
        if compl(b).is_prefix_of(compl(a)) {
            assert(compl(b)[i] == compl(a).subrange(0, compl(b).len() as int)[i]);
        }
    }
}

/// Prepending one shared prefix keeps strict order, also where the
/// smaller sequence is a prefix of the larger.
pub proof fn lemma_lt_prepend_any(p: Seq<u8>, a: Seq<u8>, b: Seq<u8>)
    requires
        lex_lt(a, b),
    ensures
        lex_lt(p + a, p + b),
    decreases p.len(),
{
    if p.len() == 0 {
        assert(p + a =~= a);
        assert(p + b =~= b);
    } else {
        assert((p + a)[0] == p[0]);
        assert((p + b)[0] == p[0]);
        lemma_lt_prepend_any(p.skip(1), a, b);
        assert((p + a).skip(1) =~= p.skip(1) + a);
        assert((p + b).skip(1) =~= p.skip(1) + b);
    }
}

/// A sequence that differs from another inside both is no prefix of it.
pub proof fn lemma_diff_not_prefix(a: Seq<u8>, b: Seq<u8>, i: int)
    requires
        0 <= i < a.len(),
        i < b.len(),
        a[i] != b[i],
    ensures
        !a.is_prefix_of(b),
{
    if a.is_prefix_of(b) {
        assert(a[i] == b.subrange(0, a.len() as int)[i]);
    }
}

/// Prepending one shared prefix to two ordered, prefix-free sequences
/// keeps their order and prefix-freedom.
pub proof fn lemma_lt_prepend(p: Seq<u8>, a: Seq<u8>, b: Seq<u8>)
    requires
        lex_lt(a, b),
        !a.is_prefix_of(b),
    ensures
        lex_lt(p + a, p + b),
        !(p + a).is_prefix_of(p + b),
{
    let i = lemma_lt_gives_diff(a, b);
    let n = p.len() as int;
    assert forall|k: int| 0 <= k < n + i implies (p + a)[k] == (p + b)[k] by {
        if k >= n {
            assert(a[k - n] == b[k - n]);
        }
    }
    assert((p + a)[n + i] == a[i]);
    assert((p + b)[n + i] == b[i]);
    lemma_lt_from_diff(p + a, p + b, n + i);
    assert(!(p + a).is_prefix_of(p + b)) by {
        if (p + a).is_prefix_of(p + b) {
            assert((p + a)[n + i] == (p + b).subrange(0, (p + a).len() as int)[n + i]);
        }
    }
}

} // verus!
