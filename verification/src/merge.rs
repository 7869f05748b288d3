//! The merger: rewriting a symbol sequence by collapsing one adjacent pair.

use vstd::prelude::*;

verus! {

/// One left-to-right, non-overlapping rewrite pass over `s`: every adjacent
/// occurrence of the pair `(a, b)` is replaced by the single symbol `r`,
/// greedily from the left (in `a a a b` with pair `(a, a)`, the first two
/// `a`s are consumed).
pub open spec fn spec_merge(s: Seq<u32>, a: u32, b: u32, r: u32) -> Seq<u32>
    decreases s.len(),
{
    if s.len() >= 2 && s[0] == a && s[1] == b {
        seq![r] + spec_merge(s.skip(2), a, b, r)
    } else if s.len() >= 1 {
        seq![s[0]] + spec_merge(s.skip(1), a, b, r)
    } else {
        Seq::empty()
    }
}

/// Rewrites `ids`, replacing every non-overlapping occurrence of `pair` by
/// the symbol `idx`, scanning left to right.
pub fn merge(ids: &Vec<u32>, pair: &(u32, u32), idx: &u32) -> (newids: Vec<u32>)
    ensures
        newids@ == spec_merge(ids@, pair.0, pair.1, *idx),
{
    let ghost s = ids@;
    let mut newids: Vec<u32> = Vec::new();
    let mut i: usize = 0;
    proof {
        assert(s.skip(0) =~= s);
        assert(newids@ + spec_merge(s, pair.0, pair.1, *idx) =~= spec_merge(
            s,
            pair.0,
            pair.1,
            *idx,
        ));
    }
    while i < ids.len()
        invariant
            i <= ids.len(),
            s == ids@,
            spec_merge(s, pair.0, pair.1, *idx) == newids@ + spec_merge(
                s.skip(i as int),
                pair.0,
                pair.1,
                *idx,
            ),
        decreases ids.len() - i,
    {
        let ghost rest = s.skip(i as int);
        if ids[i] == pair.0 && i + 1 < ids.len() && ids[i + 1] == pair.1 {
            newids.push(*idx);
            proof {
                assert(rest.len() >= 2 && rest[0] == pair.0 && rest[1] == pair.1);
                assert(rest.skip(2) =~= s.skip(i + 2));
                assert(newids@ + spec_merge(s.skip(i + 2), pair.0, pair.1, *idx)
                    =~= (newids@.drop_last() + (seq![*idx] + spec_merge(
                    s.skip(i + 2),
                    pair.0,
                    pair.1,
                    *idx,
                ))));
            }
            i = i + 2;
        } else {
            newids.push(ids[i]);
            proof {
                assert(!(rest.len() >= 2 && rest[0] == pair.0 && rest[1] == pair.1));
                assert(rest.len() >= 1 && rest[0] == s[i as int]);
                assert(rest.skip(1) =~= s.skip(i + 1));
                assert(newids@ + spec_merge(s.skip(i + 1), pair.0, pair.1, *idx)
                    =~= (newids@.drop_last() + (seq![s[i as int]] + spec_merge(
                    s.skip(i + 1),
                    pair.0,
                    pair.1,
                    *idx,
                ))));
            }
            i = i + 1;
        }
    }
    proof {
        assert(s.skip(ids@.len() as int) =~= Seq::<u32>::empty());
        assert(newids@ + Seq::<u32>::empty() =~= newids@);
    }
    newids
}

/// The merged sequence is never longer than the original.
pub proof fn lemma_merge_len_le(s: Seq<u32>, a: u32, b: u32, r: u32)
    ensures
        spec_merge(s, a, b, r).len() <= s.len(),
    decreases s.len(),
{
    if s.len() >= 2 && s[0] == a && s[1] == b {
        lemma_merge_len_le(s.skip(2), a, b, r);
    } else if s.len() >= 1 {
        lemma_merge_len_le(s.skip(1), a, b, r);
    }
}

/// Merging a pair `(a, a)` over `a a a b` consumes the first two `a`s and
/// leaves the trailing `a` alone: the result is `r a b`, never `a r b`.
pub proof fn lemma_merge_first_pair(a: u32, b: u32, r: u32)
    requires
        a != b,
    ensures
        spec_merge(seq![a, a, a, b], a, a, r) =~= seq![r, a, b],
{
    let s = seq![a, a, a, b];
    assert(seq![b].skip(1) =~= Seq::<u32>::empty());
    assert(spec_merge(Seq::<u32>::empty(), a, a, r) =~= Seq::<u32>::empty());
    assert(spec_merge(seq![b], a, a, r) =~= seq![b]);
    assert(seq![a, b].skip(1) =~= seq![b]);
    assert(spec_merge(seq![a, b], a, a, r) =~= seq![a, b]);
    assert(s.skip(2) =~= seq![a, b]);
    assert(spec_merge(s, a, a, r) =~= seq![r] + seq![a, b]);
}

} // verus!
