//! The pair frequency counter: counting adjacent pairs of a symbol
//! sequence and selecting the most frequent one, ties broken towards the
//! lexicographically smallest pair.

use vstd::prelude::*;

verus! {

/// How many indices `i` of `s` satisfy `s[i] == a && s[i + 1] == b`.
/// Overlapping occurrences all count (`a a a` holds two `(a, a)` pairs).
pub open spec fn pair_count(s: Seq<u32>, a: u32, b: u32) -> nat
    decreases s.len(),
{
    if s.len() < 2 {
        0
    } else {
        (if s[0] == a && s[1] == b {
            1nat
        } else {
            0nat
        }) + pair_count(s.skip(1), a, b)
    }
}

/// Lexicographic order on pairs of symbol ids.
pub open spec fn lex_le(a0: u32, b0: u32, a1: u32, b1: u32) -> bool {
    a0 < a1 || (a0 == a1 && b0 <= b1)
}

/// `(a, b)` occurs in `s`, no other pair occurs more often, and among the
/// pairs occurring that often `(a, b)` is lexicographically smallest.
pub open spec fn is_top_pair(s: Seq<u32>, a: u32, b: u32) -> bool {
    &&& pair_count(s, a, b) >= 1
    &&& forall|x: u32, y: u32| #[trigger] pair_count(s, x, y) <= pair_count(s, a, b)
    &&& forall|x: u32, y: u32|
        #[trigger] pair_count(s, x, y) == pair_count(s, a, b) ==> lex_le(a, b, x, y)
}

/// The most frequent pair of `s` (smallest on ties); meaningful whenever
/// `s` has at least two elements.
pub open spec fn top_pair(s: Seq<u32>) -> (u32, u32) {
    choose|p: (u32, u32)| is_top_pair(s, p.0, p.1)
}

/// The pair standing at any index is counted at least once.
pub proof fn lemma_pair_at_counted(s: Seq<u32>, i: int)
    requires
        0 <= i,
        i + 1 < s.len(),
    ensures
        pair_count(s, s[i], s[i + 1]) >= 1,
    decreases i,
{
    if i > 0 {
        lemma_pair_at_counted(s.skip(1), i - 1);
    }
}

/// A pair with a positive count occurs at some index.
pub proof fn lemma_count_pos_occurs(s: Seq<u32>, a: u32, b: u32) -> (i: int)
    requires
        pair_count(s, a, b) >= 1,
    ensures
        0 <= i,
        i + 1 < s.len(),
        s[i] == a,
        s[i + 1] == b,
    decreases s.len(),
{
    if s[0] == a && s[1] == b {
        0
    } else {
        let j = lemma_count_pos_occurs(s.skip(1), a, b);
        j + 1
    }
}

/// At most one pair is the top pair of a sequence.
pub proof fn lemma_top_pair_unique(s: Seq<u32>, a0: u32, b0: u32, a1: u32, b1: u32)
    requires
        is_top_pair(s, a0, b0),
        is_top_pair(s, a1, b1),
    ensures
        a0 == a1,
        b0 == b1,
{
    assert(pair_count(s, a0, b0) <= pair_count(s, a1, b1));
    assert(pair_count(s, a1, b1) <= pair_count(s, a0, b0));
    assert(lex_le(a0, b0, a1, b1));
    assert(lex_le(a1, b1, a0, b0));
}

/// The witness found by `frequent_pair` is what `top_pair` denotes.
pub proof fn lemma_top_pair_is(s: Seq<u32>, a: u32, b: u32)
    requires
        is_top_pair(s, a, b),
    ensures
        top_pair(s) == (a, b),
{
    let p = (a, b);
    assert(is_top_pair(s, p.0, p.1));
    let q = top_pair(s);
    assert(is_top_pair(s, q.0, q.1));
    lemma_top_pair_unique(s, q.0, q.1, a, b);
}

/// Counts the occurrences of the adjacent pair `(a, b)` in `ids`.
pub fn count_pair(ids: &Vec<u32>, a: u32, b: u32) -> (n: usize)
    ensures
        n == pair_count(ids@, a, b),
{
    let ghost s = ids@;
    let mut n: usize = 0;
    let mut i: usize = 0;
    if ids.len() < 2 {
        return 0;
    }
    proof {
        assert(s.skip(0) =~= s);
    }
    while i + 1 < ids.len()
        invariant
            s == ids@,
            i < ids.len(),
            n + pair_count(s.skip(i as int), a, b) == pair_count(s, a, b),
            n <= i,
        decreases ids.len() - i,
    {
        proof {
            assert(s.skip(i as int).skip(1) =~= s.skip(i + 1));
            assert(s.skip(i as int).len() >= 2);
            assert(s.skip(i as int)[0] == s[i as int]);
            assert(s.skip(i as int)[1] == s[i + 1]);
        }
        if ids[i] == a && ids[i + 1] == b {
            n = n + 1;
        }
        i = i + 1;
    }
    proof {
        assert(pair_count(s.skip(i as int), a, b) == 0);
    }
    n
}

/// Scans `ids` and returns its most frequent adjacent pair together with
/// that pair's occurrence count; ties are broken towards the
/// lexicographically smallest pair. Returns `None` exactly when `ids` has
/// no adjacent pair at all.
pub fn frequent_pair(ids: &Vec<u32>) -> (r: Option<(u32, u32, usize)>)
    ensures
        r is Some <==> ids@.len() >= 2,
        r matches Some(t) ==> is_top_pair(ids@, t.0, t.1) && t.2 == pair_count(ids@, t.0, t.1),
{
    let ghost s = ids@;
    if ids.len() < 2 {
        return None;
    }
    let mut best_a: u32 = ids[0];
    let mut best_b: u32 = ids[1];
    let mut best_n: usize = count_pair(ids, best_a, best_b);
    proof {
        lemma_pair_at_counted(s, 0);
    }
    let mut i: usize = 1;
    while i + 1 < ids.len()
        invariant
            s == ids@,
            s.len() >= 2,
            1 <= i < ids.len(),
            best_n == pair_count(s, best_a, best_b),
            best_n >= 1,
            forall|j: int|
                0 <= j < i && j + 1 < s.len() ==> pair_count(s, s[j], #[trigger] s[j + 1])
                    <= best_n,
            forall|j: int|
                0 <= j < i && j + 1 < s.len() && pair_count(s, s[j], #[trigger] s[j + 1]) == best_n
                    ==> lex_le(best_a, best_b, s[j], s[j + 1]),
        decreases ids.len() - i,
    {
        let a = ids[i];
        let b = ids[i + 1];
        let n = count_pair(ids, a, b);
        if n > best_n || (n == best_n && (a < best_a || (a == best_a && b < best_b))) {
            best_a = a;
            best_b = b;
            best_n = n;
        }
        i = i + 1;
    }
    proof {
        assert forall|x: u32, y: u32| #[trigger] pair_count(s, x, y) <= pair_count(
            s,
            best_a,
            best_b,
        ) by {
            if pair_count(s, x, y) >= 1 {
                let j = lemma_count_pos_occurs(s, x, y);
                assert(pair_count(s, s[j], s[j + 1]) <= best_n);
            }
        }
        assert forall|x: u32, y: u32|
            #[trigger] pair_count(s, x, y) == pair_count(s, best_a, best_b) implies lex_le(
            best_a,
            best_b,
            x,
            y,
        ) by {
            let j = lemma_count_pos_occurs(s, x, y);
            assert(lex_le(best_a, best_b, s[j], s[j + 1]));
        }
    }
    Some((best_a, best_b, best_n))
}

} // verus!
