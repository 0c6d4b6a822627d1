use crate::chunk::{chunk_has, chunk_wf, Chunk};
use vstd::prelude::*;
use vstd::set_lib::{lemma_int_range, lemma_len_subset, set_int_range};

verus! {

/// Intervals in order: each holds at least one point and ends strictly
/// before the next begins, so neighbors neither overlap nor touch.
pub open spec fn seq_wf(s: Seq<Chunk>) -> bool {
    (forall|i: int| 0 <= i < s.len() ==> chunk_wf(#[trigger] s[i])) && (forall|i: int|
        0 <= i < s.len() - 1 ==> (#[trigger] s[i]).end < s[i + 1].begin)
}

/// A point is covered when some interval of the sequence holds it.
pub open spec fn seq_covers(s: Seq<Chunk>, x: int) -> bool {
    exists|i: int| 0 <= i < s.len() && chunk_has(#[trigger] s[i], x)
}

/// Total number of points the intervals hold, counted interval by interval.
pub open spec fn covered_len(s: Seq<Chunk>) -> int
    decreases s.len(),
{
    if s.len() == 0 {
        0
    } else {
        s[0].end - s[0].begin + covered_len(s.skip(1))
    }
}

/// The set of covered points.
pub open spec fn covered_set(s: Seq<Chunk>) -> Set<int> {
    Set::new(|x: int| seq_covers(s, x))
}

/// Any two intervals of a well-formed sequence stand strictly apart,
/// not only adjacent ones.
pub proof fn lemma_wf_order(s: Seq<Chunk>, i: int, j: int)
    requires
        seq_wf(s),
        0 <= i < j < s.len(),
    ensures
        s[i].end < s[j].begin,
    decreases j - i,
{
    if j == i + 1 {
    } else {
        lemma_wf_order(s, i, j - 1);
    }
}

/// Dropping the first interval keeps the sequence well formed.
pub proof fn lemma_wf_tail(s: Seq<Chunk>)
    requires
        seq_wf(s),
        s.len() > 0,
    ensures
        seq_wf(s.skip(1)),
{
    assert forall|i: int| 0 <= i < s.skip(1).len() implies chunk_wf(#[trigger] s.skip(1)[i]) by {
        assert(s.skip(1)[i] == s[i + 1]);
    }
    assert forall|i: int| 0 <= i < s.skip(1).len() - 1 implies (#[trigger] s.skip(1)[i]).end < s.skip(
        1,
    )[i + 1].begin by {
        assert(s.skip(1)[i] == s[i + 1]);
        assert(s.skip(1)[i + 1] == s[i + 2]);
    }
}

/// A sequence made of a well-formed head standing strictly before a
/// well-formed rest is well formed.
pub proof fn lemma_wf_cons(s: Seq<Chunk>)
    requires
        s.len() > 0,
        chunk_wf(s[0]),
        seq_wf(s.skip(1)),
        s.len() > 1 ==> s[0].end < s[1].begin,
    ensures
        seq_wf(s),
{
    assert forall|i: int| 0 <= i < s.len() implies chunk_wf(#[trigger] s[i]) by {
        if i > 0 {
            assert(s[i] == s.skip(1)[i - 1]);
        }
    }
    assert forall|i: int| 0 <= i < s.len() - 1 implies (#[trigger] s[i]).end < s[i + 1].begin by {
        if i > 0 {
            assert(s[i] == s.skip(1)[i - 1]);
            assert(s[i + 1] == s.skip(1)[i]);
        }
    }
}

/// Coverage splits into the head interval and the rest.
pub proof fn lemma_covers_cons(s: Seq<Chunk>, x: int)
    requires
        s.len() > 0,
    ensures
        seq_covers(s, x) <==> (chunk_has(s[0], x) || seq_covers(s.skip(1), x)),
{
    if chunk_has(s[0], x) {
        assert(seq_covers(s, x));
    }
    if seq_covers(s.skip(1), x) {
        let i = choose|i: int| 0 <= i < s.skip(1).len() && chunk_has(#[trigger] s.skip(1)[i], x);
        assert(s.skip(1)[i] == s[i + 1]);
        assert(chunk_has(s[i + 1], x));
        assert(seq_covers(s, x));
    }
    if seq_covers(s, x) {
        let i = choose|i: int| 0 <= i < s.len() && chunk_has(#[trigger] s[i], x);
        if i > 0 {
            assert(s.skip(1)[i - 1] == s[i]);
            assert(seq_covers(s.skip(1), x));
        }
    }
}

/// Behind the head interval of a well-formed sequence, coverage is exactly
/// coverage by the rest.
pub proof fn lemma_covers_tail(s: Seq<Chunk>, x: int)
    requires
        seq_wf(s),
        s.len() > 0,
    ensures
        seq_covers(s.skip(1), x) <==> (seq_covers(s, x) && x > s[0].end),
{
    lemma_covers_cons(s, x);
    if seq_covers(s.skip(1), x) {
        let i = choose|i: int| 0 <= i < s.skip(1).len() && chunk_has(#[trigger] s.skip(1)[i], x);
        assert(s.skip(1)[i] == s[i + 1]);
        lemma_wf_order(s, 0, i + 1);
    }
    if seq_covers(s, x) && x > s[0].end {
        assert(!chunk_has(s[0], x));
    }
}

/// The first covered point of a well-formed, non-empty sequence is the
/// begin of its first interval.
pub proof fn lemma_first_point(s: Seq<Chunk>)
    requires
        seq_wf(s),
        s.len() > 0,
    ensures
        seq_covers(s, s[0].begin as int),
        forall|x: int| seq_covers(s, x) ==> x >= s[0].begin,
{
    assert(chunk_has(s[0], s[0].begin as int));
    assert(seq_covers(s, s[0].begin as int));
    assert forall|x: int| seq_covers(s, x) implies x >= s[0].begin by {
        let i = choose|i: int| 0 <= i < s.len() && chunk_has(#[trigger] s[i], x);
        if i > 0 {
            lemma_wf_order(s, 0, i);
        }
    }
}

/// Two well-formed sequences covering the same points start with the same
/// interval.
proof fn lemma_heads_equal(a: Seq<Chunk>, b: Seq<Chunk>)
    requires
        seq_wf(a),
        seq_wf(b),
        a.len() > 0,
        b.len() > 0,
        forall|x: int| #[trigger] seq_covers(a, x) <==> #[trigger] seq_covers(b, x),
    ensures
        a[0] == b[0],
{
    lemma_first_point(a);
    lemma_first_point(b);
    assert(seq_covers(b, a[0].begin as int));
    assert(seq_covers(a, b[0].begin as int));
    assert(a[0].begin == b[0].begin);
    if a[0].end < b[0].end {
        assert(chunk_has(b[0], a[0].end as int));
        assert(seq_covers(b, a[0].end as int));
        assert(seq_covers(a, a[0].end as int));
        let i = choose|i: int| 0 <= i < a.len() && chunk_has(#[trigger] a[i], a[0].end as int);
        if i > 0 {
            lemma_wf_order(a, 0, i);
        }
        assert(false);
    }
    if b[0].end < a[0].end {
        assert(chunk_has(a[0], b[0].end as int));
        assert(seq_covers(a, b[0].end as int));
        assert(seq_covers(b, b[0].end as int));
        let i = choose|i: int| 0 <= i < b.len() && chunk_has(#[trigger] b[i], b[0].end as int);
        if i > 0 {
            lemma_wf_order(b, 0, i);
        }
        assert(false);
    }
}

/// A well-formed sequence of intervals is determined by the set of points
/// it covers: rebuilding a list from intervals that cover the same points
/// gives back the same list.
#[verifier::rlimit(50)]
pub proof fn lemma_coverage_determines(a: Seq<Chunk>, b: Seq<Chunk>)
    requires
        seq_wf(a),
        seq_wf(b),
        forall|x: int| #[trigger] seq_covers(a, x) <==> #[trigger] seq_covers(b, x),
    ensures
        a == b,
    decreases a.len(),
{
    if a.len() == 0 {
        if b.len() > 0 {
            lemma_first_point(b);
            assert(seq_covers(a, b[0].begin as int));
            assert(false);
        }
        assert(a =~= b);
    } else if b.len() == 0 {
        lemma_first_point(a);
        assert(seq_covers(b, a[0].begin as int));
        assert(false);
    } else {
        lemma_heads_equal(a, b);
        assert(a[0] == b[0]);
        lemma_wf_tail(a);
        lemma_wf_tail(b);
        assert forall|x: int| #[trigger] seq_covers(a.skip(1), x) <==> #[trigger] seq_covers(
            b.skip(1),
            x,
        ) by {
            lemma_covers_tail(a, x);
            lemma_covers_tail(b, x);
        }
        lemma_coverage_determines(a.skip(1), b.skip(1));
        assert(a =~= b) by {
            assert forall|i: int| 0 <= i < a.len() implies a[i] == b[i] by {
                if i > 0 {
                    assert(a[i] == a.skip(1)[i - 1]);
                    assert(b[i] == b.skip(1)[i - 1]);
                }
            }
        }
    }
}

/// The union of two disjoint finite sets has the sum of their sizes.
proof fn lemma_disjoint_union_len<A>(a: Set<A>, b: Set<A>)
    requires
        a.finite(),
        b.finite(),
        a.intersect(b) == Set::<A>::empty(),
    ensures
        a.union(b).len() == a.len() + b.len(),
    decreases a.len(),
{
    if a.len() == 0 {
        a.lemma_len0_is_empty();
        assert(a.union(b) =~= b);
    } else {
        let e = a.choose();
        assert(a.contains(e));
        assert(!b.contains(e)) by {
            if b.contains(e) {
                assert(a.intersect(b).contains(e));
            }
        }
        assert(a.remove(e).intersect(b) =~= Set::<A>::empty());
        lemma_disjoint_union_len(a.remove(e), b);
        assert(a.union(b) =~= a.remove(e).union(b).insert(e));
        assert(!a.remove(e).union(b).contains(e));
    }
}

/// The number of covered points of a well-formed sequence is the sum of its
/// interval lengths.
pub proof fn lemma_covered_set_len(s: Seq<Chunk>)
    requires
        seq_wf(s),
    ensures
        covered_set(s).finite(),
        covered_set(s).len() == covered_len(s),
    decreases s.len(),
{
    if s.len() == 0 {
        assert(covered_set(s) =~= Set::<int>::empty());
    } else {
        lemma_wf_tail(s);
        lemma_covered_set_len(s.skip(1));
        lemma_int_range(s[0].begin as int, s[0].end as int);
        let head = set_int_range(s[0].begin as int, s[0].end as int);
        let rest = covered_set(s.skip(1));
        assert(covered_set(s) =~= head.union(rest)) by {
            assert forall|x: int| covered_set(s).contains(x) implies head.union(rest).contains(
                x,
            ) by {
                lemma_covers_cons(s, x);
            }
            assert forall|x: int| head.union(rest).contains(x) implies covered_set(s).contains(
                x,
            ) by {
                lemma_covers_cons(s, x);
            }
        }
        assert(head.intersect(rest) =~= Set::<int>::empty()) by {
            assert forall|x: int| !(head.contains(x) && rest.contains(x)) by {
                if head.contains(x) && rest.contains(x) {
                    lemma_covers_tail(s, x);
                }
            }
        }
        lemma_disjoint_union_len(head, rest);
    }
}

/// Adding a range of fresh points to a well-formed sequence grows the
/// covered length by exactly the size of that range.
pub proof fn lemma_covered_len_after_disjoint_add(s: Seq<Chunk>, t: Seq<Chunk>, a: int, b: int)
    requires
        seq_wf(s),
        seq_wf(t),
        a < b,
        forall|x: int| #[trigger] seq_covers(t, x) <==> (seq_covers(s, x) || a <= x < b),
        forall|x: int| a <= x < b ==> !seq_covers(s, x),
    ensures
        covered_len(t) == covered_len(s) + (b - a),
{
    lemma_covered_set_len(s);
    lemma_covered_set_len(t);
    lemma_int_range(a, b);
    let fresh = set_int_range(a, b);
    assert(covered_set(t) =~= covered_set(s).union(fresh));
    assert(covered_set(s).intersect(fresh) =~= Set::<int>::empty());
    lemma_disjoint_union_len(covered_set(s), fresh);
}

/// All points of a sequence bounded by `n` lie in `[0, n)`, so the covered
/// length lies between zero and `n`.
pub proof fn lemma_covered_len_bounds(s: Seq<Chunk>, n: int)
    requires
        seq_wf(s),
        forall|i: int| 0 <= i < s.len() ==> (#[trigger] s[i]).end <= n,
        n >= 0,
    ensures
        0 <= covered_len(s) <= n,
{
    lemma_covered_set_len(s);
    lemma_int_range(0, n);
    assert(covered_set(s).subset_of(set_int_range(0, n))) by {
        assert forall|x: int| covered_set(s).contains(x) implies set_int_range(0, n).contains(
            x,
        ) by {
            let i = choose|i: int| 0 <= i < s.len() && chunk_has(#[trigger] s[i], x);
            assert(s[i].end <= n);
        }
    }
    lemma_len_subset(covered_set(s), set_int_range(0, n));
}

/// The whole range `[0, n)` is covered.
pub open spec fn covers_all(s: Seq<Chunk>, n: int) -> bool {
    forall|x: int| 0 <= x < n ==> seq_covers(s, x)
}

/// Each interval of a sequence ends no later than the last point it
/// covers, plus one.
pub proof fn lemma_ends_bounded(s: Seq<Chunk>, n: int)
    requires
        seq_wf(s),
        forall|x: int| seq_covers(s, x) ==> x < n,
    ensures
        forall|i: int| 0 <= i < s.len() ==> (#[trigger] s[i]).end <= n,
{
    assert forall|i: int| 0 <= i < s.len() implies (#[trigger] s[i]).end <= n by {
        assert(chunk_has(s[i], s[i].end - 1));
        assert(seq_covers(s, s[i].end - 1));
    }
}

/// A well-formed sequence within `[0, n)` that covers all of it is the
/// single interval `[0, n)`.
pub proof fn lemma_full_shape(s: Seq<Chunk>, n: int)
    requires
        seq_wf(s),
        1 <= n <= usize::MAX,
        forall|i: int| 0 <= i < s.len() ==> (#[trigger] s[i]).end <= n,
        covers_all(s, n),
    ensures
        s.len() == 1,
        s[0].begin == 0,
        s[0].end == n,
{
    let single = seq![Chunk { begin: 0, end: n as usize }];
    assert(seq_wf(single)) by {
        assert(chunk_wf(single[0]));
    }
    assert forall|x: int| #[trigger] seq_covers(s, x) <==> #[trigger] seq_covers(single, x) by {
        if seq_covers(s, x) {
            let i = choose|i: int| 0 <= i < s.len() && chunk_has(#[trigger] s[i], x);
            assert(0 <= x < n);
            assert(chunk_has(single[0], x));
            assert(seq_covers(single, x));
        }
        if seq_covers(single, x) {
            let i = choose|i: int| 0 <= i < single.len() && chunk_has(#[trigger] single[i], x);
            assert(0 <= x < n);
            assert(seq_covers(s, x));
        }
    }
    lemma_coverage_determines(s, single);
}

/// A sequence inside `[0, n)` whose covered length has reached `n` covers
/// all of `[0, n)`. Every accepted fragment holds at least one fresh
/// byte and grows the covered length by its size, so no run of fragments
/// can stay incomplete for more than `n` rounds.
pub proof fn lemma_full_measure_covers_all(s: Seq<Chunk>, n: int)
    requires
        seq_wf(s),
        forall|i: int| 0 <= i < s.len() ==> (#[trigger] s[i]).end <= n,
        n >= 0,
        covered_len(s) == n,
    ensures
        covers_all(s, n),
{
    lemma_covered_set_len(s);
    lemma_int_range(0, n);
    assert(covered_set(s).subset_of(set_int_range(0, n))) by {
        assert forall|x: int| covered_set(s).contains(x) implies set_int_range(0, n).contains(
            x,
        ) by {
            let i = choose|i: int| 0 <= i < s.len() && chunk_has(#[trigger] s[i], x);
            assert(s[i].end <= n);
        }
    }
    vstd::set_lib::lemma_subset_equality(covered_set(s), set_int_range(0, n));
    assert forall|x: int| 0 <= x < n implies seq_covers(s, x) by {
        assert(set_int_range(0, n).contains(x));
        assert(covered_set(s).contains(x));
    }
}

/// Every index of a well-formed sequence lies below the begin of the
/// interval standing there, so no sequence outgrows the address space.
pub proof fn lemma_wf_len_bound(s: Seq<Chunk>)
    requires
        seq_wf(s),
    ensures
        s.len() <= usize::MAX,
    decreases s.len(),
{
    if s.len() > usize::MAX {
        assert forall|i: int| 0 <= i < s.len() implies (#[trigger] s[i]).begin >= i by {
            lemma_index_lb(s, i);
        }
        assert(s[usize::MAX as int].begin >= usize::MAX);
        assert(chunk_wf(s[usize::MAX as int]));
        assert(false);
    }
}

proof fn lemma_index_lb(s: Seq<Chunk>, i: int)
    requires
        seq_wf(s),
        0 <= i < s.len(),
    ensures
        s[i].begin >= i,
    decreases i,
{
    if i > 0 {
        lemma_index_lb(s, i - 1);
        assert(s[i - 1].end < s[i].begin);
        assert(chunk_wf(s[i - 1]));
    }
}

} // verus!
