use crate::chunk::{chunk_has, chunk_wf, Chunk, ChunkError};
use crate::chunk_node::{node_seq, ChunkNode};
use crate::coverage::{
    lemma_coverage_determines, lemma_covers_cons, lemma_first_point, lemma_wf_cons,
    lemma_wf_len_bound, lemma_wf_tail, seq_covers, seq_wf,
};
use vstd::prelude::*;

verus! {

/// An index that points past the last interval of the list.
#[derive(Clone, Copy, Debug, PartialEq, Eq, Structural)]
pub enum ListError {
    IndexOutOfRange,
}

/// An ordered, forward-linked list of half-open intervals in which no two
/// intervals overlap or touch.
#[derive(Debug)]
pub struct IntervalList {
    pub head: Option<Box<ChunkNode>>,
}

impl View for IntervalList {
    type V = Seq<Chunk>;

    open spec fn view(&self) -> Seq<Chunk> {
        node_seq(self.head)
    }
}

impl IntervalList {
    /// All invariants of the list: sorted, non-empty intervals, no touching
    /// neighbors.
    pub open spec fn wf(&self) -> bool {
        seq_wf(self@)
    }

    pub fn new() -> (r: Self)
        ensures
            r@ == Seq::<Chunk>::empty(),
            r.wf(),
    {
        Self { head: None }
    }

    pub fn is_empty(&self) -> (r: bool)
        ensures
            r == (self@.len() == 0),
    {
        self.head.is_none()
    }

    pub fn clear(&mut self)
        ensures
            final(self)@ == Seq::<Chunk>::empty(),
            final(self).wf(),
    {
        self.head = None;
    }

    /// Splices one chunk into the suffix hanging off `node`, merging away
    /// everything it overlaps or touches.
    fn insert_node(node: Option<Box<ChunkNode>>, chunk: Chunk) -> (r: Option<Box<ChunkNode>>)
        requires
            seq_wf(node_seq(node)),
            chunk_wf(chunk),
        ensures
            seq_wf(node_seq(r)),
            forall|x: int|
                #[trigger] seq_covers(node_seq(r), x) <==> (seq_covers(node_seq(node), x)
                    || chunk_has(chunk, x)),
            node_seq(r).len() > 0,
            node_seq(r)[0].begin == if node_seq(node).len() == 0 {
                chunk.begin
            } else if chunk.begin <= node_seq(node)[0].begin {
                chunk.begin
            } else {
                node_seq(node)[0].begin
            },
        decreases node,
    {
        let ghost s = node_seq(node);
        match node {
            Option::None => {
                let r = Some(Box::new(ChunkNode { chunk, next_chunk: None }));
                proof {
                    let rs = node_seq(r);
                    assert(node_seq(None::<Box<ChunkNode>>) =~= Seq::<Chunk>::empty());
                    assert(rs =~= seq![chunk]);
                    assert forall|x: int| #[trigger] seq_covers(rs, x) <==> chunk_has(
                        chunk,
                        x,
                    ) by {
                        if chunk_has(chunk, x) {
                            assert(chunk_has(rs[0], x));
                            assert(seq_covers(rs, x));
                        }
                    }
                }
                r
            },
            Option::Some(boxed) => {
                let ChunkNode { chunk: cur, next_chunk: rest } = *boxed;
                proof {
                    assert(s == seq![cur] + node_seq(rest));
                    assert(s[0] == cur);
                    assert(s.skip(1) =~= node_seq(rest));
                    lemma_wf_tail(s);
                }
                if chunk.end < cur.begin {
                    let tail = Some(Box::new(ChunkNode { chunk: cur, next_chunk: rest }));
                    let r = Some(Box::new(ChunkNode { chunk, next_chunk: tail }));
                    proof {
                        let rs = node_seq(r);
                        assert(node_seq(tail) == s);
                        assert(rs == seq![chunk] + s);
                        assert(rs[0] == chunk);
                        assert(rs.skip(1) =~= s);
                        lemma_wf_cons(rs);
                        assert forall|x: int|
                            #[trigger] seq_covers(rs, x) <==> (seq_covers(s, x) || chunk_has(
                                chunk,
                                x,
                            )) by {
                            lemma_covers_cons(rs, x);
                        }
                    }
                    r
                } else if cur.end < chunk.begin {
                    let new_rest = Self::insert_node(rest, chunk);
                    let r = Some(Box::new(ChunkNode { chunk: cur, next_chunk: new_rest }));
                    proof {
                        let rs = node_seq(r);
                        let ns = node_seq(new_rest);
                        assert(rs == seq![cur] + ns);
                        assert(rs[0] == cur);
                        assert(rs.skip(1) =~= ns);
                        assert(ns[0].begin > cur.end);
                        lemma_wf_cons(rs);
                        assert forall|x: int|
                            #[trigger] seq_covers(rs, x) <==> (seq_covers(s, x) || chunk_has(
                                chunk,
                                x,
                            )) by {
                            lemma_covers_cons(rs, x);
                            lemma_covers_cons(s, x);
                        }
                    }
                    r
                } else {
                    let begin = if chunk.begin <= cur.begin {
                        chunk.begin
                    } else {
                        cur.begin
                    };
                    let end = if chunk.end >= cur.end {
                        chunk.end
                    } else {
                        cur.end
                    };
                    let merged = Chunk { begin, end };
                    proof {
                        if node_seq(rest).len() > 0 {
                            assert(node_seq(rest)[0] == s[1]);
                        }
                    }
                    let r = Self::insert_node(rest, merged);
                    proof {
                        assert forall|x: int|
                            #[trigger] seq_covers(node_seq(r), x) <==> (seq_covers(s, x)
                                || chunk_has(chunk, x)) by {
                            lemma_covers_cons(s, x);
                            assert(chunk_has(merged, x) <==> (chunk_has(cur, x) || chunk_has(
                                chunk,
                                x,
                            )));
                        }
                    }
                    r
                }
            },
        }
    }

    /// Inserts one interval, coalescing it with everything it overlaps or
    /// touches; afterwards the list covers exactly the old points plus the
    /// new interval, and all list invariants hold again.
    pub fn add_chunk(&mut self, chunk: Chunk) -> (r: Result<(), ChunkError>)
        requires
            old(self).wf(),
        ensures
            final(self).wf(),
            chunk_wf(chunk) ==> r == Ok::<(), ChunkError>(()) && (forall|x: int|
                #[trigger] seq_covers(final(self)@, x) <==> (seq_covers(old(self)@, x)
                    || chunk_has(chunk, x))),
            !chunk_wf(chunk) ==> r == Err::<(), ChunkError>(ChunkError::InvalidChunk(chunk))
                && final(self)@ == old(self)@,
    {
        if chunk.begin >= chunk.end {
            return Err(ChunkError::InvalidChunk(chunk));
        }
        let head = self.head.take();
        self.head = Self::insert_node(head, chunk);
        Ok(())
    }

    pub fn len(&self) -> (r: usize)
        requires
            self.wf(),
        ensures
            r == self@.len(),
    {
        proof {
            lemma_wf_len_bound(self@);
        }
        let mut count: usize = 0;
        let mut current: &Option<Box<ChunkNode>> = &self.head;
        while current.is_some()
            invariant
                seq_wf(node_seq(*current)),
                count + node_seq(*current).len() == self@.len(),
                self@.len() <= usize::MAX,
            decreases node_seq(*current).len(),
        {
            let node = current.as_ref().unwrap();
            proof {
                assert(node_seq(*current) == seq![node.chunk] + node_seq(node.next_chunk));
                assert(node_seq(*current).skip(1) =~= node_seq(node.next_chunk));
                lemma_wf_tail(node_seq(*current));
            }
            count = count + 1;
            current = &node.next_chunk;
        }
        count
    }

    /// Membership agrees with union semantics: a point is in the list if
    /// and only if one of its intervals holds it.
    pub fn contains(&self, value: usize) -> (r: bool)
        requires
            self.wf(),
        ensures
            r == seq_covers(self@, value as int),
    {
        let mut current: &Option<Box<ChunkNode>> = &self.head;
        while current.is_some()
            invariant
                seq_wf(node_seq(*current)),
                seq_covers(self@, value as int) <==> seq_covers(node_seq(*current), value as int),
            decreases node_seq(*current).len(),
        {
            let node = current.as_ref().unwrap();
            let ghost suffix = node_seq(*current);
            proof {
                assert(suffix == seq![node.chunk] + node_seq(node.next_chunk));
                assert(suffix[0] == node.chunk);
                assert(suffix.skip(1) =~= node_seq(node.next_chunk));
                lemma_wf_tail(suffix);
            }
            if value >= node.chunk.begin && value < node.chunk.end {
                proof {
                    assert(chunk_has(suffix[0], value as int));
                    assert(seq_covers(suffix, value as int));
                }
                return true;
            }
            if value < node.chunk.begin {
                proof {
                    lemma_first_point(suffix);
                    if seq_covers(suffix, value as int) {
                        assert(false);
                    }
                }
                return false;
            }
            proof {
                lemma_covers_cons(suffix, value as int);
            }
            current = &node.next_chunk;
        }
        false
    }

    /// The outermost bounds: begin of the first interval and end of the
    /// last one, or nothing for an empty list.
    pub fn total_range(&self) -> (r: Option<(usize, usize)>)
        ensures
            self@.len() == 0 ==> r is None,
            self@.len() > 0 ==> r == Some((self@[0].begin, self@[self@.len() - 1].end)),
    {
        let first = match &self.head {
            Option::None => {
                return None;
            },
            Option::Some(node) => node,
        };
        let left_bound = first.chunk.begin;
        let mut current: &Box<ChunkNode> = first;
        proof {
            assert(self@ == seq![current.chunk] + node_seq(current.next_chunk));
        }
        while current.next_chunk.is_some()
            invariant
                self@.len() > 0,
                (seq![current.chunk] + node_seq(current.next_chunk))[(seq![current.chunk]
                    + node_seq(current.next_chunk)).len() - 1] == self@[self@.len() - 1],
            decreases node_seq(current.next_chunk).len(),
        {
            let ghost before = seq![current.chunk] + node_seq(current.next_chunk);
            let next: &Box<ChunkNode> = match &current.next_chunk {
                Option::Some(next) => next,
                Option::None => {
                    proof {
                        assert(false);
                    }
                    current
                },
            };
            proof {
                let after = seq![next.chunk] + node_seq(next.next_chunk);
                assert(node_seq(current.next_chunk) == after);
                assert(before.len() == after.len() + 1);
                assert(before[before.len() - 1] == after[after.len() - 1]);
            }
            current = next;
        }
        proof {
            let last_seq = seq![current.chunk] + node_seq(current.next_chunk);
            assert(last_seq.len() == 1);
            assert(last_seq[0] == current.chunk);
        }
        Some((left_bound, current.chunk.end))
    }

    /// Folds a vector of intervals into a fresh list; fails on the first
    /// ill-formed interval.
    pub fn from_intervals(intervals: Vec<Chunk>) -> (r: Result<Self, ChunkError>)
        ensures
            (forall|i: int| 0 <= i < intervals@.len() ==> chunk_wf(#[trigger] intervals@[i]))
                ==> (r matches Ok(l) && l.wf() && (forall|x: int|
                #[trigger] seq_covers(l@, x) <==> exists|i: int|
                    0 <= i < intervals@.len() && chunk_has(#[trigger] intervals@[i], x))),
            (exists|i: int| 0 <= i < intervals@.len() && !chunk_wf(#[trigger] intervals@[i]))
                ==> (r matches Err(e) && exists|k: int|
                0 <= k < intervals@.len() && !chunk_wf(intervals@[k]) && (forall|j: int|
                    0 <= j < k ==> chunk_wf(#[trigger] intervals@[j])) && e
                    == ChunkError::InvalidChunk(intervals@[k])),
    {
        let mut list = Self::new();
        let mut idx: usize = 0;
        while idx < intervals.len()
            invariant
                0 <= idx <= intervals@.len(),
                list.wf(),
                forall|j: int| 0 <= j < idx ==> chunk_wf(#[trigger] intervals@[j]),
                forall|x: int|
                    #[trigger] seq_covers(list@, x) <==> exists|i: int|
                        0 <= i < idx && chunk_has(#[trigger] intervals@[i], x),
            decreases intervals@.len() - idx,
        {
            let chunk = intervals[idx];
            let ghost old_list = list@;
            match list.add_chunk(chunk) {
                Ok(()) => {},
                Err(e) => {
                    return Err(e);
                },
            }
            proof {
                assert forall|x: int| #[trigger] seq_covers(list@, x) implies exists|i: int|
                    0 <= i < idx + 1 && chunk_has(#[trigger] intervals@[i], x) by {
                    if seq_covers(old_list, x) {
                        let i = choose|i: int|
                            0 <= i < idx && chunk_has(#[trigger] intervals@[i], x);
                        assert(chunk_has(intervals@[i], x));
                    } else {
                        assert(chunk_has(intervals@[idx as int], x));
                    }
                }
            }
            idx = idx + 1;
        }
        Ok(list)
    }

    /// A fresh one-interval list node.
    fn gap_node(begin: usize, end: usize) -> (r: Option<Box<ChunkNode>>)
        requires
            begin < end,
        ensures
            seq_wf(node_seq(r)),
            node_seq(r).len() == 1,
            node_seq(r)[0] == (Chunk { begin, end }),
            forall|x: int| #[trigger] seq_covers(node_seq(r), x) <==> begin <= x < end,
    {
        let r = Some(Box::new(ChunkNode { chunk: Chunk { begin, end }, next_chunk: None }));
        proof {
            let rs = node_seq(r);
            assert(node_seq(None::<Box<ChunkNode>>) =~= Seq::<Chunk>::empty());
            assert(rs =~= seq![Chunk { begin, end }]);
            assert forall|x: int| #[trigger] seq_covers(rs, x) <==> begin <= x < end by {
                if begin <= x < end {
                    assert(chunk_has(rs[0], x));
                    assert(seq_covers(rs, x));
                }
            }
        }
        r
    }

    /// Emits, in order, the maximal gaps of `[cursor, end)` that the suffix
    /// behind `node` leaves uncovered.
    #[verifier::rlimit(50)]
    fn complement_node(node: &Option<Box<ChunkNode>>, cursor: usize, end: usize) -> (r: Option<
        Box<ChunkNode>,
    >)
        requires
            seq_wf(node_seq(*node)),
        ensures
            seq_wf(node_seq(r)),
            forall|x: int|
                #[trigger] seq_covers(node_seq(r), x) <==> (cursor <= x < end && !seq_covers(
                    node_seq(*node),
                    x,
                )),
            node_seq(r).len() > 0 ==> node_seq(r)[0].begin >= cursor,
        decreases node_seq(*node).len(),
    {
        let ghost s = node_seq(*node);
        match node {
            Option::None => {
                if cursor < end {
                    Self::gap_node(cursor, end)
                } else {
                    None
                }
            },
            Option::Some(n) => {
                proof {
                    assert(s == seq![n.chunk] + node_seq(n.next_chunk));
                    assert(s[0] == n.chunk);
                    assert(s.skip(1) =~= node_seq(n.next_chunk));
                    lemma_wf_tail(s);
                    lemma_first_point(s);
                }
                let a = n.chunk.begin;
                let b = n.chunk.end;
                if a >= end {
                    proof {
                        assert forall|x: int| cursor <= x < end implies !seq_covers(s, x) by {
                            if seq_covers(s, x) {
                                assert(x >= s[0].begin);
                            }
                        }
                    }
                    if cursor < end {
                        Self::gap_node(cursor, end)
                    } else {
                        None
                    }
                } else {
                    let new_cursor = if b > cursor {
                        b
                    } else {
                        cursor
                    };
                    let rest_result = Self::complement_node(&n.next_chunk, new_cursor, end);
                    proof {
                        assert forall|x: int|
                            #[trigger] seq_covers(node_seq(rest_result), x) <==> (new_cursor <= x
                                < end && !seq_covers(s, x)) by {
                            lemma_covers_cons(s, x);
                        }
                    }
                    if cursor < a {
                        let gap = Chunk { begin: cursor, end: a };
                        let r = Some(Box::new(ChunkNode { chunk: gap, next_chunk: rest_result }));
                        proof {
                            let rs = node_seq(r);
                            assert(rs == seq![gap] + node_seq(rest_result));
                            assert(rs[0] == gap);
                            assert(rs.skip(1) =~= node_seq(rest_result));
                            if node_seq(rest_result).len() > 0 {
                                assert(node_seq(rest_result)[0].begin >= new_cursor);
                                assert(new_cursor >= b > a);
                            }
                            lemma_wf_cons(rs);
                            assert forall|x: int|
                                #[trigger] seq_covers(rs, x) <==> (cursor <= x < end
                                    && !seq_covers(s, x)) by {
                                lemma_covers_cons(rs, x);
                                if chunk_has(gap, x) {
                                    assert(x < s[0].begin);
                                    if seq_covers(s, x) {
                                        assert(false);
                                    }
                                }
                                if cursor <= x < end && !seq_covers(s, x) && !chunk_has(gap, x) {
                                    assert(!chunk_has(s[0], x));
                                    assert(x >= b || x < a);
                                    assert(x >= new_cursor);
                                }
                            }
                        }
                        r
                    } else {
                        proof {
                            assert forall|x: int|
                                #[trigger] seq_covers(node_seq(rest_result), x) <==> (cursor <= x
                                    < end && !seq_covers(s, x)) by {
                                if cursor <= x < end && !seq_covers(s, x) {
                                    assert(!chunk_has(s[0], x));
                                    assert(x >= b || x < a);
                                    assert(x >= new_cursor);
                                }
                            }
                        }
                        rest_result
                    }
                }
            },
        }
    }

    /// The gaps inside `start_to_end_chunk` that this list leaves
    /// uncovered, pointwise the set complement of the list within the
    /// bounds.
    pub fn get_complement_intervals(&self, start_to_end_chunk: Chunk) -> (r: Result<
        Self,
        ChunkError,
    >)
        requires
            self.wf(),
        ensures
            r matches Ok(l) && l.wf() && (forall|x: int|
                #[trigger] seq_covers(l@, x) <==> (chunk_has(start_to_end_chunk, x) && !seq_covers(
                    self@,
                    x,
                ))),
    {
        let head = Self::complement_node(
            &self.head,
            start_to_end_chunk.begin,
            start_to_end_chunk.end,
        );
        Ok(IntervalList { head })
    }

    /// Whether no point of the given range has been obtained yet, so the
    /// range can be integrated without rewriting anything.
    pub fn range_is_free(&self, chunk: Chunk) -> (r: bool)
        requires
            self.wf(),
        ensures
            r == (forall|x: int| chunk_has(chunk, x) ==> !seq_covers(self@, x)),
    {
        if chunk.begin >= chunk.end {
            return true;
        }
        let comp = match self.get_complement_intervals(chunk) {
            Ok(l) => l,
            Err(_) => {
                proof {
                    assert(false);
                }
                return false;
            },
        };
        let ghost single = seq![chunk];
        proof {
            assert(seq_wf(single)) by {
                assert(chunk_wf(single[0]));
            }
            if forall|x: int| chunk_has(chunk, x) ==> !seq_covers(self@, x) {
                assert forall|x: int| #[trigger] seq_covers(comp@, x) <==> #[trigger] seq_covers(
                    single,
                    x,
                ) by {
                    if chunk_has(chunk, x) {
                        assert(chunk_has(single[0], x));
                        assert(seq_covers(single, x));
                    }
                    if seq_covers(single, x) {
                        let i = choose|i: int|
                            0 <= i < single.len() && chunk_has(#[trigger] single[i], x);
                        assert(chunk_has(chunk, x));
                    }
                }
                lemma_coverage_determines(comp@, single);
            }
        }
        if comp.len() != 1 {
            return false;
        }
        let first = match comp.get_interval_by_index(0) {
            Ok(c) => *c,
            Err(_) => {
                proof {
                    assert(false);
                }
                return false;
            },
        };
        let matching = first.begin == chunk.begin && first.end == chunk.end;
        proof {
            if matching {
                assert forall|x: int| chunk_has(chunk, x) implies !seq_covers(self@, x) by {
                    assert(chunk_has(comp@[0], x));
                    assert(seq_covers(comp@, x));
                }
            }
        }
        matching
    }

    /// Hands out the interval standing at `idx`, counting from the front.
    pub fn get_interval_by_index(&self, idx: usize) -> (r: Result<&Chunk, ListError>)
        ensures
            idx < self@.len() ==> (r matches Ok(c) && *c == self@[idx as int]),
            idx >= self@.len() ==> (r matches Err(e) && e == ListError::IndexOutOfRange),
    {
        let mut current: &Option<Box<ChunkNode>> = &self.head;
        let mut cur_idx: usize = 0;
        while current.is_some()
            invariant
                cur_idx <= idx,
                node_seq(*current) =~= self@.skip(cur_idx as int),
                cur_idx <= self@.len(),
            decreases node_seq(*current).len(),
        {
            let node = current.as_ref().unwrap();
            proof {
                assert(node_seq(*current) == seq![node.chunk] + node_seq(node.next_chunk));
                assert(node_seq(*current)[0] == node.chunk);
                assert(node_seq(*current).skip(1) =~= node_seq(node.next_chunk));
                assert(self@.skip(cur_idx as int).skip(1) =~= self@.skip(cur_idx + 1));
            }
            if cur_idx == idx {
                return Ok(&node.chunk);
            }
            cur_idx = cur_idx + 1;
            current = &node.next_chunk;
        }
        Err(ListError::IndexOutOfRange)
    }

    /// Borrowing cursor over the intervals, front to back.
    pub fn iter(&self) -> (r: IntervalIterator)
        ensures
            r.remaining() == self@,
    {
        let current = match &self.head {
            Option::None => None,
            Option::Some(b) => Some(&**b),
        };
        IntervalIterator { current }
    }
}

impl PartialEq for IntervalList {
    fn eq(&self, other: &Self) -> (r: bool) {
        let mut c1: &Option<Box<ChunkNode>> = &self.head;
        let mut c2: &Option<Box<ChunkNode>> = &other.head;
        loop
            invariant
                (self@ == other@) <==> (node_seq(*c1) == node_seq(*c2)),
            decreases node_seq(*c1).len(),
        {
            match (c1.as_ref(), c2.as_ref()) {
                (Option::None, Option::None) => {
                    return true;
                },
                (Option::Some(n1), Option::Some(n2)) => {
                    let ghost s1 = node_seq(*c1);
                    let ghost s2 = node_seq(*c2);
                    proof {
                        assert(s1 == seq![n1.chunk] + node_seq(n1.next_chunk));
                        assert(s2 == seq![n2.chunk] + node_seq(n2.next_chunk));
                        assert(s1[0] == n1.chunk);
                        assert(s2[0] == n2.chunk);
                        assert(s1.skip(1) =~= node_seq(n1.next_chunk));
                        assert(s2.skip(1) =~= node_seq(n2.next_chunk));
                    }
                    if !(n1.chunk.begin == n2.chunk.begin && n1.chunk.end == n2.chunk.end) {
                        proof {
                            assert(s1[0] != s2[0]);
                            assert(s1 != s2);
                        }
                        return false;
                    }
                    proof {
                        if node_seq(n1.next_chunk) == node_seq(n2.next_chunk) {
                            assert(s1 =~= s2);
                        }
                        if s1 == s2 {
                            assert(node_seq(n1.next_chunk) =~= node_seq(n2.next_chunk));
                        }
                    }
                    c1 = &n1.next_chunk;
                    c2 = &n2.next_chunk;
                },
                _ => {
                    proof {
                        assert(node_seq(*c1).len() != node_seq(*c2).len());
                    }
                    return false;
                },
            }
        }
    }
}

impl vstd::std_specs::cmp::PartialEqSpecImpl for IntervalList {
    open spec fn obeys_eq_spec() -> bool {
        true
    }

    open spec fn eq_spec(&self, other: &Self) -> bool {
        self@ == other@
    }
}

/// Borrowed view into a list, handing out one interval at a time.
pub struct IntervalIterator<'a> {
    pub current: Option<&'a ChunkNode>,
}

impl<'a> IntervalIterator<'a> {
    /// The intervals not yet handed out.
    pub open spec fn remaining(&self) -> Seq<Chunk> {
        match self.current {
            Option::None => Seq::empty(),
            Option::Some(n) => seq![n.chunk] + node_seq(n.next_chunk),
        }
    }

    pub fn next(&mut self) -> (r: Option<&'a Chunk>)
        ensures
            old(self).remaining().len() == 0 ==> r is None && final(self).remaining()
                == old(self).remaining(),
            old(self).remaining().len() > 0 ==> (r matches Some(c) && *c == old(
                self,
            ).remaining()[0] && final(self).remaining() == old(self).remaining().skip(1)),
    {
        match self.current {
            Option::None => None,
            Option::Some(node) => {
                let ghost before = self.remaining();
                let chunk = &node.chunk;
                let next: Option<&'a ChunkNode> = match &node.next_chunk {
                    Option::None => None,
                    Option::Some(b) => Some(&**b),
                };
                self.current = next;
                proof {
                    assert(before == seq![node.chunk] + node_seq(node.next_chunk));
                    assert(before[0] == node.chunk);
                    assert(before.skip(1) =~= node_seq(node.next_chunk));
                    assert(self.remaining() =~= node_seq(node.next_chunk));
                }
                Some(chunk)
            },
        }
    }
}

} // verus!
