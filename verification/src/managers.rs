use crate::chunk::{chunk_has, chunk_wf, Chunk};
use crate::coverage::{
    covers_all, lemma_coverage_determines, lemma_ends_bounded, lemma_first_point, lemma_full_shape,
    lemma_wf_order, seq_covers, seq_wf,
};
use crate::entropy::random_usize_in;
use crate::interval_list::IntervalList;
use crate::manager::{Manager, ManagerError};
use vstd::prelude::*;
use vstd::pervasive::VecAdditionalExecFns;

verus! {

/// A buffer of zeroes of the given length.
fn zero_vec(len: usize) -> (r: Vec<u8>)
    ensures
        r@ == Seq::new(len as nat, |i: int| 0u8),
{
    let mut data: Vec<u8> = Vec::new();
    let mut idx: usize = 0;
    while idx < len
        invariant
            0 <= idx <= len,
            data@ =~= Seq::new(idx as nat, |i: int| 0u8),
        decreases len - idx,
    {
        data.push(0);
        proof {
            assert(data@ =~= Seq::new((idx + 1) as nat, |i: int| 0u8));
        }
        idx = idx + 1;
    }
    proof {
        assert(data@ =~= Seq::new(len as nat, |i: int| 0u8));
    }
    data
}

/// Copies a fragment into the buffer at the given offset, leaving every
/// other byte alone.
fn write_fragment(data: &mut Vec<u8>, chunk: &Vec<u8>, a: usize)
    requires
        a + chunk@.len() <= old(data)@.len(),
    ensures
        final(data)@.len() == old(data)@.len(),
        forall|i: int|
            0 <= i < final(data)@.len() ==> #[trigger] final(data)@[i] == (if a <= i < a
                + chunk@.len() {
                chunk@[i - a]
            } else {
                old(data)@[i]
            }),
{
    let dlen = data.len();
    let mut k: usize = 0;
    while k < chunk.len()
        invariant
            0 <= k <= chunk@.len(),
            a + chunk@.len() <= dlen,
            data@.len() == dlen,
            data@.len() == old(data)@.len(),
            forall|i: int|
                0 <= i < data@.len() ==> #[trigger] data@[i] == (if a <= i < a + k {
                    chunk@[i - a]
                } else {
                    old(data)@[i]
                }),
        decreases chunk@.len() - k,
    {
        data.set(a + k, chunk[k]);
        k = k + 1;
    }
}

/// The sequential manager: it asks for everything from the end of the one
/// filled prefix to the end of the payload, so its filled list always is a
/// single interval anchored at zero, or empty.
pub struct BasicManager {
    pub filled_list: IntervalList,
    pub data: Vec<u8>,
}

impl BasicManager {
    pub fn new(data_len: usize) -> (r: Self)
        requires
            1 <= data_len <= usize::MAX / 2,
        ensures
            r.inv(),
            r.filled() == Seq::<Chunk>::empty(),
            r.total_len() == data_len,
            r.data_at() == Seq::new(data_len as nat, |i: int| 0u8),
    {
        Self { data: zero_vec(data_len), filled_list: IntervalList::new() }
    }
}

impl Manager for BasicManager {
    open spec fn filled(&self) -> Seq<Chunk> {
        self.filled_list@
    }

    open spec fn data_at(&self) -> Seq<u8> {
        self.data@
    }

    open spec fn total_len(&self) -> nat {
        self.data@.len()
    }

    open spec fn inv(&self) -> bool {
        &&& seq_wf(self.filled_list@)
        &&& 1 <= self.data@.len() <= usize::MAX / 2
        &&& forall|i: int|
            0 <= i < self.filled_list@.len() ==> (#[trigger] self.filled_list@[i]).end
                <= self.data@.len()
        &&& self.filled_list@.len() <= 1
        &&& self.filled_list@.len() == 1 ==> self.filled_list@[0].begin == 0
    }

    open spec fn accepts(&self, a: int, b: int) -> bool {
        if self.filled_list@.len() == 0 {
            a == 0
        } else {
            a == self.filled_list@[0].end
        }
    }

    proof fn inv_facts(&self) {
    }

    fn init(data_len: usize) -> (r: Self) {
        BasicManager::new(data_len)
    }

    fn get_filled_list(&self) -> (r: &IntervalList) {
        &self.filled_list
    }

    fn get_data(&self) -> (r: &Vec<u8>) {
        &self.data
    }

    fn move_data(self) -> (r: Vec<u8>) {
        self.data
    }

    fn ready(&self) -> (r: bool) {
        match &self.filled_list.head {
            Option::None => false,
            Option::Some(node) => {
                proof {
                    assert(self.filled_list@ == seq![node.chunk] + crate::chunk_node::node_seq(
                        node.next_chunk,
                    ));
                    assert(self.filled_list@[0] == node.chunk);
                }
                node.chunk.begin == 0 && node.chunk.end == self.data.len()
            },
        }
    }

    fn request(&self) -> (r: Result<Vec<Chunk>, ManagerError>)
        ensures
            r matches Ok(v) ==> v@[0].end == self.total_len(),
    {
        let ghost n = self.data@.len() as int;
        if !self.ready() {
            proof {
                if covers_all(self.filled(), n) {
                    lemma_full_shape(self.filled(), n);
                }
            }
            let data_len = self.data.len();
            let chunk = match &self.filled_list.head {
                Option::Some(first_node) => {
                    proof {
                        assert(self.filled_list@ == seq![first_node.chunk]
                            + crate::chunk_node::node_seq(first_node.next_chunk));
                        assert(self.filled_list@[0] == first_node.chunk);
                    }
                    Chunk { begin: first_node.chunk.end, end: data_len }
                },
                Option::None => Chunk { begin: 0, end: data_len },
            };
            proof {
                assert forall|x: int| chunk_has(chunk, x) implies !seq_covers(
                    self.filled(),
                    x,
                ) by {
                    if seq_covers(self.filled(), x) {
                        let i = choose|i: int|
                            0 <= i < self.filled().len() && chunk_has(#[trigger] self.filled()[i], x);
                        assert(i == 0);
                    }
                }
            }
            let mut v: Vec<Chunk> = Vec::new();
            v.push(chunk);
            Ok(v)
        } else {
            proof {
                assert forall|x: int| 0 <= x < n implies seq_covers(self.filled(), x) by {
                    assert(chunk_has(self.filled()[0], x));
                }
            }
            Err(ManagerError::TheDataIsFilled)
        }
    }

    #[verifier::rlimit(80)]
    fn receive(&mut self, chunk: Vec<u8>, chunk_bounds: (usize, usize)) -> (r: Result<
        (),
        ManagerError,
    >) {
        let a = chunk_bounds.0;
        let b = chunk_bounds.1;
        let ghost old_filled = self.filled_list@;
        write_fragment(&mut self.data, &chunk, a);
        match self.filled_list.add_chunk(Chunk { begin: a, end: b }) {
            Ok(()) => {},
            Err(_) => {
                proof {
                    assert(false);
                }
                return Err(ManagerError::TheDataIsFilled);
            },
        }
        proof {
            let full = seq![Chunk { begin: 0, end: b }];
            assert(seq_wf(full)) by {
                assert(chunk_wf(full[0]));
            }
            assert forall|x: int| #[trigger] seq_covers(self.filled_list@, x) <==> #[trigger]
            seq_covers(full, x) by {
                if seq_covers(old_filled, x) {
                    let i = choose|i: int|
                        0 <= i < old_filled.len() && chunk_has(#[trigger] old_filled[i], x);
                    assert(i == 0);
                    assert(0 <= x < a);
                }
                if 0 <= x < b {
                    if x < a {
                        assert(chunk_has(old_filled[0], x));
                        assert(seq_covers(old_filled, x));
                    }
                }
                if seq_covers(full, x) {
                    let i = choose|i: int| 0 <= i < full.len() && chunk_has(#[trigger] full[i], x);
                    assert(0 <= x < b);
                } else {
                    assert(!chunk_has(full[0], x));
                }
            }
            lemma_coverage_determines(self.filled_list@, full);
            assert(self.filled_list@ == full);
        }
        if b == self.data.len() {
            proof {
                assert forall|x: int| 0 <= x < self.total_len() as int implies seq_covers(
                    self.filled(),
                    x,
                ) by {
                    assert(chunk_has(self.filled()[0], x));
                }
            }
            Err(ManagerError::TheDataIsFilled)
        } else {
            proof {
                assert(!seq_covers(self.filled(), b as int)) by {
                    if seq_covers(self.filled(), b as int) {
                        let i = choose|i: int|
                            0 <= i < self.filled().len() && chunk_has(
                                #[trigger] self.filled()[i],
                                b as int,
                            );
                        assert(i == 0);
                    }
                }
            }
            Ok(())
        }
    }
}

/// `[p, q)` is a maximal run of uncovered points inside `[0, n)`: nothing
/// in it is covered, and it can grow in neither direction.
pub open spec fn maximal_free_gap(filled: Seq<Chunk>, n: int, p: int, q: int) -> bool {
    &&& 0 <= p < q <= n
    &&& forall|x: int| p <= x < q ==> !seq_covers(filled, x)
    &&& (p == 0 || seq_covers(filled, p - 1))
    &&& (q == n || seq_covers(filled, q))
}

/// The random manager: it asks for a random stretch of a randomly chosen
/// uncovered gap, never less than `min_interval_len` bytes into the gap.
pub struct RandomManager {
    pub filled_list: IntervalList,
    pub data: Vec<u8>,
    pub min_interval_len: usize,
}

impl RandomManager {
    pub fn new(data_len: usize, min_interval_len: usize) -> (r: Self)
        requires
            1 <= data_len <= usize::MAX / 2,
            min_interval_len <= data_len,
        ensures
            r.inv(),
            r.filled() == Seq::<Chunk>::empty(),
            r.total_len() == data_len,
            r.data_at() == Seq::new(data_len as nat, |i: int| 0u8),
            r.min_interval_len == min_interval_len,
    {
        Self {
            data: zero_vec(data_len),
            filled_list: IntervalList::new(),
            min_interval_len,
        }
    }
}

impl Manager for RandomManager {
    open spec fn filled(&self) -> Seq<Chunk> {
        self.filled_list@
    }

    open spec fn data_at(&self) -> Seq<u8> {
        self.data@
    }

    open spec fn total_len(&self) -> nat {
        self.data@.len()
    }

    open spec fn inv(&self) -> bool {
        &&& seq_wf(self.filled_list@)
        &&& 1 <= self.data@.len() <= usize::MAX / 2
        &&& forall|i: int|
            0 <= i < self.filled_list@.len() ==> (#[trigger] self.filled_list@[i]).end
                <= self.data@.len()
        &&& self.min_interval_len <= self.data@.len()
    }

    open spec fn accepts(&self, a: int, b: int) -> bool {
        true
    }

    proof fn inv_facts(&self) {
    }

    fn init(data_len: usize) -> (r: Self) {
        RandomManager::new(data_len, data_len / 16)
    }

    fn get_filled_list(&self) -> (r: &IntervalList) {
        &self.filled_list
    }

    fn get_data(&self) -> (r: &Vec<u8>) {
        &self.data
    }

    fn move_data(self) -> (r: Vec<u8>) {
        self.data
    }

    fn ready(&self) -> (r: bool) {
        match &self.filled_list.head {
            Option::None => false,
            Option::Some(node) => {
                proof {
                    assert(self.filled_list@ == seq![node.chunk] + crate::chunk_node::node_seq(
                        node.next_chunk,
                    ));
                    assert(self.filled_list@[0] == node.chunk);
                }
                let is_full = node.chunk.begin == 0 && node.chunk.end == self.data.len();
                proof {
                    if is_full && self.filled_list@.len() >= 2 {
                        assert(self.filled_list@[0].end < self.filled_list@[1].begin);
                        assert(chunk_wf(self.filled_list@[1]));
                        assert(self.filled_list@[1].end <= self.data@.len());
                        assert(false);
                    }
                }
                is_full
            },
        }
    }

    #[verifier::rlimit(80)]
    fn request(&self) -> (r: Result<Vec<Chunk>, ManagerError>)
        ensures
            r matches Ok(v) ==> exists|p: int, q: int|
                #[trigger] maximal_free_gap(self.filled(), self.total_len() as int, p, q) && (
                if p + self.min_interval_len >= q {
                    v@[0].begin == p && v@[0].end == q
                } else {
                    v@[0].begin == p + self.min_interval_len && p + self.min_interval_len
                        < v@[0].end <= q
                }),
    {
        let ghost n = self.data@.len() as int;
        if !self.ready() {
            proof {
                if covers_all(self.filled(), n) {
                    lemma_full_shape(self.filled(), n);
                }
            }
            let data_len = self.data.len();
            let free = match self.filled_list.get_complement_intervals(
                Chunk { begin: 0, end: data_len },
            ) {
                Ok(l) => l,
                Err(_) => {
                    proof {
                        assert(false);
                    }
                    return Err(ManagerError::TheDataIsFilled);
                },
            };
            proof {
                let x = choose|x: int| 0 <= x < n && !seq_covers(self.filled(), x);
                assert(chunk_has(Chunk { begin: 0, end: data_len }, x));
                assert(seq_covers(free@, x));
                lemma_ends_bounded(free@, n);
            }
            let free_amount = free.len();
            let idx = random_usize_in(0, free_amount);
            let interval = match free.get_interval_by_index(idx) {
                Ok(c) => c,
                Err(_) => {
                    proof {
                        assert(false);
                    }
                    return Err(ManagerError::TheDataIsFilled);
                },
            };
            proof {
                assert(chunk_wf(free@[idx as int]));
                assert(free@[idx as int].end <= n);
            }
            let left_bound = interval.begin + self.min_interval_len;
            let request_chunk = if left_bound >= interval.end {
                *interval
            } else {
                let right_bound = random_usize_in(left_bound + 1, interval.end + 1);
                Chunk { begin: left_bound, end: right_bound }
            };
            proof {
                let p = free@[idx as int].begin as int;
                let q = free@[idx as int].end as int;
                assert forall|x: int| p <= x < q implies !seq_covers(self.filled(), x) by {
                    assert(chunk_has(free@[idx as int], x));
                    assert(seq_covers(free@, x));
                }
                if p > 0 {
                    assert(!seq_covers(free@, p - 1)) by {
                        if seq_covers(free@, p - 1) {
                            let j = choose|j: int|
                                0 <= j < free@.len() && chunk_has(#[trigger] free@[j], p - 1);
                            if j < idx {
                                lemma_wf_order(free@, j, idx as int);
                            }
                            if j > idx {
                                lemma_wf_order(free@, idx as int, j);
                            }
                        }
                    }
                    assert(chunk_has(Chunk { begin: 0, end: data_len }, p - 1));
                    assert(seq_covers(self.filled(), p - 1));
                }
                if q < n {
                    assert(!seq_covers(free@, q)) by {
                        if seq_covers(free@, q) {
                            let j = choose|j: int|
                                0 <= j < free@.len() && chunk_has(#[trigger] free@[j], q);
                            if j < idx {
                                lemma_wf_order(free@, j, idx as int);
                            }
                            if j > idx {
                                lemma_wf_order(free@, idx as int, j);
                            }
                        }
                    }
                    assert(chunk_has(Chunk { begin: 0, end: data_len }, q));
                    assert(seq_covers(self.filled(), q));
                }
                assert(maximal_free_gap(self.filled(), n, p, q));
            }
            let mut v: Vec<Chunk> = Vec::new();
            v.push(request_chunk);
            Ok(v)
        } else {
            proof {
                assert forall|x: int| 0 <= x < n implies seq_covers(self.filled(), x) by {
                    assert(chunk_has(self.filled()[0], x));
                }
            }
            Err(ManagerError::TheDataIsFilled)
        }
    }

    fn receive(&mut self, chunk: Vec<u8>, chunk_bounds: (usize, usize)) -> (r: Result<
        (),
        ManagerError,
    >) {
        let a = chunk_bounds.0;
        let b = chunk_bounds.1;
        let ghost old_filled = self.filled_list@;
        let ghost n = self.data@.len() as int;
        write_fragment(&mut self.data, &chunk, a);
        match self.filled_list.add_chunk(Chunk { begin: a, end: b }) {
            Ok(()) => {},
            Err(_) => {
                proof {
                    assert(false);
                }
                return Err(ManagerError::TheDataIsFilled);
            },
        }
        proof {
            assert forall|x: int| seq_covers(self.filled_list@, x) implies x < n by {
                if seq_covers(old_filled, x) {
                    let i = choose|i: int|
                        0 <= i < old_filled.len() && chunk_has(#[trigger] old_filled[i], x);
                }
            }
            lemma_ends_bounded(self.filled_list@, n);
        }
        let data_len = self.data.len();
        let free = match self.filled_list.get_complement_intervals(
            Chunk { begin: 0, end: data_len },
        ) {
            Ok(l) => l,
            Err(_) => {
                proof {
                    assert(false);
                }
                return Err(ManagerError::TheDataIsFilled);
            },
        };
        if free.len() == 0 {
            proof {
                assert forall|x: int| 0 <= x < n implies seq_covers(self.filled_list@, x) by {
                    if !seq_covers(self.filled_list@, x) {
                        assert(chunk_has(Chunk { begin: 0, end: data_len }, x));
                        assert(seq_covers(free@, x));
                    }
                }
            }
            Err(ManagerError::TheDataIsFilled)
        } else {
            proof {
                lemma_first_point(free@);
                let p = free@[0].begin as int;
                assert(seq_covers(free@, p));
                assert(!seq_covers(self.filled_list@, p));
            }
            Ok(())
        }
    }
}

} // verus!
