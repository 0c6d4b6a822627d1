use crate::chunk::{chunk_has, chunk_wf, Chunk};
use crate::coverage::{covers_all, seq_covers, seq_wf};
use crate::interval_list::IntervalList;
use vstd::prelude::*;

verus! {

#[derive(Clone, Copy, Debug, PartialEq, Eq, Structural)]
pub enum ManagerError {
    TheDataIsFilled,
}

/// A download manager: it owns the byte buffer being reassembled and the
/// list of already filled regions, decides which range to ask for next,
/// and folds in whatever fragment comes back.
pub trait Manager: Sized {
    /// The filled regions, as intervals of byte offsets.
    spec fn filled(&self) -> Seq<Chunk>;

    /// The bytes of the buffer being reassembled.
    spec fn data_at(&self) -> Seq<u8>;

    /// The total length the finished payload must have.
    spec fn total_len(&self) -> nat;

    /// The manager's own invariant; it implies the base facts below.
    spec fn inv(&self) -> bool;

    /// Which fragment bounds this manager is prepared to fold in, beyond
    /// the generic preconditions of `receive`.
    spec fn accepts(&self, a: int, b: int) -> bool;

    proof fn inv_facts(&self)
        requires
            self.inv(),
        ensures
            seq_wf(self.filled()),
            self.data_at().len() == self.total_len(),
            forall|i: int|
                0 <= i < self.filled().len() ==> (#[trigger] self.filled()[i]).end
                    <= self.total_len(),
            1 <= self.total_len() <= usize::MAX / 2,
    ;

    fn init(data_len: usize) -> (r: Self)
        requires
            1 <= data_len <= usize::MAX / 2,
        ensures
            r.inv(),
            r.filled() == Seq::<Chunk>::empty(),
            r.total_len() == data_len,
            r.data_at() == Seq::new(data_len as nat, |i: int| 0u8),
    ;

    fn get_filled_list(&self) -> (r: &IntervalList)
        ensures
            r@ == self.filled(),
    ;

    fn get_data(&self) -> (r: &Vec<u8>)
        ensures
            r@ == self.data_at(),
    ;

    fn move_data(self) -> (r: Vec<u8>)
        ensures
            r@ == self.data_at(),
    ;

    /// The buffer is complete: the filled list has collapsed to the single
    /// interval holding every byte.
    fn ready(&self) -> (r: bool)
        requires
            self.inv(),
        ensures
            r == (self.filled().len() == 1 && self.filled()[0].begin == 0 && self.filled()[0].end
                == self.total_len()),
    ;

    /// Chooses the next range to request. It fails exactly when the buffer
    /// is already complete; otherwise the one requested range is well
    /// formed, lies inside the payload, holds no byte obtained so far, and
    /// every non-empty prefix of it is acceptable to `receive`.
    fn request(&self) -> (r: Result<Vec<Chunk>, ManagerError>)
        requires
            self.inv(),
        ensures
            covers_all(self.filled(), self.total_len() as int) ==> r == Err::<
                Vec<Chunk>,
                ManagerError,
            >(ManagerError::TheDataIsFilled),
            !covers_all(self.filled(), self.total_len() as int) ==> (r matches Ok(v) && v@.len()
                == 1 && chunk_wf(v@[0]) && v@[0].end <= self.total_len() && (forall|x: int|
                chunk_has(v@[0], x) ==> !seq_covers(self.filled(), x)) && (forall|k: int|
                v@[0].begin < k <= v@[0].end ==> self.accepts(v@[0].begin as int, k))),
    ;

    /// Folds one received fragment into the buffer: the fragment's bytes
    /// land at their offsets, the filled regions grow by exactly the
    /// fragment's range, and the call signals `TheDataIsFilled` exactly
    /// when that range completes the payload.
    fn receive(&mut self, chunk: Vec<u8>, chunk_bounds: (usize, usize)) -> (r: Result<
        (),
        ManagerError,
    >)
        requires
            old(self).inv(),
            chunk_bounds.0 < chunk_bounds.1 <= old(self).total_len(),
            chunk@.len() == chunk_bounds.1 - chunk_bounds.0,
            forall|x: int|
                chunk_bounds.0 <= x < chunk_bounds.1 ==> !seq_covers(old(self).filled(), x),
            old(self).accepts(chunk_bounds.0 as int, chunk_bounds.1 as int),
        ensures
            final(self).inv(),
            final(self).total_len() == old(self).total_len(),
            final(self).data_at().len() == old(self).data_at().len(),
            forall|i: int|
                0 <= i < final(self).data_at().len() ==> #[trigger] final(self).data_at()[i] == (
                if chunk_bounds.0 <= i < chunk_bounds.1 {
                    chunk@[i - chunk_bounds.0]
                } else {
                    old(self).data_at()[i]
                }),
            forall|x: int|
                #[trigger] seq_covers(final(self).filled(), x) <==> (seq_covers(
                    old(self).filled(),
                    x,
                ) || chunk_bounds.0 <= x < chunk_bounds.1),
            r == Err::<(), ManagerError>(ManagerError::TheDataIsFilled) <==> covers_all(
                final(self).filled(),
                final(self).total_len() as int,
            ),
    ;
}

} // verus!
