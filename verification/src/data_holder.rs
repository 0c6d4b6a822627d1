use vstd::prelude::*;

verus! {

/// Marker for the error type a data holder reports.
pub trait DataHolderError: Sized {

}

/// A request/response channel to the party that owns the payload: one
/// submission at a time, one reply per submission, replies in order.
///
/// `payload` is the byte content the holder serves; `pending` are the
/// replies produced but not yet handed out, each a fragment of the payload
/// together with the offset it starts at.
pub trait DataHolder: Sized {
    type E: DataHolderError;

    /// The bytes this holder serves.
    spec fn payload(&self) -> Seq<u8>;

    /// Replies not yet handed out: the fragment bytes and their start
    /// offset, oldest first.
    spec fn pending(&self) -> Seq<(Seq<u8>, int)>;

    spec fn inv(&self) -> bool;

    /// Submits a request for `[bounds.0, bounds.1)`. On success exactly one
    /// reply joins the queue: a non-empty prefix of the requested range,
    /// cut from the payload, starting at the requested begin.
    fn request(&mut self, bounds: (usize, usize)) -> (r: Result<(), Self::E>)
        requires
            old(self).inv(),
            bounds.0 < bounds.1 <= old(self).payload().len(),
        ensures
            final(self).inv(),
            final(self).payload() == old(self).payload(),
            r matches Ok(_) ==> exists|k: int|
                1 <= k <= bounds.1 - bounds.0 && final(self).pending() == old(self).pending().push(
                    (
                        #[trigger] old(self).payload().subrange(bounds.0 as int, bounds.0 + k),
                        bounds.0 as int,
                    ),
                ),
            r matches Err(_) ==> final(self).pending() == old(self).pending(),
    ;

    /// Hands out the most recent reply, if any: its bytes and the offset
    /// they start at. A holder that waits on an outside party may fail
    /// instead; one with no reply queued reports that there is none.
    fn get_response(&mut self) -> (r: Result<Option<(Vec<u8>, (usize, usize))>, Self::E>)
        requires
            old(self).inv(),
        ensures
            final(self).inv(),
            final(self).payload() == old(self).payload(),
            old(self).pending().len() == 0 ==> (r matches Ok(o) && o is None)
                && final(self).pending() == old(self).pending(),
            old(self).pending().len() > 0 ==> (r matches Err(_)
                && final(self).pending() == old(self).pending()) || (r matches Ok(o)
                && o matches Some(resp) && resp.0@ == old(self).pending().last().0
                && resp.1.0 as int == old(self).pending().last().1
                && final(self).pending() == old(self).pending().drop_last()),
    ;

    fn get_data_len(&self) -> (r: usize)
        requires
            self.inv(),
        ensures
            r == self.payload().len(),
    ;
}

} // verus!
