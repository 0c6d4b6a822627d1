use crate::data_holder::{DataHolder, DataHolderError};
use crate::entropy::{random_byte, random_bytes, random_usize_in};
use vstd::prelude::*;

verus! {

#[derive(Clone, Copy, Debug)]
pub enum ServerError {
    OutOfBounds(usize, usize, usize),
}

impl DataHolderError for ServerError {

}

/// An in-process stand-in for the remote side: it owns a payload of random
/// bytes and answers each range request with a random non-empty prefix of
/// the asked-for range, queueing the reply.
#[derive(Clone, Debug)]
pub struct Server {
    pub data: Vec<u8>,
    pub records: Vec<(Vec<u8>, (usize, usize))>,
}

impl Server {
    /// The queued replies as fragments with their start offsets.
    pub open spec fn records_pending(&self) -> Seq<(Seq<u8>, int)> {
        self.records@.map_values(|r: (Vec<u8>, (usize, usize))| (r.0@, r.1.0 as int))
    }

    /// A payload of random bytes of random length.
    pub fn new() -> (r: Self)
        ensures
            r.records@.len() == 0,
    {
        let len = random_byte();
        Self::init(len)
    }

    /// A payload of random bytes of the given length.
    pub fn init(len: u8) -> (r: Self)
        ensures
            r.data@.len() == len,
            r.records@.len() == 0,
    {
        Self { data: random_bytes(len as usize), records: Vec::new() }
    }

    /// A payload of random bytes of random length, at least `lb` long.
    pub fn init_with_lower_bound(lb: u8) -> (r: Self)
        ensures
            lb <= r.data@.len() <= 255,
            r.records@.len() == 0,
    {
        let drawn = random_byte();
        let len = if drawn < lb {
            lb
        } else {
            drawn
        };
        Self::init(len)
    }

    pub fn get_len(&self) -> (r: usize)
        ensures
            r == self.data@.len(),
    {
        self.data.len()
    }

    /// A random non-empty prefix of the requested range, cut from the
    /// payload; a range reaching past the payload is rejected.
    pub fn get_data_from_range(&self, bounds: (usize, usize)) -> (r: Result<Vec<u8>, ServerError>)
        requires
            bounds.0 < bounds.1,
        ensures
            bounds.1 <= self.data@.len() ==> (r matches Ok(v) && exists|k: int|
                1 <= k <= bounds.1 - bounds.0 && v@ == #[trigger] self.data@.subrange(
                    bounds.0 as int,
                    bounds.0 + k,
                )),
            bounds.1 > self.data@.len() ==> r == Err::<Vec<u8>, ServerError>(
                ServerError::OutOfBounds(bounds.0, bounds.1, self.data@.len() as usize),
            ),
    {
        let len = self.data.len();
        if bounds.1 > len {
            return Err(ServerError::OutOfBounds(bounds.0, bounds.1, len));
        }
        let drawn = random_usize_in(0, bounds.1 - bounds.0);
        let right_bound = bounds.0 + drawn;
        let cut_end = if right_bound == bounds.0 {
            bounds.0 + 1
        } else {
            right_bound
        };
        let mut v: Vec<u8> = Vec::new();
        let mut idx: usize = bounds.0;
        while idx < cut_end
            invariant
                bounds.0 <= idx <= cut_end,
                bounds.0 < cut_end <= bounds.1 <= self.data@.len(),
                v@ =~= self.data@.subrange(bounds.0 as int, idx as int),
            decreases cut_end - idx,
        {
            v.push(self.data[idx]);
            proof {
                assert(v@ =~= self.data@.subrange(bounds.0 as int, idx + 1));
            }
            idx = idx + 1;
        }
        proof {
            let k = cut_end - bounds.0;
            assert(1 <= k <= bounds.1 - bounds.0);
            assert(v@ == self.data@.subrange(bounds.0 as int, bounds.0 + k));
        }
        Ok(v)
    }
}

impl DataHolder for Server {
    type E = ServerError;

    open spec fn payload(&self) -> Seq<u8> {
        self.data@
    }

    open spec fn pending(&self) -> Seq<(Seq<u8>, int)> {
        self.records_pending()
    }

    open spec fn inv(&self) -> bool {
        true
    }

    fn request(&mut self, bounds: (usize, usize)) -> (r: Result<(), ServerError>)
        ensures
            r is Ok,
    {
        let response = match self.get_data_from_range(bounds) {
            Ok(v) => v,
            Err(e) => {
                proof {
                    assert(false);
                }
                return Err(e);
            },
        };
        let ghost before = self.records_pending();
        let ghost resp_seq = response@;
        self.records.push((response, (bounds.0, bounds.1)));
        proof {
            assert(self.records_pending() =~= before.push((resp_seq, bounds.0 as int)));
        }
        Ok(())
    }

    fn get_response(&mut self) -> (r: Result<Option<(Vec<u8>, (usize, usize))>, ServerError>)
        ensures
            r is Ok,
    {
        let ghost before = self.records_pending();
        match self.records.pop() {
            Option::None => {
                proof {
                    assert(before.len() == 0);
                }
                Ok(None)
            },
            Option::Some(record) => {
                proof {
                    assert(before.len() == self.records_pending().len() + 1);
                    assert(self.records_pending() =~= before.drop_last());
                    assert(before.last() == (record.0@, record.1.0 as int));
                }
                Ok(Some(record))
            },
        }
    }

    fn get_data_len(&self) -> (r: usize) {
        self.data.len()
    }
}

} // verus!
