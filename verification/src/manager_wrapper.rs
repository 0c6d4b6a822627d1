use crate::chunk::{chunk_has, Chunk};
use crate::coverage::{
    covered_len, covers_all, lemma_covered_len_after_disjoint_add, lemma_covered_len_bounds,
    seq_covers,
};
use crate::data_holder::DataHolder;
use crate::manager::{Manager, ManagerError};
use crate::server_simulator::{Server, ServerError};
use vstd::prelude::*;

verus! {

/// What can end a download run: the manager reporting on its own state,
/// or the data holder failing.
#[derive(Debug)]
pub enum ManagerWrapperError<E> {
    ManagerError(ManagerError),
    DataHolderError(E),
}

/// Glue between a manager and a data holder: it forwards the manager's
/// requests, folds replies back in, and drives the exchange until the
/// manager reports the payload complete.
pub trait ManagerWrapper<ManagerT: Manager>: Sized {
    type Data: DataHolder;

    spec fn manager(&self) -> ManagerT;

    spec fn holder(&self) -> Self::Data;

    /// The wrapper's invariant; it ties the manager's expected total
    /// length to the holder's payload and keeps the manager's buffer in
    /// step with the payload on every byte obtained so far.
    spec fn wf(&self) -> bool;

    fn get_data_holder(&self) -> (r: &Self::Data)
        ensures
            *r == self.holder(),
    ;

    fn get_manager(&self) -> (r: &ManagerT)
        ensures
            *r == self.manager(),
    ;

    /// Runs request/reply rounds until the manager reports completion; on
    /// success the manager's buffer holds exactly the holder's payload.
    fn send_request(&mut self) -> (r: Result<
        (),
        ManagerWrapperError<<Self::Data as DataHolder>::E>,
    >)
        requires
            old(self).wf(),
        ensures
            r matches Ok(_) ==> final(self).wf() && covers_all(
                final(self).manager().filled(),
                final(self).manager().total_len() as int,
            ) && final(self).manager().data_at() == final(self).holder().payload()
                && final(self).holder().payload() == old(self).holder().payload(),
    ;

    /// Folds one reply into the manager. It fails exactly when the reply
    /// completes the payload, reporting that as the manager's own signal.
    fn handle_response(&mut self, data: Vec<u8>, requested_bounds: (usize, usize)) -> (r: Result<
        (),
        ManagerWrapperError<<Self::Data as DataHolder>::E>,
    >)
        requires
            old(self).wf(),
            requested_bounds.0 < requested_bounds.1 <= old(self).manager().total_len(),
            data@.len() == requested_bounds.1 - requested_bounds.0,
            forall|x: int|
                requested_bounds.0 <= x < requested_bounds.1 ==> !seq_covers(
                    old(self).manager().filled(),
                    x,
                ),
            old(self).manager().accepts(
                requested_bounds.0 as int,
                requested_bounds.1 as int,
            ),
            data@ == old(self).holder().payload().subrange(
                requested_bounds.0 as int,
                requested_bounds.1 as int,
            ),
        ensures
            final(self).wf(),
            final(self).holder() == old(self).holder(),
            final(self).manager().total_len() == old(self).manager().total_len(),
            forall|x: int|
                #[trigger] seq_covers(final(self).manager().filled(), x) <==> (seq_covers(
                    old(self).manager().filled(),
                    x,
                ) || requested_bounds.0 <= x < requested_bounds.1),
            r matches Ok(_) ==> !covers_all(
                final(self).manager().filled(),
                final(self).manager().total_len() as int,
            ),
            r matches Err(e) ==> (e matches ManagerWrapperError::ManagerError(me) && me
                == ManagerError::TheDataIsFilled) && covers_all(
                final(self).manager().filled(),
                final(self).manager().total_len() as int,
            ),
    ;

    /// Runs the whole download and hands the assembled buffer out; on
    /// success it equals the holder's payload.
    fn start(self) -> (r: Result<Vec<u8>, ManagerWrapperError<<Self::Data as DataHolder>::E>>)
        requires
            self.wf(),
        ensures
            r matches Ok(v) ==> v@ == self.holder().payload(),
    ;
}

/// Drives a manager against the in-process server simulator.
pub struct TestManagerWrapper<ManagerT: Manager> {
    pub server: Server,
    pub mangaer: ManagerT,
}

impl<ManagerT: Manager> ManagerWrapper<ManagerT> for TestManagerWrapper<ManagerT> {
    type Data = Server;

    open spec fn manager(&self) -> ManagerT {
        self.mangaer
    }

    open spec fn holder(&self) -> Server {
        self.server
    }

    open spec fn wf(&self) -> bool {
        &&& self.mangaer.inv()
        &&& self.mangaer.total_len() == self.server.data@.len()
        &&& self.server.records_pending().len() == 0
        &&& forall|x: int|
            #[trigger] seq_covers(self.mangaer.filled(), x) ==> self.mangaer.data_at()[x]
                == self.server.data@[x]
    }

    fn get_data_holder(&self) -> (r: &Server) {
        &self.server
    }

    fn get_manager(&self) -> (r: &ManagerT) {
        &self.mangaer
    }

    fn send_request(&mut self) -> (r: Result<(), ManagerWrapperError<ServerError>>)
        ensures
            r is Ok,
    {
        loop
            invariant
                self.wf(),
                self.server.data@ == old(self).server.data@,
            decreases self.mangaer.total_len() as int - covered_len(self.mangaer.filled()),
        {
            proof {
                self.mangaer.inv_facts();
                lemma_covered_len_bounds(
                    self.mangaer.filled(),
                    self.mangaer.total_len() as int,
                );
            }
            let ghost n = self.mangaer.total_len() as int;
            let ghost measure0 = n - covered_len(self.mangaer.filled());
            let req = match self.mangaer.request() {
                Err(_) => {
                    proof {
                        assert(covers_all(self.mangaer.filled(), n));
                        assert forall|i: int|
                            0 <= i < self.mangaer.data_at().len() implies self.mangaer.data_at()[i]
                            == self.server.data@[i] by {
                            assert(seq_covers(self.mangaer.filled(), i));
                        }
                        assert(self.mangaer.data_at() =~= self.server.data@);
                    }
                    return Ok(());
                },
                Ok(chunks) => chunks,
            };
            let c = req[0];
            let ghost prev_filled = self.mangaer.filled();
            let ghost prev_pending = self.server.records_pending();
            match self.server.request((c.begin, c.end)) {
                Err(e) => {
                    proof {
                        assert(false);
                    }
                    return Err(ManagerWrapperError::DataHolderError(e));
                },
                Ok(()) => {},
            }
            let ghost mid_pending = self.server.records_pending();
            let ghost payload = self.server.data@;
            let resp = match self.server.get_response() {
                Err(e) => {
                    proof {
                        assert(false);
                    }
                    return Err(ManagerWrapperError::DataHolderError(e));
                },
                Ok(o) => o,
            };
            let (data, bounds) = match resp {
                Option::None => {
                    proof {
                        assert(false);
                    }
                    return Ok(());
                },
                Option::Some(p) => p,
            };
            let dlen = data.len();
            proof {
                let k = choose|k: int|
                    1 <= k <= c.end - c.begin && mid_pending == prev_pending.push(
                        (
                            #[trigger] payload.subrange(c.begin as int, c.begin + k),
                            c.begin as int,
                        ),
                    );
                assert(mid_pending.last() == (
                    payload.subrange(c.begin as int, c.begin + k),
                    c.begin as int,
                ));
                assert(data@ == payload.subrange(c.begin as int, c.begin + k));
                assert(dlen == k);
                assert(bounds.0 == c.begin);
            }
            let b2 = bounds.0 + dlen;
            let ghost a = bounds.0 as int;
            proof {
                assert(c.begin < b2 <= c.end);
                assert forall|x: int| a <= x < b2 implies !seq_covers(prev_filled, x) by {
                    assert(chunk_has(c, x));
                }
                assert(data@ == self.server.data@.subrange(a, b2 as int));
            }
            match self.handle_response(data, (bounds.0, b2)) {
                Ok(()) => {
                    proof {
                        self.mangaer.inv_facts();
                        lemma_covered_len_after_disjoint_add(
                            prev_filled,
                            self.mangaer.filled(),
                            a,
                            b2 as int,
                        );
                        assert(covered_len(self.mangaer.filled()) == covered_len(prev_filled) + (
                        b2 - a));
                        assert(self.mangaer.total_len() as int == n);
                        lemma_covered_len_bounds(self.mangaer.filled(), n);
                        assert(0 <= n - covered_len(self.mangaer.filled()) < measure0);
                    }
                },
                Err(_) => {
                    proof {
                        self.mangaer.inv_facts();
                        assert forall|i: int|
                            0 <= i < self.mangaer.data_at().len() implies self.mangaer.data_at()[i]
                            == self.server.data@[i] by {
                            assert(seq_covers(self.mangaer.filled(), i));
                        }
                        assert(self.mangaer.data_at() =~= self.server.data@);
                    }
                    return Ok(());
                },
            }
        }
    }

    fn handle_response(&mut self, data: Vec<u8>, requested_bounds: (usize, usize)) -> (r: Result<
        (),
        ManagerWrapperError<ServerError>,
    >) {
        let ghost old_filled = self.mangaer.filled();
        let ghost old_data = self.mangaer.data_at();
        let ghost payload = self.server.data@;
        let ghost a = requested_bounds.0 as int;
        let ghost b = requested_bounds.1 as int;
        proof {
            self.mangaer.inv_facts();
        }
        let outcome = self.mangaer.receive(data, requested_bounds);
        proof {
            assert forall|x: int| #[trigger] seq_covers(self.mangaer.filled(), x) implies self
                .mangaer.data_at()[x] == self.server.data@[x] by {
                self.mangaer.inv_facts();
                if a <= x < b {
                    assert(self.mangaer.data_at()[x] == data@[x - a]);
                    assert(data@[x - a] == payload.subrange(a, b)[x - a]);
                } else {
                    assert(seq_covers(old_filled, x));
                    assert(self.mangaer.data_at()[x] == old_data[x]);
                }
            }
        }
        match outcome {
            Ok(()) => Ok(()),
            Err(e) => Err(ManagerWrapperError::ManagerError(e)),
        }
    }

    fn start(self) -> (r: Result<Vec<u8>, ManagerWrapperError<ServerError>>)
        ensures
            r is Ok,
    {
        let mut this = self;
        match this.send_request() {
            Ok(()) => Ok(this.mangaer.move_data()),
            Err(e) => Err(e),
        }
    }
}

} // verus!
