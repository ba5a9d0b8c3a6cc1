//! The result channel bridge: a one-shot-per-dispatch, multiple-producer,
//! single-consumer handoff that carries tagged results from the asynchronous
//! dispatcher back to a synchronous caller. The consumer polls with a
//! non-blocking receive; messages arrive in completion order, and each
//! dispatched operation enqueues exactly one.

use vstd::prelude::*;
use crate::api::{ResponseData, ResponseDataView};

verus! {

/// The queue behind the bridge: its value is the sequence of pending tagged
/// results, oldest first.
pub struct ResultQueue {
    items: Vec<ResponseData>,
}

impl View for ResultQueue {
    type V = Seq<ResponseDataView>;

    closed spec fn view(&self) -> Seq<ResponseDataView> {
        self.items@.map_values(|m: ResponseData| m@)
    }
}

impl ResultQueue {
    /// A fresh, empty channel.
    pub fn new() -> (r: Self)
        ensures
            r@ == Seq::<ResponseDataView>::empty(),
    {
        let r = ResultQueue { items: Vec::new() };
        proof {
            assert(r@ =~= Seq::<ResponseDataView>::empty());
        }
        r
    }

    /// How many results wait to be received.
    pub fn len(&self) -> (n: usize)
        ensures
            n == self@.len(),
    {
        self.items.len()
    }

    /// Delivers one tagged result: appends it, losing nothing that waits.
    pub fn send(&mut self, msg: ResponseData)
        ensures
            final(self)@ == old(self)@.push(msg@),
    {
        let ghost before: Seq<ResponseData> = self.items@;
        self.items.push(msg);
        proof {
            assert(self@ =~= before.map_values(|m: ResponseData| m@).push(msg@));
        }
    }

    /// Non-blocking receive: the oldest pending result, or nothing — the
    /// caller is never stalled.
    pub fn try_recv(&mut self) -> (r: Option<ResponseData>)
        ensures
            old(self)@.len() == 0 ==> r is None && final(self)@ == old(self)@,
            old(self)@.len() > 0 ==> (r matches Some(m) && m@ == old(self)@[0] && final(self)@
                == old(self)@.skip(1)),
    {
        if self.items.len() == 0 {
            None
        } else {
            let ghost before: Seq<ResponseData> = self.items@;
            let m = self.items.remove(0);
            proof {
                assert(self@ =~= before.map_values(|x: ResponseData| x@).skip(1));
            }
            Some(m)
        }
    }
}

} // verus!
