//! The bookkeeping of a renderer worker: it takes one request at a time
//! from the shared queue, remembers the position it is for while the
//! renderer works, and sends exactly one response for it.
//!
//! The renderer itself is not part of the library. The thread that owns a
//! worker calls [`Worker::wait`], renders what it got, and hands the result
//! to [`Worker::respond`].
use async_channel::{Receiver, Sender};
use vstd::prelude::*;
use crate::comm::{Request, Response};

verus! {

/// The ends of the two queues that workers hold.
pub struct WorkerPort {
    pub reqch: Receiver<Option<Request>>,
    pub respch: Sender<Response>,
}

/// A worker's side of the protocol.
pub struct Worker {
    reqch: Receiver<Option<Request>>,
    respch: Sender<Response>,
    ploc: Option<usize>,
}

impl Worker {
    /// The position of the request that was taken and not answered yet.
    pub closed spec fn pending(&self) -> Option<usize> {
        self.ploc
    }

    /// The ends of the queues that the worker takes its requests from and
    /// sends its responses to.
    pub closed spec fn queues(&self) -> WorkerPort {
        WorkerPort { reqch: self.reqch, respch: self.respch }
    }

    /// A worker on the given queues, with no request taken.
    pub fn new(port: WorkerPort) -> (worker: Worker)
        ensures
            worker.queues() == port,
            worker.pending() is None,
    {
        Worker { reqch: port.reqch, respch: port.respch, ploc: None }
    }

    /// Takes note of what came from the request queue: the position of a
    /// request becomes the pending one; a shutdown signal changes nothing.
    pub fn note(&mut self, msg: Option<Request>) -> (next: Option<Request>)
        ensures
            next == msg,
            final(self).pending() == (match msg {
                Some(req) => Some(req.loc),
                None => old(self).pending(),
            }),
            final(self).queues() == old(self).queues(),
    {
        match msg {
            Some(req) => {
                self.ploc = Some(req.loc);
                Some(req)
            },
            None => None,
        }
    }

    /// Waits for the next request. `Ok(None)` is the signal to shut down.
    pub fn wait(&mut self) -> (r: Result<Option<Request>, &'static str>)
        ensures
            match r {
                Ok(Some(req)) => final(self).pending() == Some(req.loc),
                Ok(None) => final(self).pending() == old(self).pending(),
                Err(e) => e@ == "recv channel closed"@ && final(self).pending() == old(
                    self,
                ).pending(),
            },
            final(self).queues() == old(self).queues(),
    {
        match self.reqch.recv_blocking() {
            Ok(msg) => Ok(self.note(msg)),
            Err(_) => Err("recv channel closed"),
        }
    }

    /// The response for what the renderer made of the pending request. The
    /// position is given up with it, so that it is answered once.
    pub fn answer(&mut self, omml: Result<String, String>) -> (r: Result<Response, &'static str>)
        ensures
            final(self).pending() is None,
            final(self).queues() == old(self).queues(),
            match old(self).pending() {
                Some(loc) => r == Ok::<Response, &'static str>(Response { loc, omml }),
                None => r matches Err(e) && e@ == "no loc"@,
            },
    {
        match self.ploc.take() {
            Some(loc) => Ok(Response { loc, omml }),
            None => Err("no loc"),
        }
    }

    /// Sends the response for the pending request.
    pub fn respond(&mut self, omml: Result<String, String>) -> (r: Result<(), &'static str>)
        ensures
            final(self).pending() is None,
            final(self).queues() == old(self).queues(),
            old(self).pending() is None ==> (r matches Err(e) && e@ == "no loc"@),
            r matches Err(e) ==> (old(self).pending() is None && e@ == "no loc"@) || (old(
                self,
            ).pending() is Some && e@ == "send channel closed"@),
    {
        match self.answer(omml) {
            Ok(response) => match self.respch.send_blocking(response) {
                Ok(_) => Ok(()),
                Err(_) => Err("send channel closed"),
            },
            Err(e) => Err(e),
        }
    }
}

} // verus!
