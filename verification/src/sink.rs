//! The response-sink capability: the interface through which the router hands
//! payloads back to a session's client.

use vstd::prelude::*;

use crate::error::ServerError;

verus! {

/// The capability a caller supplies at session creation; the router invokes
/// it once for each payload addressed to that session.
///
/// `calls()` is the sink's own record of every payload it has been handed, in
/// order, whether or not it accepted the delivery. Every implementation must
/// extend that record by exactly the payload of each invocation; the router's
/// delivery contracts are stated over it. A sink must be safe to invoke
/// repeatedly; a failure aborts the batch being delivered, and the error is
/// handed to the caller of the operation unchanged.
pub trait SessionHandler: Sized {
    /// The payloads this sink has been invoked with so far, in order.
    spec fn calls(&self) -> Seq<Seq<u8>>;

    /// The outcome this sink reported for each invocation, in the same order
    /// as `calls()`.
    spec fn results(&self) -> Seq<Result<(), ServerError>>;

    /// Attempt to deliver one payload to the session's client; report success
    /// or failure.
    fn send_response(&mut self, msg: &[u8]) -> (r: Result<(), ServerError>)
        ensures
            final(self).calls() == old(self).calls().push(msg@),
            final(self).results() == old(self).results().push(r),
    ;
}

/// A sink that keeps every payload it is handed in memory, and can be told to
/// refuse deliveries from a fixed call count on. Callers that want the
/// payloads on some outbound channel implement [`SessionHandler`] themselves;
/// this one serves in-process consumers and exercises the fail-fast rule.
pub struct BufferSink {
    received: Vec<Vec<u8>>,
    refuse_from: Option<usize>,
    refusal_code: u64,
}

impl BufferSink {
    /// The call count from which this sink refuses deliveries, if any.
    pub closed spec fn refuse_limit(&self) -> Option<usize> {
        self.refuse_from
    }

    /// The error code this sink reports when it refuses a delivery.
    pub closed spec fn code(&self) -> u64 {
        self.refusal_code
    }

    /// A sink that accepts every delivery.
    pub fn new() -> (s: Self)
        ensures
            s.calls() == Seq::<Seq<u8>>::empty(),
            s.results() == Seq::<Result<(), ServerError>>::empty(),
            s.refuse_limit() is None,
    {
        let s = BufferSink { received: Vec::new(), refuse_from: None, refusal_code: 0 };
        proof {
            assert(s.calls() =~= Seq::<Seq<u8>>::empty());
            assert(s.results() =~= Seq::<Result<(), ServerError>>::empty());
        }
        s
    }

    /// A sink that accepts its first `limit` deliveries and refuses every
    /// later one with `ServerError::Delivery(code)`.
    pub fn refusing_from(limit: usize, code: u64) -> (s: Self)
        ensures
            s.calls() == Seq::<Seq<u8>>::empty(),
            s.results() == Seq::<Result<(), ServerError>>::empty(),
            s.refuse_limit() == Some(limit),
            s.code() == code,
    {
        let s = BufferSink { received: Vec::new(), refuse_from: Some(limit), refusal_code: code };
        proof {
            assert(s.calls() =~= Seq::<Seq<u8>>::empty());
            assert(s.results() =~= Seq::<Result<(), ServerError>>::empty());
        }
        s
    }

    /// The payloads handed to this sink so far, in order.
    pub fn received(&self) -> (r: &Vec<Vec<u8>>)
        ensures
            r@.len() == self.calls().len(),
            forall|i: int| 0 <= i < r@.len() ==> r@[i]@ == self.calls()[i],
    {
        &self.received
    }
}

impl SessionHandler for BufferSink {
    closed spec fn calls(&self) -> Seq<Seq<u8>> {
        self.received@.map_values(|v: Vec<u8>| v@)
    }

    closed spec fn results(&self) -> Seq<Result<(), ServerError>> {
        Seq::new(
            self.received@.len(),
            |k: int|
                if self.refuse_from is Some && k >= self.refuse_from.unwrap() {
                    Err(ServerError::Delivery(self.refusal_code))
                } else {
                    Ok(())
                },
        )
    }

    fn send_response(&mut self, msg: &[u8]) -> (r: Result<(), ServerError>)
        ensures
            r is Ok <==> (old(self).refuse_limit() is None || old(self).calls().len() < old(
                self,
            ).refuse_limit().unwrap()),
            r is Err ==> r == Result::<(), ServerError>::Err(
                ServerError::Delivery(old(self).code()),
            ),
            final(self).refuse_limit() == old(self).refuse_limit(),
            final(self).code() == old(self).code(),
    {
        let refused = match self.refuse_from {
            Some(n) => self.received.len() >= n,
            None => false,
        };
        let copy = vstd::slice::slice_to_vec(msg);
        self.received.push(copy);
        proof {
            assert(old(self).received@.push(copy).map_values(|v: Vec<u8>| v@)
                =~= old(self).received@.map_values(|v: Vec<u8>| v@).push(copy@));
        }
        let r = if refused {
            Err(ServerError::Delivery(self.refusal_code))
        } else {
            Ok(())
        };
        proof {
            assert(self.results() =~= old(self).results().push(r));
        }
        r
    }
}

} // verus!
