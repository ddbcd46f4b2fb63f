//! The router: it owns the engine handle and the callback registry, and
//! translates engine output into response-sink deliveries. Sessions are the
//! per-connection handles callers interact with.

use vstd::prelude::*;

use crate::batch::batch_view;
use crate::engine::Engine;
use crate::error::ServerError;
use crate::registry::delivery_post;
use crate::registry::Registry;
use crate::sink::SessionHandler;

verus! {

/// One router instance. Each instance is separate: it owns its engine handle
/// and its own session set, and shares nothing with other instances.
pub struct Server<E: Engine, S: SessionHandler> {
    engine: E,
    registry: Registry<S>,
}

impl<E: Engine, S: SessionHandler> Server<E, S> {
    /// The registry this router delivers through.
    pub closed spec fn registry_view(&self) -> Registry<S> {
        self.registry
    }

    /// The engine this router drives.
    pub closed spec fn engine_view(&self) -> E {
        self.engine
    }

    /// The identifiers of the currently registered sessions.
    pub open spec fn sessions(&self) -> Set<u32> {
        self.registry_view().ids()
    }

    /// The sink registered for `id`; meaningful when `sessions()` holds `id`.
    pub open spec fn sink(&self, id: u32) -> S {
        self.registry_view().sink(id)
    }

    /// The record of every delivery this router has attempted:
    /// `(recipient, payload, succeeded)`, in the order of the attempts.
    pub open spec fn log(&self) -> Seq<(u32, Seq<u8>, bool)> {
        self.registry_view().log()
    }

    /// The output the engine has buffered for the next poll.
    pub open spec fn pending(&self) -> Seq<(u32, Seq<u8>)> {
        self.engine_view().pending()
    }

    /// How many more sessions this router can still create.
    pub open spec fn sessions_left(&self) -> nat {
        self.engine_view().allocations_left()
    }

    /// The engine's request traffic so far: one `(submission, answer batch)`
    /// pair per engine call that `handle_request` made, in order.
    pub open spec fn exchanges(&self) -> Seq<((u32, Seq<u8>), Seq<(u32, Seq<u8>)>)> {
        self.engine_view().exchanges()
    }

    /// Well-formedness: the registry holds at most one entry per identifier,
    /// and every registered identifier is allocated engine-side, so closing a
    /// session may always release it.
    pub open spec fn wf(&self) -> bool {
        &&& self.registry_view().wf()
        &&& forall|id: u32| #[trigger]
            self.registry_view().has(id) ==> self.engine_view().allocated().contains(id)
    }

    /// A router around `engine`, with no sessions yet.
    pub fn new(engine: E) -> (s: Self)
        ensures
            s.wf(),
            s.sessions() == Set::<u32>::empty(),
            s.log() == Seq::<(u32, Seq<u8>, bool)>::empty(),
            s.pending() == engine.pending(),
            s.sessions_left() == engine.allocations_left(),
    {
        Server { engine, registry: Registry::new() }
    }

    /// Whether a further session can still be created: the engine has an
    /// identifier left to hand out.
    pub fn can_create_session(&self) -> (r: bool)
        ensures
            r == (self.sessions_left() > 0),
    {
        self.engine.has_capacity()
    }

    /// Create a session: obtain a fresh identifier from the engine, register
    /// `sink` under it, and return the session handle bound to it. The
    /// identifier is distinct from every currently registered one, and the
    /// registry entry is in place before the handle is handed out, so no
    /// delivery addressed to the new identifier can be missed afterwards.
    pub fn new_session(&mut self, sink: S) -> (session: Session)
        requires
            old(self).wf(),
            old(self).sessions_left() > 0,
        ensures
            final(self).wf(),
            !old(self).sessions().contains(session.spec_id()),
            final(self).sessions() == old(self).sessions().insert(session.spec_id()),
            final(self).sink(session.spec_id()) == sink,
            forall|o: u32| #[trigger]
                old(self).sessions().contains(o) && o != session.spec_id() ==> final(self).sink(o) == old(
                    self,
                ).sink(o),
            final(self).log() == old(self).log(),
            final(self).pending() == old(self).pending(),
            final(self).sessions_left() == (old(self).sessions_left() - 1) as nat,
            final(self).engine_view().allocated() == old(self).engine_view().allocated().insert(
                session.spec_id(),
            ),
            final(self).exchanges() == old(self).exchanges(),
            !session.is_closed(),
    {
        let id = self.engine.allocate_session();
        proof {
            assert(!self.registry.has(id));
        }
        self.registry.insert(id, sink);
        Session { id, closed: false }
    }

    /// Forward one request from the session `client_id` to the engine, then
    /// deliver the engine's direct response batch: each entry to the sink
    /// registered for its recipient, in batch order, skipping entries whose
    /// recipient is unregistered, stopping at the first sink failure, whose
    /// error is returned unchanged. The engine receives exactly one
    /// submission, `(client_id, request)`, and the batch it answered — the
    /// last entry of the exchange record — is precisely the batch whose
    /// delivery the result describes. What the engine answers is its own
    /// affair; the delivery of whatever it answered is exact.
    pub fn handle_request(&mut self, client_id: u32, request: &[u8]) -> (r: Result<
        (),
        ServerError,
    >)
        requires
            old(self).wf(),
        ensures
            final(self).wf(),
            final(self).sessions_left() == old(self).sessions_left(),
            final(self).engine_view().allocated() == old(self).engine_view().allocated(),
            exists|b: Seq<(u32, Seq<u8>)>|
                {
                    &&& #[trigger] delivery_post(
                        old(self).registry_view(),
                        final(self).registry_view(),
                        b,
                        r,
                    )
                    &&& final(self).exchanges() == old(self).exchanges().push(
                        ((client_id, request@), b),
                    )
                },
    {
        let batch = self.engine.submit(client_id, request);
        let r = self.registry.deliver_batch(&batch);
        proof {
            assert(delivery_post(
                old(self).registry_view(),
                self.registry_view(),
                batch_view(batch@),
                r,
            ));
            assert(self.exchanges() == old(self).exchanges().push(
                ((client_id, request@), batch_view(batch@)),
            ));
            assert forall|id: u32| #[trigger] self.registry_view().has(id) implies self
                .engine_view().allocated().contains(id) by {
                assert(old(self).registry_view().has(id));
            }
        }
        r
    }

    /// Ask the engine to flush everything it has buffered and deliver it
    /// exactly as `handle_request` delivers a direct batch: in order, to the
    /// sinks registered for the recipients, fail-fast. This is global: it
    /// delivers the pending output of every session, whichever session asked.
    pub fn poll(&mut self) -> (r: Result<(), ServerError>)
        requires
            old(self).wf(),
        ensures
            final(self).wf(),
            final(self).sessions_left() == old(self).sessions_left(),
            final(self).engine_view().allocated() == old(self).engine_view().allocated(),
            final(self).exchanges() == old(self).exchanges(),
            final(self).pending().len() == 0,
            delivery_post(
                old(self).registry_view(),
                final(self).registry_view(),
                old(self).pending(),
                r,
            ),
    {
        let batch = self.engine.drain();
        let r = self.registry.deliver_batch(&batch);
        proof {
            assert forall|id: u32| #[trigger] self.registry_view().has(id) implies self
                .engine_view().allocated().contains(id) by {
                assert(old(self).registry_view().has(id));
            }
        }
        r
    }

    /// A shared view of the sink registered for `id`, if any.
    pub fn sink_for(&self, id: u32) -> (r: Option<&S>)
        requires
            self.wf(),
        ensures
            r is Some <==> self.sessions().contains(id),
            r is Some ==> *r.unwrap() == self.sink(id),
    {
        self.registry.get(id)
    }

    /// Release the engine-side resources of `id` and remove its registry
    /// entry. Closing an identifier that has no entry — in particular closing
    /// the same identifier a second time — is a lifecycle bug in the caller,
    /// not a recoverable condition: the precondition excludes it, so for a
    /// verified caller a double close is a verification-time error. Should an
    /// unverified caller reach it anyway, the call still fails loudly with
    /// [`ServerError::UnknownSession`] and changes nothing, rather than
    /// succeeding silently or tearing the process down.
    pub fn close_session(&mut self, id: u32) -> (r: Result<(), ServerError>)
        requires
            old(self).wf(),
            old(self).sessions().contains(id),
        ensures
            final(self).wf(),
            r is Ok <==> old(self).sessions().contains(id),
            r is Err ==> r == Result::<(), ServerError>::Err(ServerError::UnknownSession)
                && *final(self) == *old(self),
            r is Ok ==> {
                &&& final(self).sessions() == old(self).sessions().remove(id)
                &&& forall|o: u32| #[trigger]
                    old(self).sessions().contains(o) && o != id ==> final(self).sink(o) == old(
                        self,
                    ).sink(o)
                &&& final(self).log() == old(self).log()
                &&& final(self).sessions_left() == old(self).sessions_left()
                &&& final(self).engine_view().allocated() == old(
                    self,
                ).engine_view().allocated().remove(id)
                &&& final(self).exchanges() == old(self).exchanges()
            },
    {
        if !self.registry.contains(id) {
            return Err(ServerError::UnknownSession);
        }
        let _removed = self.registry.remove(id);
        self.engine.release(id);
        Ok(())
    }
}

/// The handle a caller holds for one session: the identifier the engine
/// assigned, and whether close has been called through this handle. A session
/// must end in exactly one way: `close`, which consumes the handle. A handle
/// discarded without close leaks its engine-side resources and its registry
/// entry; detecting such a discard is the embedding's affair, since this
/// handle carries no destructor of its own.
pub struct Session {
    id: u32,
    closed: bool,
}

impl Session {
    /// The identifier the engine assigned to this session.
    pub closed spec fn spec_id(&self) -> u32 {
        self.id
    }

    /// Whether close was called through this handle.
    pub closed spec fn is_closed(&self) -> bool {
        self.closed
    }

    /// The identifier the engine assigned to this session.
    pub fn session_id(&self) -> (r: u32)
        ensures
            r == self.spec_id(),
    {
        self.id
    }

    /// Submit one request from this session. Responses — to this session or
    /// fanned out to others — go through the registered sinks, as
    /// [`Server::handle_request`] states.
    pub fn handle_request<E: Engine, S: SessionHandler>(
        &self,
        server: &mut Server<E, S>,
        request: &[u8],
    ) -> (r: Result<(), ServerError>)
        requires
            old(server).wf(),
            !self.is_closed(),
        ensures
            final(server).wf(),
            final(server).sessions_left() == old(server).sessions_left(),
            final(server).engine_view().allocated() == old(server).engine_view().allocated(),
            exists|b: Seq<(u32, Seq<u8>)>|
                {
                    &&& #[trigger] delivery_post(
                        old(server).registry_view(),
                        final(server).registry_view(),
                        b,
                        r,
                    )
                    &&& final(server).exchanges() == old(server).exchanges().push(
                        ((self.spec_id(), request@), b),
                    )
                },
    {
        server.handle_request(self.id, request)
    }

    /// Flush pending engine output for all sessions of `server`, as
    /// [`Server::poll`] states. Whenever a request was handled, at least one
    /// poll should follow, so output the request buffered for other sessions
    /// eventually reaches them.
    pub fn poll<E: Engine, S: SessionHandler>(&self, server: &mut Server<E, S>) -> (r: Result<
        (),
        ServerError,
    >)
        requires
            old(server).wf(),
            !self.is_closed(),
        ensures
            final(server).wf(),
            final(server).sessions_left() == old(server).sessions_left(),
            final(server).engine_view().allocated() == old(server).engine_view().allocated(),
            final(server).exchanges() == old(server).exchanges(),
            final(server).pending().len() == 0,
            delivery_post(
                old(server).registry_view(),
                final(server).registry_view(),
                old(server).pending(),
                r,
            ),
    {
        server.poll()
    }

    /// Close this session, consuming the handle, releasing the engine-side
    /// resources and removing the registry entry, as
    /// [`Server::close_session`] states. Closing an identifier that is no
    /// longer registered is a lifecycle bug excluded by the precondition; an
    /// unverified caller that reaches it gets a loud
    /// [`ServerError::UnknownSession`], never a silent success.
    pub fn close<E: Engine, S: SessionHandler>(self, server: &mut Server<E, S>) -> (r: Result<
        (),
        ServerError,
    >)
        requires
            old(server).wf(),
            old(server).sessions().contains(self.spec_id()),
            !self.is_closed(),
        ensures
            final(server).wf(),
            r is Ok <==> old(server).sessions().contains(self.spec_id()),
            r is Err ==> r == Result::<(), ServerError>::Err(ServerError::UnknownSession)
                && *final(server) == *old(server),
            r is Ok ==> {
                &&& final(server).sessions() == old(server).sessions().remove(self.spec_id())
                &&& forall|o: u32| #[trigger]
                    old(server).sessions().contains(o) && o != self.spec_id() ==> final(server).sink(o)
                        == old(server).sink(o)
                &&& final(server).log() == old(server).log()
                &&& final(server).sessions_left() == old(server).sessions_left()
                &&& final(server).engine_view().allocated() == old(
                    server,
                ).engine_view().allocated().remove(self.spec_id())
                &&& final(server).exchanges() == old(server).exchanges()
            },
    {
        server.close_session(self.id)
    }
}

} // verus!
