//! The boundary to the processing engine the router drives, and an in-memory
//! engine for running the router without the real one.

use vstd::prelude::*;

use crate::batch::batch_view;

verus! {

/// The capability interface of the processing engine: allocate a fresh
/// session identifier, submit a request, drain buffered asynchronous output,
/// release a session's engine-side resources.
///
/// The engine's computation is opaque: nothing is assumed about the content
/// of the batches `submit` returns. The router relies only on the identifier
/// lifecycle (a fresh identifier is never one still allocated) and on `drain`
/// handing back exactly what the engine has buffered, in order.
pub trait Engine: Sized {
    /// The identifiers currently allocated engine-side.
    spec fn allocated(&self) -> Set<u32>;

    /// How many more identifiers the engine can still hand out.
    spec fn allocations_left(&self) -> nat;

    /// The output the engine has buffered for a later drain, in order.
    spec fn pending(&self) -> Seq<(u32, Seq<u8>)>;

    /// The record of the engine's request traffic: one entry per `submit`
    /// call, pairing the submission `(session identifier, request bytes)`
    /// with the batch the engine answered, in call order. It is how a caller
    /// of the router can tell which request the engine received and which
    /// batch its deliveries came from.
    spec fn exchanges(&self) -> Seq<((u32, Seq<u8>), Seq<(u32, Seq<u8>)>)>;

    /// Whether the engine can still hand out an identifier.
    fn has_capacity(&self) -> (r: bool)
        ensures
            r == (self.allocations_left() > 0),
    ;

    /// Allocate a session identifier that is not currently allocated.
    fn allocate_session(&mut self) -> (id: u32)
        requires
            old(self).allocations_left() > 0,
        ensures
            !old(self).allocated().contains(id),
            final(self).allocated() == old(self).allocated().insert(id),
            final(self).allocations_left() == (old(self).allocations_left() - 1) as nat,
            final(self).pending() == old(self).pending(),
            final(self).exchanges() == old(self).exchanges(),
    ;

    /// Process one request submitted by the session `id`. The returned batch
    /// holds the engine's direct responses, each addressed to a recipient
    /// session; the engine may additionally buffer output for a later drain.
    fn submit(&mut self, id: u32, request: &[u8]) -> (batch: Vec<(u32, Vec<u8>)>)
        ensures
            final(self).allocated() == old(self).allocated(),
            final(self).allocations_left() == old(self).allocations_left(),
            final(self).exchanges() == old(self).exchanges().push(
                ((id, request@), batch_view(batch@)),
            ),
    ;

    /// Hand back everything the engine has buffered, in order, leaving the
    /// buffer empty.
    fn drain(&mut self) -> (batch: Vec<(u32, Vec<u8>)>)
        ensures
            batch_view(batch@) == old(self).pending(),
            final(self).pending() == Seq::<(u32, Seq<u8>)>::empty(),
            final(self).allocated() == old(self).allocated(),
            final(self).allocations_left() == old(self).allocations_left(),
            final(self).exchanges() == old(self).exchanges(),
    ;

    /// Release the engine-side resources of `id`; the identifier is no longer
    /// allocated afterwards. What becomes of buffered output addressed to the
    /// released identifier is the engine's affair: this interface leaves
    /// `pending()` unconstrained here, and the router drops whatever arrives
    /// for an unregistered recipient.
    fn release(&mut self, id: u32)
        requires
            old(self).allocated().contains(id),
        ensures
            final(self).allocated() == old(self).allocated().remove(id),
            final(self).allocations_left() == old(self).allocations_left(),
            final(self).exchanges() == old(self).exchanges(),
    ;
}

/// An in-memory engine: identifiers come from a counter, `submit` answers
/// with a batch staged beforehand, and `drain` empties a staged buffer of
/// asynchronous output. It stands in for the real engine wherever the router
/// is driven without one, and it is what the routing contracts are exercised
/// against in tests.
pub struct MockEngine {
    next: u32,
    live: Ghost<Set<u32>>,
    replies: Vec<(u32, Vec<u8>)>,
    buffered: Vec<(u32, Vec<u8>)>,
    exchanged: Ghost<Seq<((u32, Seq<u8>), Seq<(u32, Seq<u8>)>)>>,
}

impl MockEngine {
    /// The batch the next `submit` call will return, in order.
    pub closed spec fn staged_replies(&self) -> Seq<(u32, Seq<u8>)> {
        batch_view(self.replies@)
    }

    /// The identifier the next `allocate_session` call will hand out.
    pub closed spec fn next_id(&self) -> u32 {
        self.next
    }

    /// A fresh engine: nothing allocated, nothing staged, nothing buffered.
    pub fn new() -> (e: Self)
        ensures
            e.allocated() == Set::<u32>::empty(),
            e.allocations_left() == u32::MAX as nat,
            e.pending() == Seq::<(u32, Seq<u8>)>::empty(),
            e.staged_replies() == Seq::<(u32, Seq<u8>)>::empty(),
            e.exchanges() == Seq::<((u32, Seq<u8>), Seq<(u32, Seq<u8>)>)>::empty(),
            e.next_id() == 0,
    {
        let e = MockEngine {
            next: 0,
            live: Ghost(Set::empty()),
            replies: Vec::new(),
            buffered: Vec::new(),
            exchanged: Ghost(Seq::empty()),
        };
        proof {
            assert(e.pending() =~= Seq::<(u32, Seq<u8>)>::empty());
            assert(e.staged_replies() =~= Seq::<(u32, Seq<u8>)>::empty());
        }
        e
    }

    /// Stage one direct response: the next `submit` call will return it,
    /// after the ones already staged.
    pub fn stage_reply(&mut self, recipient: u32, payload: Vec<u8>)
        ensures
            final(self).staged_replies() == old(self).staged_replies().push(
                (recipient, payload@),
            ),
            final(self).allocated() == old(self).allocated(),
            final(self).allocations_left() == old(self).allocations_left(),
            final(self).pending() == old(self).pending(),
            final(self).exchanges() == old(self).exchanges(),
            final(self).next_id() == old(self).next_id(),
    {
        let ghost pre = self.replies@;
        self.replies.push((recipient, payload));
        proof {
            assert(pre.push((recipient, payload)).map_values(|e: (u32, Vec<u8>)| (e.0, e.1@))
                =~= pre.map_values(|e: (u32, Vec<u8>)| (e.0, e.1@)).push((recipient, payload@)));
        }
    }

    /// Buffer one piece of asynchronous output: a later `drain` will hand it
    /// back, after the output already buffered.
    pub fn stage_async(&mut self, recipient: u32, payload: Vec<u8>)
        ensures
            final(self).pending() == old(self).pending().push((recipient, payload@)),
            final(self).allocated() == old(self).allocated(),
            final(self).allocations_left() == old(self).allocations_left(),
            final(self).staged_replies() == old(self).staged_replies(),
            final(self).exchanges() == old(self).exchanges(),
            final(self).next_id() == old(self).next_id(),
    {
        let ghost pre = self.buffered@;
        self.buffered.push((recipient, payload));
        proof {
            assert(pre.push((recipient, payload)).map_values(|e: (u32, Vec<u8>)| (e.0, e.1@))
                =~= pre.map_values(|e: (u32, Vec<u8>)| (e.0, e.1@)).push((recipient, payload@)));
        }
    }
}

impl Engine for MockEngine {
    closed spec fn allocated(&self) -> Set<u32> {
        self.live@.intersect(Set::new(|id: u32| id < self.next))
    }

    closed spec fn allocations_left(&self) -> nat {
        (u32::MAX - self.next) as nat
    }

    closed spec fn pending(&self) -> Seq<(u32, Seq<u8>)> {
        batch_view(self.buffered@)
    }

    closed spec fn exchanges(&self) -> Seq<((u32, Seq<u8>), Seq<(u32, Seq<u8>)>)> {
        self.exchanged@
    }

    fn has_capacity(&self) -> (r: bool) {
        self.next < u32::MAX
    }

    fn allocate_session(&mut self) -> (id: u32)
        ensures
            id == old(self).next_id(),
            final(self).next_id() == id + 1,
    {
        let ghost pre = *self;
        let id = self.next;
        self.next = self.next + 1;
        self.live = Ghost(self.live@.insert(id));
        proof {
            assert(!pre.allocated().contains(id));
            assert(self.allocated() =~= pre.allocated().insert(id));
        }
        id
    }

    fn submit(&mut self, id: u32, request: &[u8]) -> (batch: Vec<(u32, Vec<u8>)>)
        ensures
            batch_view(batch@) == old(self).staged_replies(),
            final(self).staged_replies() == Seq::<(u32, Seq<u8>)>::empty(),
            final(self).pending() == old(self).pending(),
    {
        let mut batch: Vec<(u32, Vec<u8>)> = Vec::new();
        core::mem::swap(&mut batch, &mut self.replies);
        self.exchanged = Ghost(self.exchanged@.push(((id, request@), batch_view(batch@))));
        proof {
            assert(self.staged_replies() =~= Seq::<(u32, Seq<u8>)>::empty());
        }
        batch
    }

    fn drain(&mut self) -> (batch: Vec<(u32, Vec<u8>)>)
        ensures
            final(self).staged_replies() == old(self).staged_replies(),
    {
        let mut batch: Vec<(u32, Vec<u8>)> = Vec::new();
        core::mem::swap(&mut batch, &mut self.buffered);
        proof {
            assert(self.pending() =~= Seq::<(u32, Seq<u8>)>::empty());
        }
        batch
    }

    fn release(&mut self, id: u32)
        ensures
            final(self).pending() == old(self).pending(),
            final(self).staged_replies() == old(self).staged_replies(),
            final(self).next_id() == old(self).next_id(),
    {
        let ghost pre = *self;
        self.live = Ghost(self.live@.remove(id));
        proof {
            assert(self.allocated() =~= pre.allocated().remove(id));
        }
    }
}

} // verus!
