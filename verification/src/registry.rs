//! The callback registry: the mapping from session identifier to the response
//! sink registered for it, together with the delivery loop that routes one
//! engine output batch through it.

use vstd::prelude::*;

use crate::batch::batch_view;
use crate::batch::lemma_log_of_push;
use crate::batch::lemma_payloads_for_push;
use crate::batch::log_of;
use crate::batch::payloads_for;
use crate::error::ServerError;
use crate::sink::SessionHandler;

verus! {

/// The mapping from session identifier to registered response sink.
///
/// At any instant at most one entry exists per identifier. The registry also
/// carries the record of every delivery it has ever attempted, so that the
/// routing contracts can speak about the order in which sinks were invoked.
pub struct Registry<S> {
    entries: Vec<(u32, S)>,
    log: Ghost<Seq<(u32, Seq<u8>, bool)>>,
}

impl<S> Registry<S> {
    /// Well-formedness: identifiers are pairwise distinct, so each identifier
    /// names at most one sink.
    pub closed spec fn wf(&self) -> bool {
        forall|i: int, j: int|
            0 <= i < j < self.entries@.len() ==> self.entries@[i].0 != self.entries@[j].0
    }

    /// The identifiers currently registered.
    pub closed spec fn ids(&self) -> Set<u32> {
        Set::new(
            |id: u32| exists|i: int| 0 <= i < self.entries@.len() && self.entries@[i].0 == id,
        )
    }

    /// Whether `id` currently has a registry entry.
    pub open spec fn has(&self, id: u32) -> bool {
        self.ids().contains(id)
    }

    spec fn index_of(&self, id: u32) -> int {
        choose|i: int| 0 <= i < self.entries@.len() && self.entries@[i].0 == id
    }

    /// The sink registered for `id`; meaningful only when `has(id)`.
    pub closed spec fn sink(&self, id: u32) -> S {
        self.entries@[self.index_of(id)].1
    }

    /// The record of every delivery this registry has attempted:
    /// `(recipient, payload, succeeded)`, in the order of the attempts.
    pub closed spec fn log(&self) -> Seq<(u32, Seq<u8>, bool)> {
        self.log@
    }

    proof fn lemma_entry_index(&self, k: int)
        requires
            self.wf(),
            0 <= k < self.entries@.len(),
        ensures
            self.has(self.entries@[k].0),
            self.index_of(self.entries@[k].0) == k,
            self.sink(self.entries@[k].0) == self.entries@[k].1,
    {
        let id = self.entries@[k].0;
        assert(exists|i: int| 0 <= i < self.entries@.len() && self.entries@[i].0 == id);
        let i = self.index_of(id);
        assert(0 <= i < self.entries@.len() && self.entries@[i].0 == id);
        if i < k {
            assert(self.entries@[i].0 != self.entries@[k].0);
        } else if k < i {
            assert(self.entries@[k].0 != self.entries@[i].0);
        }
    }

    /// An empty registry.
    pub fn new() -> (r: Self)
        ensures
            r.wf(),
            r.ids() == Set::<u32>::empty(),
            r.log() == Seq::<(u32, Seq<u8>, bool)>::empty(),
    {
        let r = Registry { entries: Vec::new(), log: Ghost(Seq::empty()) };
        proof {
            assert(r.ids() =~= Set::<u32>::empty());
        }
        r
    }

    /// Whether `id` currently has a registry entry.
    pub fn contains(&self, id: u32) -> (r: bool)
        requires
            self.wf(),
        ensures
            r == self.has(id),
    {
        match self.find(id) {
            Some(_) => true,
            None => false,
        }
    }

    fn find(&self, id: u32) -> (r: Option<usize>)
        requires
            self.wf(),
        ensures
            match r {
                Some(k) => {
                    &&& k < self.entries@.len()
                    &&& self.entries@[k as int].0 == id
                    &&& self.has(id)
                    &&& self.index_of(id) == k
                },
                None => !self.has(id),
            },
    {
        let mut k: usize = 0;
        while k < self.entries.len()
            invariant
                k <= self.entries@.len(),
                self.wf(),
                forall|i: int| 0 <= i < k ==> self.entries@[i].0 != id,
            decreases self.entries@.len() - k,
        {
            if self.entries[k].0 == id {
                proof {
                    self.lemma_entry_index(k as int);
                }
                return Some(k);
            }
            k = k + 1;
        }
        proof {
            assert(!self.has(id)) by {
                if self.has(id) {
                    let i = choose|i: int|
                        0 <= i < self.entries@.len() && self.entries@[i].0 == id;
                    assert(self.entries@[i].0 != id);
                }
            }
        }
        None
    }

    /// A shared view of the sink registered for `id`, if any.
    pub fn get(&self, id: u32) -> (r: Option<&S>)
        requires
            self.wf(),
        ensures
            r is Some <==> self.has(id),
            r is Some ==> *r.unwrap() == self.sink(id),
    {
        match self.find(id) {
            Some(k) => Some(&self.entries[k].1),
            None => None,
        }
    }

    /// Register `sink` for the fresh identifier `id`. Inserting is only
    /// permitted for an identifier with no current entry, so at most one
    /// entry per identifier ever exists.
    pub fn insert(&mut self, id: u32, sink: S)
        requires
            old(self).wf(),
            !old(self).has(id),
        ensures
            final(self).wf(),
            final(self).ids() == old(self).ids().insert(id),
            final(self).sink(id) == sink,
            forall|o: u32| old(self).has(o) ==> final(self).has(o) && final(self).sink(o)
                == old(self).sink(o),
            final(self).log() == old(self).log(),
    {
        let ghost pre = *self;
        self.entries.push((id, sink));
        proof {
            let n = pre.entries@.len();
            assert(self.entries@ == pre.entries@.push((id, sink)));
            assert forall|i: int| 0 <= i < n implies self.entries@[i] == pre.entries@[i] by {}
            assert(self.wf()) by {
                assert forall|i: int, j: int| 0 <= i < j < self.entries@.len() implies self
                    .entries@[i].0 != self.entries@[j].0 by {
                    if j < n {
                    } else {
                        assert(self.entries@[j].0 == id);
                        pre.lemma_entry_index(i);
                    }
                }
            }
            assert(final(self).ids() =~= pre.ids().insert(id)) by {
                assert forall|o: u32| self.ids().contains(o) implies pre.ids().insert(
                    id,
                ).contains(o) by {
                    let i = choose|i: int|
                        0 <= i < self.entries@.len() && self.entries@[i].0 == o;
                    if i < n {
                        assert(pre.entries@[i].0 == o);
                    }
                }
                assert forall|o: u32| pre.ids().insert(id).contains(o) implies self
                    .ids().contains(o) by {
                    if o == id {
                        assert(self.entries@[n as int].0 == id);
                    } else {
                        let i = choose|i: int|
                            0 <= i < pre.entries@.len() && pre.entries@[i].0 == o;
                        assert(self.entries@[i].0 == o);
                    }
                }
            }
            self.lemma_entry_index(n as int);
            assert forall|o: u32| pre.has(o) implies self.has(o) && self.sink(o) == pre.sink(
                o,
            ) by {
                let i = choose|i: int| 0 <= i < pre.entries@.len() && pre.entries@[i].0 == o;
                assert(self.entries@[i].0 == o);
                self.lemma_entry_index(i);
                pre.lemma_entry_index(i);
            }
        }
    }

    /// Remove and return the entry for `id`, if one exists. Every other entry
    /// is untouched.
    pub fn remove(&mut self, id: u32) -> (r: Option<S>)
        requires
            old(self).wf(),
        ensures
            final(self).wf(),
            r is Some <==> old(self).has(id),
            old(self).has(id) ==> r == Some(old(self).sink(id)),
            final(self).ids() == old(self).ids().remove(id),
            forall|o: u32|
                old(self).has(o) && o != id ==> final(self).has(o) && final(self).sink(o) == old(
                    self,
                ).sink(o),
            final(self).log() == old(self).log(),
    {
        let ghost pre = *self;
        match self.find(id) {
            None => {
                proof {
                    assert(final(self).ids() =~= pre.ids().remove(id));
                }
                None
            },
            Some(k) => {
                let entry = self.entries.remove(k);
                proof {
                    let n = pre.entries@.len();
                    assert(self.entries@ == pre.entries@.remove(k as int));
                    assert forall|i: int| 0 <= i < n - 1 implies self.entries@[i] == (if i
                        < k {
                        pre.entries@[i]
                    } else {
                        pre.entries@[i + 1]
                    }) by {}
                    assert(self.wf());
                    assert(final(self).ids() =~= pre.ids().remove(id)) by {
                        assert forall|o: u32| self.ids().contains(o) implies pre.ids().remove(
                            id,
                        ).contains(o) by {
                            let i = choose|i: int|
                                0 <= i < self.entries@.len() && self.entries@[i].0 == o;
                            let j: int = if i < k { i } else { i + 1 };
                            assert(pre.entries@[j].0 == o);
                            if o == id {
                                pre.lemma_entry_index(j);
                                pre.lemma_entry_index(k as int);
                            }
                        }
                        assert forall|o: u32| pre.ids().remove(id).contains(o) implies self
                            .ids().contains(o) by {
                            let j = choose|j: int|
                                0 <= j < pre.entries@.len() && pre.entries@[j].0 == o;
                            pre.lemma_entry_index(j);
                            pre.lemma_entry_index(k as int);
                            let i: int = if j < k { j } else { j - 1 };
                            assert(self.entries@[i].0 == o);
                        }
                    }
                    assert forall|o: u32| pre.has(o) && o != id implies self.has(o) && self
                        .sink(o) == pre.sink(o) by {
                        let j = choose|j: int|
                            0 <= j < pre.entries@.len() && pre.entries@[j].0 == o;
                        pre.lemma_entry_index(j);
                        pre.lemma_entry_index(k as int);
                        let i: int = if j < k { j } else { j - 1 };
                        assert(self.entries@[i].0 == o);
                        self.lemma_entry_index(i);
                    }
                    pre.lemma_entry_index(k as int);
                }
                Some(entry.1)
            },
        }
    }
}

/// An outcome record extended by `n` reports, every one of them a success:
/// the sink accepted each delivery it was handed.
pub open spec fn extended_all_ok(
    pre: Seq<Result<(), ServerError>>,
    post: Seq<Result<(), ServerError>>,
    n: nat,
) -> bool {
    &&& post.len() == pre.len() + n
    &&& forall|k: int| 0 <= k < pre.len() ==> post[k] == pre[k]
    &&& forall|k: int| pre.len() <= k < post.len() ==> (#[trigger] post[k]) is Ok
}

/// An outcome record extended by `n` reports of which every one but the last
/// is a success and the last is exactly `last`: the sink accepted each
/// earlier delivery and refused the final one.
pub open spec fn extended_ok_then_err(
    pre: Seq<Result<(), ServerError>>,
    post: Seq<Result<(), ServerError>>,
    n: nat,
    last: Result<(), ServerError>,
) -> bool {
    &&& n > 0
    &&& post.len() == pre.len() + n
    &&& forall|k: int| 0 <= k < pre.len() ==> post[k] == pre[k]
    &&& forall|k: int| pre.len() <= k < post.len() - 1 ==> (#[trigger] post[k]) is Ok
    &&& post.last() == last
}

/// Every registered sink accepted each delivery `batch` addressed to it: its
/// outcome record grew by exactly one success per payload.
pub open spec fn sinks_accepted<S: SessionHandler>(
    pre: Registry<S>,
    post: Registry<S>,
    batch: Seq<(u32, Seq<u8>)>,
) -> bool {
    forall|id: u32| #[trigger]
        pre.has(id) ==> extended_all_ok(
            pre.sink(id).results(),
            post.sink(id).results(),
            payloads_for(batch, id).len(),
        )
}

/// Every registered sink has been handed exactly the payloads addressed to it
/// in `batch`, in batch order, on top of what it had seen before.
pub open spec fn sinks_extended<S: SessionHandler>(
    pre: Registry<S>,
    post: Registry<S>,
    batch: Seq<(u32, Seq<u8>)>,
) -> bool {
    forall|id: u32| #[trigger]
        pre.has(id) ==> post.has(id) && post.sink(id).calls() == pre.sink(id).calls()
            + payloads_for(batch, id)
}

/// Exactly how delivering one batch transforms a registry: the session set is
/// unchanged; on success every registered sink received and accepted
/// precisely the payloads addressed to it, in batch order, and the delivery
/// record grew by one successful record per routable entry. On failure the
/// deliveries of the prefix up to the failing one were made in batch order
/// and accepted, the failing delivery was actually refused by its sink and
/// the sink's own error is the operation's result, and nothing after it was
/// attempted.
pub open spec fn delivery_post<S: SessionHandler>(
    pre: Registry<S>,
    post: Registry<S>,
    batch: Seq<(u32, Seq<u8>)>,
    r: Result<(), ServerError>,
) -> bool {
    &&& post.wf()
    &&& post.ids() == pre.ids()
    &&& (r is Ok ==> {
        &&& sinks_extended(pre, post, batch)
        &&& sinks_accepted(pre, post, batch)
        &&& post.log() == pre.log() + log_of(batch, pre.ids())
    })
    &&& (r is Err ==> exists|i: int|
        {
            &&& 0 <= i < batch.len()
            &&& #[trigger] pre.ids().contains(batch[i].0)
            &&& sinks_extended(pre, post, batch.take(i + 1))
            &&& forall|id: u32|
                pre.has(id) && id != batch[i].0 ==> extended_all_ok(
                    (#[trigger] pre.sink(id)).results(),
                    post.sink(id).results(),
                    payloads_for(batch.take(i + 1), id).len(),
                )
            &&& extended_ok_then_err(
                pre.sink(batch[i].0).results(),
                post.sink(batch[i].0).results(),
                payloads_for(batch.take(i + 1), batch[i].0).len(),
                r,
            )
            &&& post.log() == pre.log() + log_of(batch.take(i), pre.ids()).push(
                (batch[i].0, batch[i].1, false),
            )
        })
}

/// Poll completeness: a successful request delivery followed by a successful
/// poll delivery hands every registered sink first the payloads the request's
/// direct batch addressed to it, then every payload addressed to it of the
/// output the engine had buffered when the poll began — nothing of the
/// buffered output is lost, every one of those deliveries was accepted, and
/// the delivery record shows the two batches in order. The two hypotheses are
/// exactly what `Server::handle_request` and `Server::poll` ensure on
/// success.
pub proof fn lemma_poll_completeness<S: SessionHandler>(
    pre: Registry<S>,
    mid: Registry<S>,
    post: Registry<S>,
    direct: Seq<(u32, Seq<u8>)>,
    pending: Seq<(u32, Seq<u8>)>,
)
    requires
        delivery_post(pre, mid, direct, Ok(())),
        delivery_post(mid, post, pending, Ok(())),
    ensures
        post.ids() == pre.ids(),
        forall|id: u32| #[trigger] pre.has(id) ==> post.sink(id).calls() == pre.sink(id).calls()
            + payloads_for(direct, id) + payloads_for(pending, id),
        forall|id: u32| #[trigger]
            pre.has(id) ==> extended_all_ok(
                pre.sink(id).results(),
                post.sink(id).results(),
                payloads_for(direct, id).len() + payloads_for(pending, id).len(),
            ),
        post.log() == pre.log() + log_of(direct, pre.ids()) + log_of(pending, pre.ids()),
{
    assert forall|id: u32| #[trigger] pre.has(id) implies post.sink(id).calls() == pre.sink(
        id,
    ).calls() + payloads_for(direct, id) + payloads_for(pending, id) by {
        assert(mid.has(id));
        assert(post.sink(id).calls() == mid.sink(id).calls() + payloads_for(pending, id));
        assert(mid.sink(id).calls() == pre.sink(id).calls() + payloads_for(direct, id));
        assert(pre.sink(id).calls() + payloads_for(direct, id) + payloads_for(pending, id)
            =~= (pre.sink(id).calls() + payloads_for(direct, id)) + payloads_for(pending, id));
    }
    assert forall|id: u32| #[trigger] pre.has(id) implies extended_all_ok(
        pre.sink(id).results(),
        post.sink(id).results(),
        payloads_for(direct, id).len() + payloads_for(pending, id).len(),
    ) by {
        assert(mid.has(id));
        let a = pre.sink(id).results();
        let b = mid.sink(id).results();
        let c = post.sink(id).results();
        assert(extended_all_ok(a, b, payloads_for(direct, id).len()));
        assert(extended_all_ok(b, c, payloads_for(pending, id).len()));
        assert forall|k: int| 0 <= k < a.len() implies c[k] == a[k] by {
            assert(c[k] == b[k]);
        }
        assert forall|k: int| a.len() <= k < c.len() implies (#[trigger] c[k]) is Ok by {
            if k < b.len() {
                assert(c[k] == b[k]);
            }
        }
    }
    assert(post.log() =~= pre.log() + log_of(direct, pre.ids()) + log_of(pending, pre.ids()));
}

impl<S: SessionHandler> Registry<S> {
    /// Deliver one engine output batch: walk the entries in order, hand each
    /// payload to the sink registered for its recipient, silently drop
    /// entries whose recipient has no entry, and stop at the first sink
    /// failure, returning that sink's error unchanged.
    pub fn deliver_batch(&mut self, batch: &Vec<(u32, Vec<u8>)>) -> (r: Result<(), ServerError>)
        requires
            old(self).wf(),
        ensures
            delivery_post(*old(self), *final(self), batch_view(batch@), r),
    {
        let ghost pre = *self;
        let ghost bv = batch_view(batch@);
        let mut j: usize = 0;
        proof {
            assert(bv.take(0) =~= Seq::<(u32, Seq<u8>)>::empty());
            assert(self.log@ =~= pre.log() + log_of(bv.take(0), pre.ids()));
            assert forall|id: u32| #[trigger] pre.has(id) implies self.sink(id).calls()
                == pre.sink(id).calls() + payloads_for(bv.take(0), id) by {
                assert(pre.sink(id).calls() =~= pre.sink(id).calls() + Seq::<Seq<u8>>::empty());
            }
            assert forall|id: u32| #[trigger] pre.has(id) implies extended_all_ok(
                pre.sink(id).results(),
                self.sink(id).results(),
                payloads_for(bv.take(0), id).len(),
            ) by {
                assert(payloads_for(bv.take(0), id).len() == 0);
            }
        }
        while j < batch.len()
            invariant
                j <= batch@.len(),
                pre == *old(self),
                bv == batch_view(batch@),
                self.wf(),
                self.ids() == pre.ids(),
                pre.wf(),
                sinks_extended(pre, *self, bv.take(j as int)),
                sinks_accepted(pre, *self, bv.take(j as int)),
                self.log() == pre.log() + log_of(bv.take(j as int), pre.ids()),
            decreases batch@.len() - j,
        {
            let rid = batch[j].0;
            let ghost step = bv.take(j as int);
            proof {
                assert(bv[j as int] == (batch@[j as int].0, batch@[j as int].1@));
                assert(bv.take(j + 1) =~= step.push(bv[j as int]));
            }
            match self.find(rid) {
                None => {
                    proof {
                        lemma_log_of_push(step, bv[j as int], pre.ids());
                        assert forall|id: u32| #[trigger] pre.has(id) implies self.sink(
                            id,
                        ).calls() == pre.sink(id).calls() + payloads_for(bv.take(j + 1), id) by {
                            lemma_payloads_for_push(step, bv[j as int], id);
                        }
                        assert forall|id: u32| #[trigger] pre.has(id) implies extended_all_ok(
                            pre.sink(id).results(),
                            self.sink(id).results(),
                            payloads_for(bv.take(j + 1), id).len(),
                        ) by {
                            lemma_payloads_for_push(step, bv[j as int], id);
                        }
                    }
                },
                Some(k) => {
                    let ghost before = *self;
                    let mut entry = self.entries.remove(k);
                    let res = entry.1.send_response(batch[j].1.as_slice());
                    let succeeded = res.is_ok();
                    self.entries.insert(k, entry);
                    self.log = Ghost(
                        self.log@.push((rid, batch@[j as int].1@, succeeded)),
                    );
                    proof {
                        assert(self.entries@ =~= before.entries@.update(
                            k as int,
                            (before.entries@[k as int].0, self.entries@[k as int].1),
                        ));
                        assert(self.wf());
                        assert(self.ids() =~= before.ids()) by {
                            assert forall|o: u32| self.ids().contains(o) implies before
                                .ids().contains(o) by {
                                let i = choose|i: int|
                                    0 <= i < self.entries@.len() && self.entries@[i].0 == o;
                                assert(before.entries@[i].0 == o);
                            }
                            assert forall|o: u32| before.ids().contains(o) implies self
                                .ids().contains(o) by {
                                let i = choose|i: int|
                                    0 <= i < before.entries@.len() && before.entries@[i].0 == o;
                                assert(self.entries@[i].0 == o);
                            }
                        }
                        before.lemma_entry_index(k as int);
                        self.lemma_entry_index(k as int);
                        assert forall|o: u32| before.has(o) && o != rid implies self.sink(o)
                            == before.sink(o) by {
                            let i = choose|i: int|
                                0 <= i < before.entries@.len() && before.entries@[i].0 == o;
                            before.lemma_entry_index(i);
                            assert(self.entries@[i].0 == o);
                            self.lemma_entry_index(i);
                        }
                        assert(self.sink(rid).calls() == before.sink(rid).calls().push(
                            bv[j as int].1,
                        ));
                        assert(self.sink(rid).results() == before.sink(rid).results().push(res));
                        assert forall|o: u32| before.has(o) && o != rid implies self.sink(o)
                            .results() == before.sink(o).results() by {}
                        lemma_log_of_push(step, bv[j as int], pre.ids());
                        assert forall|id: u32| #[trigger] pre.has(id) implies self.sink(
                            id,
                        ).calls() == pre.sink(id).calls() + payloads_for(bv.take(j + 1), id) by {
                            lemma_payloads_for_push(step, bv[j as int], id);
                            if id == rid {
                                assert(pre.sink(id).calls() + payloads_for(step, id).push(
                                    bv[j as int].1,
                                ) =~= (pre.sink(id).calls() + payloads_for(step, id)).push(
                                    bv[j as int].1,
                                ));
                            }
                        }
                    }
                    if let Err(e) = res {
                        proof {
                            let ghost wit: int = j as int;
                            assert(pre.ids().contains(bv[wit].0));
                            assert(self.log() =~= pre.log() + log_of(step, pre.ids()).push(
                                (bv[wit].0, bv[wit].1, false),
                            ));
                            assert(bv[wit] == (bv[wit].0, bv[wit].1));
                            assert forall|id: u32|
                                pre.has(id) && id != bv[wit].0 implies extended_all_ok(
                                (#[trigger] pre.sink(id)).results(),
                                self.sink(id).results(),
                                payloads_for(bv.take(wit + 1), id).len(),
                            ) by {
                                lemma_payloads_for_push(step, bv[wit], id);
                            }
                            assert(extended_ok_then_err(
                                pre.sink(rid).results(),
                                self.sink(rid).results(),
                                payloads_for(bv.take(wit + 1), rid).len(),
                                res,
                            )) by {
                                lemma_payloads_for_push(step, bv[wit], rid);
                                assert(pre.has(rid));
                                let pr = pre.sink(rid).results();
                                let br = before.sink(rid).results();
                                let sr = self.sink(rid).results();
                                assert(extended_all_ok(pr, br, payloads_for(step, rid).len()));
                                assert(sr == br.push(res));
                                assert(sr.len() == br.len() + 1);
                                assert forall|k: int| 0 <= k < pr.len() implies sr[k] == pr[k] by {
                                    assert(sr[k] == br[k]);
                                }
                                assert forall|k: int| pr.len() <= k < sr.len() - 1 implies (
                                #[trigger] sr[k]) is Ok by {
                                    assert(sr[k] == br[k]);
                                    assert(br[k] is Ok);
                                }
                                assert(sr.last() == res);
                            }
                        }
                        return Err(e);
                    }
                    proof {
                        assert(self.log() =~= pre.log() + log_of(bv.take(j + 1), pre.ids()));
                        assert forall|id: u32| #[trigger] pre.has(id) implies extended_all_ok(
                            pre.sink(id).results(),
                            self.sink(id).results(),
                            payloads_for(bv.take(j + 1), id).len(),
                        ) by {
                            lemma_payloads_for_push(step, bv[j as int], id);
                            if id == rid {
                                let pr = pre.sink(id).results();
                                let br = before.sink(id).results();
                                let sr = self.sink(id).results();
                                assert(sr == br.push(res));
                                assert forall|k: int| pr.len() <= k < sr.len() implies (
                                #[trigger] sr[k]) is Ok by {
                                    if k < br.len() {
                                        assert(sr[k] == br[k]);
                                    } else {
                                        assert(sr[k] == res);
                                    }
                                }
                            }
                        }
                    }
                },
            }
            j = j + 1;
        }
        proof {
            assert(bv.take(batch@.len() as int) =~= bv);
        }
        Ok(())
    }
}

} // verus!
