//! Spec-level description of one engine output batch and of the deliveries
//! the router makes from it.
//!
//! A batch is an ordered sequence of `(recipient identifier, payload)` pairs.
//! Delivery walks the batch in order, skips entries whose recipient has no
//! registry entry, and stops at the first sink failure.

use vstd::prelude::*;

verus! {

/// The spec-level image of an engine output batch: recipient identifier and
/// payload bytes, in delivery order.
pub open spec fn batch_view(batch: Seq<(u32, Vec<u8>)>) -> Seq<(u32, Seq<u8>)> {
    batch.map_values(|e: (u32, Vec<u8>)| (e.0, e.1@))
}

/// The payloads addressed to `id` among the entries of `batch`, in batch
/// order. These are exactly the payloads `id`'s sink is handed when every
/// delivery of the batch succeeds.
pub open spec fn payloads_for(batch: Seq<(u32, Seq<u8>)>, id: u32) -> Seq<Seq<u8>>
    decreases batch.len(),
{
    if batch.len() == 0 {
        Seq::empty()
    } else {
        let rest = payloads_for(batch.drop_last(), id);
        if batch.last().0 == id {
            rest.push(batch.last().1)
        } else {
            rest
        }
    }
}

/// The entries of `batch` whose recipient is currently registered (a member
/// of `ids`), in batch order: the deliveries the router attempts. Entries
/// addressed to an unregistered identifier are silently dropped.
pub open spec fn routable(batch: Seq<(u32, Seq<u8>)>, ids: Set<u32>) -> Seq<(u32, Seq<u8>)>
    decreases batch.len(),
{
    if batch.len() == 0 {
        Seq::empty()
    } else {
        let rest = routable(batch.drop_last(), ids);
        if ids.contains(batch.last().0) {
            rest.push(batch.last())
        } else {
            rest
        }
    }
}

/// The delivery record a batch leaves behind when every delivery succeeds:
/// one record `(recipient, payload, succeeded)` per routable entry, in batch
/// order, each marked successful.
pub open spec fn log_of(batch: Seq<(u32, Seq<u8>)>, ids: Set<u32>) -> Seq<(u32, Seq<u8>, bool)> {
    routable(batch, ids).map_values(|e: (u32, Seq<u8>)| (e.0, e.1, true))
}

/// Appending one entry to a batch appends its payload to the payloads of its
/// recipient and leaves every other recipient's payloads unchanged.
pub proof fn lemma_payloads_for_push(batch: Seq<(u32, Seq<u8>)>, e: (u32, Seq<u8>), id: u32)
    ensures
        e.0 == id ==> payloads_for(batch.push(e), id) == payloads_for(batch, id).push(e.1),
        e.0 != id ==> payloads_for(batch.push(e), id) == payloads_for(batch, id),
{
    assert(batch.push(e).drop_last() =~= batch);
    assert(batch.push(e).last() == e);
}

/// Appending one entry to a batch appends it to the routable entries exactly
/// when its recipient is registered.
pub proof fn lemma_routable_push(batch: Seq<(u32, Seq<u8>)>, e: (u32, Seq<u8>), ids: Set<u32>)
    ensures
        ids.contains(e.0) ==> routable(batch.push(e), ids) == routable(batch, ids).push(e),
        !ids.contains(e.0) ==> routable(batch.push(e), ids) == routable(batch, ids),
{
    assert(batch.push(e).drop_last() =~= batch);
    assert(batch.push(e).last() == e);
}

/// The all-successful delivery record grows by one successful record exactly
/// when the appended entry's recipient is registered.
pub proof fn lemma_log_of_push(batch: Seq<(u32, Seq<u8>)>, e: (u32, Seq<u8>), ids: Set<u32>)
    ensures
        ids.contains(e.0) ==> log_of(batch.push(e), ids) == log_of(batch, ids).push((e.0, e.1, true)),
        !ids.contains(e.0) ==> log_of(batch.push(e), ids) == log_of(batch, ids),
{
    lemma_routable_push(batch, e, ids);
    if ids.contains(e.0) {
        assert(routable(batch, ids).push(e).map_values(|x: (u32, Seq<u8>)| (x.0, x.1, true))
            =~= routable(batch, ids).map_values(|x: (u32, Seq<u8>)| (x.0, x.1, true)).push((
            e.0,
            e.1,
            true,
        )));
    }
}

} // verus!
