//! Laws of the session-identifier lifecycle.
//!
//! The router's operations transform the set of registered identifiers in
//! exactly the ways their contracts state: a creation inserts a fresh
//! identifier, a successful close removes one, request handling and polling
//! leave the set untouched. The lemmas here draw the lifecycle consequences:
//! created identifiers are pairwise distinct, an insert is never lost, no
//! entry survives its close, and a second close of the same identifier must
//! fail.

use vstd::prelude::*;

verus! {

/// One session-lifecycle operation, reduced to its effect on the set of
/// registered identifiers.
pub enum SessionOp {
    /// A session creation that registered this identifier.
    Create(u32),
    /// A successful close that removed this identifier.
    Close(u32),
    /// A request handling or poll: deliveries never change the session set.
    Deliver,
}

/// The registered-identifier set after one operation, as the contracts of
/// `Server::new_session`, `Server::close_session`, `Server::handle_request`
/// and `Server::poll` state it.
pub open spec fn apply_op(s: Set<u32>, op: SessionOp) -> Set<u32> {
    match op {
        SessionOp::Create(id) => s.insert(id),
        SessionOp::Close(id) => s.remove(id),
        SessionOp::Deliver => s,
    }
}

/// The registered-identifier set after a whole run of operations, applied in
/// order.
pub open spec fn apply_ops(s: Set<u32>, ops: Seq<SessionOp>) -> Set<u32>
    decreases ops.len(),
{
    if ops.len() == 0 {
        s
    } else {
        apply_op(apply_ops(s, ops.drop_last()), ops.last())
    }
}

/// Applying a concatenated run is applying its parts in order.
pub proof fn lemma_apply_ops_concat(s: Set<u32>, x: Seq<SessionOp>, y: Seq<SessionOp>)
    ensures
        apply_ops(s, x + y) == apply_ops(apply_ops(s, x), y),
    decreases y.len(),
{
    if y.len() == 0 {
        assert(x + y =~= x);
    } else {
        assert((x + y).drop_last() =~= x + y.drop_last());
        lemma_apply_ops_concat(s, x, y.drop_last());
        assert((x + y).last() == y.last());
    }
}

/// A registered identifier stays registered through any run that never
/// closes it.
pub proof fn lemma_stays_registered(s: Set<u32>, ops: Seq<SessionOp>, id: u32)
    requires
        s.contains(id),
        forall|m: int| 0 <= m < ops.len() ==> ops[m] != SessionOp::Close(id),
    ensures
        apply_ops(s, ops).contains(id),
    decreases ops.len(),
{
    if ops.len() > 0 {
        lemma_stays_registered(s, ops.drop_last(), id);
        assert(ops[ops.len() - 1] != SessionOp::Close(id));
    }
}

/// An unregistered identifier stays unregistered through any run that never
/// creates it.
pub proof fn lemma_stays_unregistered(s: Set<u32>, ops: Seq<SessionOp>, id: u32)
    requires
        !s.contains(id),
        forall|m: int| 0 <= m < ops.len() ==> ops[m] != SessionOp::Create(id),
    ensures
        !apply_ops(s, ops).contains(id),
    decreases ops.len(),
{
    if ops.len() > 0 {
        lemma_stays_unregistered(s, ops.drop_last(), id);
        assert(ops[ops.len() - 1] != SessionOp::Create(id));
    }
}

/// Uniqueness: two session creations in one run hand out distinct
/// identifiers, as long as the earlier identifier is not closed in between.
/// The freshness hypothesis is exactly what `Server::new_session` ensures:
/// every created identifier is unregistered at the moment of its creation.
pub proof fn lemma_created_ids_distinct(
    s: Set<u32>,
    ops: Seq<SessionOp>,
    p: int,
    q: int,
    a: u32,
    b: u32,
)
    requires
        0 <= p < q < ops.len(),
        ops[p] == SessionOp::Create(a),
        ops[q] == SessionOp::Create(b),
        forall|k: int|
            0 <= k < ops.len() ==> ((#[trigger] ops[k]) matches SessionOp::Create(id)
                ==> !apply_ops(s, ops.take(k)).contains(id)),
        forall|m: int| p < m < q ==> ops[m] != SessionOp::Close(a),
    ensures
        a != b,
{
    let after_p = apply_ops(s, ops.take(p + 1));
    assert(ops.take(p + 1).drop_last() =~= ops.take(p));
    assert(ops.take(p + 1).last() == ops[p]);
    assert(after_p.contains(a));
    let mid = ops.subrange(p + 1, q);
    lemma_stays_registered(after_p, mid, a);
    assert(ops.take(q) =~= ops.take(p + 1) + mid);
    lemma_apply_ops_concat(s, ops.take(p + 1), mid);
    assert(apply_ops(s, ops.take(q)).contains(a));
    assert(!apply_ops(s, ops.take(q)).contains(b));
}

/// No lost insert: an identifier created in a run and never closed afterwards
/// is registered at the end, whatever operations for other sessions were
/// interleaved.
pub proof fn lemma_no_lost_insert(s: Set<u32>, ops: Seq<SessionOp>, k: int, id: u32)
    requires
        0 <= k < ops.len(),
        ops[k] == SessionOp::Create(id),
        forall|m: int| k < m < ops.len() ==> ops[m] != SessionOp::Close(id),
    ensures
        apply_ops(s, ops).contains(id),
{
    let after_k = apply_ops(s, ops.take(k + 1));
    assert(ops.take(k + 1).drop_last() =~= ops.take(k));
    assert(ops.take(k + 1).last() == ops[k]);
    assert(after_k.contains(id));
    let rest = ops.subrange(k + 1, ops.len() as int);
    lemma_stays_registered(after_k, rest, id);
    assert(ops =~= ops.take(k + 1) + rest);
    lemma_apply_ops_concat(s, ops.take(k + 1), rest);
}

/// No entry for a closed identifier: an identifier closed in a run and never
/// created again afterwards is not registered at the end, whatever operations
/// for other sessions were interleaved.
pub proof fn lemma_no_entry_after_close(s: Set<u32>, ops: Seq<SessionOp>, k: int, id: u32)
    requires
        0 <= k < ops.len(),
        ops[k] == SessionOp::Close(id),
        forall|m: int| k < m < ops.len() ==> ops[m] != SessionOp::Create(id),
    ensures
        !apply_ops(s, ops).contains(id),
{
    let after_k = apply_ops(s, ops.take(k + 1));
    assert(ops.take(k + 1).drop_last() =~= ops.take(k));
    assert(ops.take(k + 1).last() == ops[k]);
    assert(!after_k.contains(id));
    let rest = ops.subrange(k + 1, ops.len() as int);
    lemma_stays_unregistered(after_k, rest, id);
    assert(ops =~= ops.take(k + 1) + rest);
    lemma_apply_ops_concat(s, ops.take(k + 1), rest);
}

/// A close is never silently repeatable: a successful close removes the
/// identifier from the session set, and `Server::close_session` admits only
/// registered identifiers and returns `Ok` exactly for them. So a second
/// close of the same identifier, with nothing re-creating it in between,
/// cannot meet the precondition — for verified callers it is an error at
/// verification time — and, reached by an unverified caller anyway, must
/// return `Err(ServerError::UnknownSession)`.
pub proof fn lemma_second_close_fails(sessions: Set<u32>, id: u32)
    ensures
        !sessions.remove(id).contains(id),
{
}

} // verus!
