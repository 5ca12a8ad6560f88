//! Derive QoS policies from ternary state.
use vstd::prelude::*;

use crate::{Durability, HistoryKind, QoSPolicy, Reliability, Ternary};

verus! {

/// Reliability for a ternary state: only +1 is reliable.
pub open spec fn reliability_of(t: Ternary) -> Reliability {
    match t {
        Ternary::Pos => Reliability::Reliable,
        Ternary::Zero | Ternary::Neg => Reliability::BestEffort,
    }
}

/// Durability for a ternary state: -1 transient-local, 0 volatile, +1 persistent.
pub open spec fn durability_of(t: Ternary) -> Durability {
    match t {
        Ternary::Neg => Durability::TransientLocal,
        Ternary::Zero => Durability::Volatile,
        Ternary::Pos => Durability::Persistent,
    }
}

/// The policy for a ternary state and a requested depth; a depth under one
/// becomes one.
pub open spec fn qos_of(t: Ternary, depth: usize) -> QoSPolicy {
    let d: usize = if depth < 1 { 1 } else { depth };
    QoSPolicy {
        reliability: reliability_of(t),
        durability: durability_of(t),
        history: HistoryKind::KeepLast(d),
        depth: d,
    }
}

/// Derive reliability from ternary state.
pub fn reliability_from_ternary(t: Ternary) -> (r: Reliability)
    ensures
        r == reliability_of(t),
{
    match t {
        Ternary::Pos => Reliability::Reliable,
        Ternary::Zero | Ternary::Neg => Reliability::BestEffort,
    }
}

/// Derive durability from ternary state.
pub fn durability_from_ternary(t: Ternary) -> (d: Durability)
    ensures
        d == durability_of(t),
{
    match t {
        Ternary::Neg => Durability::TransientLocal,
        Ternary::Zero => Durability::Volatile,
        Ternary::Pos => Durability::Persistent,
    }
}

/// Build a complete QoS policy from ternary state and depth.
pub fn qos_from_ternary(t: Ternary, depth: usize) -> (q: QoSPolicy)
    ensures
        q == qos_of(t, depth),
        q.depth >= 1,
        q.history == HistoryKind::KeepLast(q.depth),
        q.depth == (if depth < 1 {
            1
        } else {
            depth
        }),
        (q.reliability == Reliability::Reliable) <==> (t == Ternary::Pos),
        q.reliability == Reliability::Reliable || q.reliability == Reliability::BestEffort,
        t == Ternary::Neg ==> q.durability == Durability::TransientLocal,
        t == Ternary::Zero ==> q.durability == Durability::Volatile,
        t == Ternary::Pos ==> q.durability == Durability::Persistent,
{
    let depth = if depth < 1 {
        1
    } else {
        depth
    };
    QoSPolicy {
        reliability: reliability_from_ternary(t),
        durability: durability_from_ternary(t),
        history: HistoryKind::KeepLast(depth),
        depth,
    }
}

/// Convenience: default QoS (BestEffort, Volatile), the policy of state 0.
pub fn default_qos(depth: usize) -> (q: QoSPolicy)
    ensures
        q == qos_of(Ternary::Zero, depth),
        q.reliability == Reliability::BestEffort,
        q.durability == Durability::Volatile,
        q.depth == (if depth < 1 {
            1
        } else {
            depth
        }),
        q.history == HistoryKind::KeepLast(q.depth),
{
    qos_from_ternary(Ternary::Zero, depth)
}

/// Durability tells the three states apart: distinct states get distinct
/// durabilities.
pub proof fn lemma_durability_distinguishes_states(a: Ternary, b: Ternary)
    requires
        durability_of(a) == durability_of(b),
    ensures
        a == b,
{
}

/// A reliable policy comes from state +1 and from no other state.
pub proof fn lemma_reliable_only_for_pos(t: Ternary)
    ensures
        (reliability_of(t) == Reliability::Reliable) <==> (t == Ternary::Pos),
{
}

/// The policy for a state and a depth keeps the requested depth, raised to
/// one when it is zero, whatever the state; its history keeps that many
/// samples; and only state +1 is reliable, with durability transient-local,
/// volatile and persistent for -1, 0 and +1.
pub proof fn lemma_qos_policy_shape(t: Ternary, u: Ternary, depth: usize)
    ensures
        qos_of(t, depth).depth == (if depth < 1 {
            1
        } else {
            depth
        }),
        qos_of(t, depth).depth == qos_of(u, depth).depth,
        qos_of(t, depth).history == HistoryKind::KeepLast(qos_of(t, depth).depth),
        depth >= 1 ==> qos_of(t, depth).depth == depth,
        (qos_of(t, depth).reliability == Reliability::Reliable) <==> (t == Ternary::Pos),
        (qos_of(t, depth).reliability == Reliability::BestEffort) <==> (t != Ternary::Pos),
        (qos_of(t, depth).durability == Durability::TransientLocal) <==> (t == Ternary::Neg),
        (qos_of(t, depth).durability == Durability::Volatile) <==> (t == Ternary::Zero),
        (qos_of(t, depth).durability == Durability::Persistent) <==> (t == Ternary::Pos),
{
}

} // verus!
