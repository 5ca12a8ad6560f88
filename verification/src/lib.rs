//! Configures DDS (Data Distribution Service) domains from the room topology
//! of a ternary-state MUD.
//!
//! Each room becomes a DDS topic, rooms joined by passages share a domain, and
//! the ternary {-1, 0, +1} state drives the quality-of-service policies.
use vstd::prelude::*;

pub mod bridge_config;
pub mod domain_map;
pub mod pub_sub;
pub mod qos_policy;
pub mod room_config;
pub mod text;
pub mod topic_gen;

verus! {

// ── Core enums ──────────────────────────────────────────────────────────────
/// DDS reliability policy.
#[derive(Debug, Clone, PartialEq, Eq)]
pub enum Reliability {
    Reliable,
    BestEffort,
}

/// DDS durability policy.
#[derive(Debug, Clone, PartialEq, Eq)]
pub enum Durability {
    Volatile,
    TransientLocal,
    Persistent,
}

/// DDS history kind.
#[derive(Debug, Clone, PartialEq, Eq)]
pub enum HistoryKind {
    KeepLast(usize),
    KeepAll,
}

/// Ternary state from the mud engine: -1, 0 and +1.
#[derive(Debug, Clone, Copy, PartialEq, Eq)]
pub enum Ternary {
    Neg,
    Zero,
    Pos,
}

impl Ternary {
    /// The number the state stands for: -1, 0 or +1.
    pub open spec fn number(self) -> int {
        match self {
            Ternary::Neg => -1,
            Ternary::Zero => 0,
            Ternary::Pos => 1,
        }
    }

    /// The value of the state: -1 for `Neg`, 0 for `Zero`, +1 for `Pos`.
    pub fn value(self) -> (v: i8)
        ensures
            v as int == self.number(),
    {
        match self {
            Ternary::Neg => -1,
            Ternary::Zero => 0,
            Ternary::Pos => 1,
        }
    }
}

// ── Core structs ────────────────────────────────────────────────────────────
/// Full QoS policy derived from ternary state.
#[derive(Debug, Clone, PartialEq, Eq)]
pub struct QoSPolicy {
    pub reliability: Reliability,
    pub durability: Durability,
    pub history: HistoryKind,
    pub depth: usize,
}

/// Per-room DDS configuration.
#[derive(Debug, Clone, PartialEq, Eq)]
pub struct RoomConfig {
    pub room_id: String,
    pub topic: String,
    pub domain_id: u32,
    pub history_depth: usize,
}

/// A single DDS domain containing one or more rooms.
#[derive(Debug, Clone, PartialEq, Eq)]
pub struct Domain {
    pub id: u32,
    pub rooms: Vec<String>,
}

/// A bridge connecting two domains for specific rooms.
#[derive(Debug, Clone, PartialEq, Eq)]
pub struct DomainBridge {
    pub from_domain: u32,
    pub to_domain: u32,
    pub rooms: Vec<String>,
}

/// Full domain mapping: domains and inter-domain bridges.
#[derive(Debug, Clone, PartialEq, Eq)]
pub struct DomainMap {
    pub domains: Vec<Domain>,
    pub bridges: Vec<DomainBridge>,
}

/// A DDS topic definition generated from a room schema.
#[derive(Debug, Clone, PartialEq, Eq)]
pub struct TopicDef {
    pub name: String,
    pub data_type: String,
    pub key_fields: Vec<String>,
}

/// Complete DDS configuration.
#[derive(Debug, Clone, PartialEq, Eq)]
pub struct DDSConfig {
    pub rooms: Vec<RoomConfig>,
    pub domains: DomainMap,
    pub topics: Vec<TopicDef>,
}

/// A room in the mud topology.
#[derive(Debug, Clone, PartialEq, Eq)]
pub struct Room {
    pub id: String,
    pub name: String,
    pub agent_count: usize,
    pub schema: RoomSchema,
}

/// Room data schema for topic generation.
#[derive(Debug, Clone, PartialEq, Eq)]
pub struct RoomSchema {
    pub fields: Vec<FieldDef>,
}

/// A field in a room schema.
#[derive(Debug, Clone, PartialEq, Eq)]
pub struct FieldDef {
    pub name: String,
    pub data_type: String,
    pub is_key: bool,
}

/// A passage connecting two rooms.
#[derive(Debug, Clone, PartialEq, Eq)]
pub struct Passage {
    pub from: String,
    pub to: String,
    pub ternary: Ternary,
}

/// An agent in the system.
#[derive(Debug, Clone, PartialEq, Eq)]
pub struct Agent {
    pub id: String,
    pub room_id: String,
    pub publishes: bool,
    pub subscribes: bool,
}

/// Publisher/subscriber assignment for a room.
#[derive(Debug, Clone, PartialEq, Eq)]
pub struct PubSubAssignment {
    pub room_id: String,
    pub publishers: Vec<String>,
    pub subscribers: Vec<String>,
}

/// Full topology input.
#[derive(Debug, Clone)]
pub struct Topology {
    pub rooms: Vec<Room>,
    pub passages: Vec<Passage>,
    pub agents: Vec<Agent>,
}

} // verus!
