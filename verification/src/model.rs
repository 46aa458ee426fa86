//! Filament data model: a memory node is a braid of fact, emotion, time,
//! relation, confidence and frequency filaments.
//!
//! Real-valued filaments are carried as the IEEE-754 bit patterns of their
//! `f32` values (`f32::to_bits`), so that every byte the library stores or
//! moves is an exact integer.

use vstd::prelude::*;

verus! {

/// Tenant assigned to records written before tenants existed.
pub const DEFAULT_TENANT: &'static str = "default";

/// The filaments of one memory.
#[derive(Debug, Clone, PartialEq)]
pub struct Filaments {
    /// Fact filament: the memory content itself.
    pub fact: String,
    /// Emotion filament: valence in [-1, 1] (f32 bits).
    pub emotion_valence: u32,
    /// Emotion filament: intensity in [0, 1] (f32 bits).
    pub emotion_intensity: u32,
    /// Temporal filament: creation time (Unix seconds).
    pub created_at: i64,
    /// Temporal filament: forgetting rate per day (f32 bits).
    pub decay_rate: u32,
    /// Relation filament: topic tags.
    pub relations: Vec<String>,
    /// Confidence filament in [0, 1] (f32 bits).
    pub confidence: u32,
    /// Frequency filament: mentions in the last seven days.
    pub mentions_7d: u32,
}

/// Tension state of a memory.
#[derive(Debug, Clone, Copy, PartialEq)]
pub struct Tension {
    /// Base tension T0 in [0, 1] (f32 bits).
    pub baseline: u32,
    /// Last tension update (Unix seconds).
    pub last_updated: i64,
}

/// A memory node.
#[derive(Debug, Clone, PartialEq)]
pub struct MemoryNode {
    pub id: u64,
    pub tenant_id: String,
    pub owner_id: String,
    pub filaments: Filaments,
    pub tension: Tension,
    /// Embedding vector (f32 bits per component).
    pub embedding: Vec<u32>,
}

/// Mathematical model of a memory node: every string as its characters.
pub struct NodeModel {
    pub id: u64,
    pub tenant: Seq<char>,
    pub owner: Seq<char>,
    pub fact: Seq<char>,
    pub valence: u32,
    pub intensity: u32,
    pub created_at: i64,
    pub decay: u32,
    pub relations: Seq<Seq<char>>,
    pub confidence: u32,
    pub mentions: u32,
    pub baseline: u32,
    pub last_updated: i64,
    pub embedding: Seq<u32>,
}

/// The characters of each string of a list.
pub open spec fn strings_view(v: Seq<String>) -> Seq<Seq<char>> {
    Seq::new(v.len(), |i: int| v[i]@)
}

impl View for MemoryNode {
    type V = NodeModel;

    open spec fn view(&self) -> NodeModel {
        NodeModel {
            id: self.id,
            tenant: self.tenant_id@,
            owner: self.owner_id@,
            fact: self.filaments.fact@,
            valence: self.filaments.emotion_valence,
            intensity: self.filaments.emotion_intensity,
            created_at: self.filaments.created_at,
            decay: self.filaments.decay_rate,
            relations: strings_view(self.filaments.relations@),
            confidence: self.filaments.confidence,
            mentions: self.filaments.mentions_7d,
            baseline: self.tension.baseline,
            last_updated: self.tension.last_updated,
            embedding: self.embedding@,
        }
    }
}

/// The models of a list of nodes.
pub open spec fn nodes_view(v: Seq<MemoryNode>) -> Seq<NodeModel> {
    Seq::new(v.len(), |i: int| v[i]@)
}

} // verus!
