//! Persistent graph state: replaying logged operations onto the memory
//! graph, and the snapshot format.
//!
//! Snapshot format:
//! ```text
//! SNP0 | next_local_id u32 | node_count u32
//!      | (local_id u32, payload_len u32, one-node .nylon stream)*
//!      | edge_count u32 | (from u32, to u32, weight f32)*
//! ```

use vstd::bytes::*;
use vstd::prelude::*;
use vstd::slice::*;

use crate::csr::{edges_from, find_target, lemma_find_target_index, lemma_find_target_push, unique_targets};
use crate::graph::MemoryGraph;
use crate::model::NodeModel;
use crate::wal::{
    frames_bytes, lemma_node_record, lemma_replay_frames, lemma_replay_short, node_record, op_bytes, op_encodable, read_node_record,
    replay, OpModel, WalOp, MAX_RECORD,
};
use crate::wire::{decode_error_text, decode_nodes, decoding, encode_node, le_u32, lemma_decode_encode, lemma_read_u32, node_encodable, read_u32, DecodeError};

verus! {

/// File name of the snapshot inside the data directory.
pub const SNAPSHOT_FILE: &'static str = "graph.snp";

/// Magic of the snapshot format ("SNP0").
pub const SNAPSHOT_MAGIC: [u8; 4] = [0x53, 0x4e, 0x50, 0x30];

pub open spec fn snap_magic() -> Seq<u8> {
    seq![0x53u8, 0x4eu8, 0x50u8, 0x30u8]
}

// ---------------------------------------------------------------------------
// Replaying an operation.
// ---------------------------------------------------------------------------

/// An operation that the graph can take: ids below the top of the id space,
/// room in the delta edge counter.
pub open spec fn op_applicable(g: MemoryGraph, op: OpModel) -> bool {
    match op {
        OpModel::PutNode(id, _) => id < u32::MAX,
        OpModel::PutEdge(_, _, _) => g.delta_count() < usize::MAX,
        _ => true,
    }
}

/// What replaying `op` on `g0` makes of it: the live nodes and the edges
/// of `g1`.
pub open spec fn applied(g0: MemoryGraph, g1: MemoryGraph, op: OpModel) -> bool {
    match op {
        OpModel::PutNode(id, n) => {
            &&& g1.live() == g0.live().insert(id, n)
            &&& forall|a: u32, b: u32| #[trigger] g1.edge(a, b) == g0.edge(a, b)
        },
        OpModel::UpdateNode(id, n) => {
            &&& g1.live() == if g0.live().contains_key(id) {
                g0.live().insert(id, n)
            } else {
                g0.live()
            }
            &&& forall|a: u32, b: u32| #[trigger] g1.edge(a, b) == g0.edge(a, b)
        },
        OpModel::RemoveNode(id) => {
            &&& g1.live() == g0.live().remove(id)
            &&& forall|a: u32, b: u32| a != id ==> #[trigger] g1.edge(a, b) == g0.edge(a, b)
            &&& g0.live().contains_key(id) ==> forall|t: u32| #[trigger] g1.edge(id, t) is None
            &&& !g0.live().contains_key(id) ==> forall|a: u32, b: u32| #[trigger] g1.edge(a, b) == g0.edge(a, b)
        },
        OpModel::PutEdge(from, to, w) => {
            &&& g1.live() == g0.live()
            &&& g1.edge(from, to) == Some(w)
            &&& forall|a: u32, b: u32| !(a == from && b == to) ==> #[trigger] g1.edge(a, b) == g0.edge(a, b)
        },
        OpModel::RemoveEdge(from, to) => {
            &&& g1.live() == g0.live()
            &&& g1.edge(from, to) is None
            &&& forall|a: u32, b: u32| !(a == from && b == to) ==> #[trigger] g1.edge(a, b) == g0.edge(a, b)
        },
    }
}

/// Applies one logged operation to the graph (log replay). Replaying is
/// idempotent: every operation sets state rather than adding to it (see
/// `lemma_apply_idempotent`).
pub fn apply(graph: &mut MemoryGraph, op: WalOp)
    requires
        old(graph).wf(),
        op_applicable(*old(graph), op@),
    ensures
        final(graph).wf(),
        applied(*old(graph), *final(graph), op@),
{
    match op {
        WalOp::PutNode { id, node } => graph.add_node_with_id(id, node),
        WalOp::UpdateNode { id, node } => {
            graph.update_node(id, node);
        },
        WalOp::RemoveNode { id } => {
            graph.remove_node(id);
        },
        WalOp::PutEdge { from, to, weight } => graph.add_edge(from, to, weight),
        WalOp::RemoveEdge { from, to } => {
            graph.remove_edge(from, to);
        },
    }
}

/// Two graphs read the same: the same live nodes and the same edges.
pub open spec fn same_reading(g: MemoryGraph, h: MemoryGraph) -> bool {
    &&& g.live() == h.live()
    &&& forall|a: u32, b: u32| #[trigger] g.edge(a, b) == h.edge(a, b)
}

/// `gs` is a run of replays of `ops`: each graph is what its operation made
/// of the one before.
pub open spec fn replay_run(gs: Seq<MemoryGraph>, ops: Seq<OpModel>) -> bool {
    &&& gs.len() == ops.len() + 1
    &&& forall|i: int| 0 <= i < ops.len() ==> applied(#[trigger] gs[i], gs[i + 1], ops[i])
}

/// Recovery reproduces what the writes made: two runs of the same
/// operations from graphs that read the same end in graphs that read the
/// same. A store that logs each write before making it, reopened over the
/// snapshot it started from, replays those writes (`lemma_replay_frames`)
/// and so reads as it did before it closed.
pub proof fn lemma_recovery_reads_the_same(gs: Seq<MemoryGraph>, hs: Seq<MemoryGraph>, ops: Seq<OpModel>)
    requires
        replay_run(gs, ops),
        replay_run(hs, ops),
        same_reading(gs[0], hs[0]),
    ensures
        same_reading(gs.last(), hs.last()),
    decreases ops.len(),
{
    if ops.len() > 0 {
        let n = ops.len() - 1;
        let gp = gs.take(ops.len() as int);
        let hp = hs.take(ops.len() as int);
        let op_p = ops.take(n);
        assert forall|i: int| 0 <= i < op_p.len() implies applied(#[trigger] gp[i], gp[i + 1], op_p[i]) by {
            assert(applied(gs[i], gs[i + 1], ops[i]));
        }
        assert forall|i: int| 0 <= i < op_p.len() implies applied(#[trigger] hp[i], hp[i + 1], op_p[i]) by {
            assert(applied(hs[i], hs[i + 1], ops[i]));
        }
        lemma_recovery_reads_the_same(gp, hp, op_p);
        let g0 = gs[n];
        let h0 = hs[n];
        let g1 = gs[n + 1];
        let h1 = hs[n + 1];
        assert(applied(g0, g1, ops[n]));
        assert(applied(h0, h1, ops[n]));
        assert(same_reading(g0, h0));
        match ops[n] {
            OpModel::PutNode(_, _) | OpModel::UpdateNode(_, _) => {
                assert(g1.live() =~= h1.live());
            },
            OpModel::RemoveNode(id) => {
                assert(g1.live() =~= h1.live());
                assert forall|a: u32, b: u32| #[trigger] g1.edge(a, b) == h1.edge(a, b) by {
                    if a == id && g0.live().contains_key(id) {
                        assert(g1.edge(id, b) is None && h1.edge(id, b) is None);
                    }
                }
            },
            OpModel::PutEdge(_, _, _) | OpModel::RemoveEdge(_, _) => {},
        }
    }
}

/// Reopening a store recovers it. Its log holds the frames of the writes
/// made since the snapshot it started from, perhaps followed by a torn
/// write shorter than a frame header. Replay gives back exactly those
/// writes and ends where their frames end (so the log is cut back to its
/// last sound record), and applying them to a graph that reads as the
/// snapshot's ends in a graph that reads as the store did when it closed.
pub proof fn lemma_reopen_recovers(
    ops: Seq<OpModel>,
    torn: Seq<u8>,
    before: Seq<MemoryGraph>,
    after: Seq<MemoryGraph>,
)
    requires
        forall|i: int| 0 <= i < ops.len() ==> op_encodable(#[trigger] ops[i]),
        forall|i: int| 0 <= i < ops.len() ==> (#[trigger] op_bytes(ops[i])).len() <= MAX_RECORD,
        torn.len() < 8,
        replay_run(before, ops),
        replay_run(after, replay(frames_bytes(ops) + torn).0),
        same_reading(before[0], after[0]),
    ensures
        replay(frames_bytes(ops) + torn) == (ops, frames_bytes(ops).len()),
        same_reading(before.last(), after.last()),
{
    lemma_replay_short(torn);
    lemma_replay_frames(ops, torn);
    assert(ops + Seq::<OpModel>::empty() =~= ops);
    lemma_recovery_reads_the_same(before, after, ops);
}

/// Replaying an operation a second time leaves the graph as the first
/// replay left it: the live nodes and every edge are the same.
pub proof fn lemma_apply_idempotent(g0: MemoryGraph, g1: MemoryGraph, g2: MemoryGraph, op: OpModel)
    requires
        applied(g0, g1, op),
        applied(g1, g2, op),
    ensures
        g2.live() == g1.live(),
        forall|a: u32, b: u32| #[trigger] g2.edge(a, b) == g1.edge(a, b),
{
    match op {
        OpModel::PutNode(_, _) | OpModel::UpdateNode(_, _) => {
            assert(g2.live() =~= g1.live());
        },
        OpModel::RemoveNode(id) => {
            assert(g2.live() =~= g1.live());
            assert(!g1.live().contains_key(id));
        },
        OpModel::PutEdge(from, to, w) => {
            assert forall|a: u32, b: u32| #[trigger] g2.edge(a, b) == g1.edge(a, b) by {}
        },
        OpModel::RemoveEdge(from, to) => {
            assert forall|a: u32, b: u32| #[trigger] g2.edge(a, b) == g1.edge(a, b) by {}
        },
    }
}

// ---------------------------------------------------------------------------
// Snapshot format, as bytes.
// ---------------------------------------------------------------------------

pub open spec fn snap_node_bytes(e: (u32, NodeModel)) -> Seq<u8> {
    le_u32(e.0) + le_u32(node_record(e.1).len() as u32) + node_record(e.1)
}

pub open spec fn snap_nodes_bytes(ns: Seq<(u32, NodeModel)>) -> Seq<u8>
    decreases ns.len(),
{
    if ns.len() == 0 {
        Seq::empty()
    } else {
        snap_nodes_bytes(ns.drop_last()) + snap_node_bytes(ns.last())
    }
}

pub open spec fn snap_edge_bytes(e: (u32, u32, u32)) -> Seq<u8> {
    le_u32(e.0) + le_u32(e.1) + le_u32(e.2)
}

pub open spec fn snap_edges_bytes(es: Seq<(u32, u32, u32)>) -> Seq<u8>
    decreases es.len(),
{
    if es.len() == 0 {
        Seq::empty()
    } else {
        snap_edges_bytes(es.drop_last()) + snap_edge_bytes(es.last())
    }
}

/// The snapshot of an id allocator, nodes by id, and weighted edges.
pub open spec fn snapshot_bytes(next: u32, ns: Seq<(u32, NodeModel)>, es: Seq<(u32, u32, u32)>) -> Seq<u8> {
    snap_magic() + le_u32(next) + le_u32(ns.len() as u32) + snap_nodes_bytes(ns) + le_u32(
        es.len() as u32,
    ) + snap_edges_bytes(es)
}

// ---------------------------------------------------------------------------
// Snapshot format, as a reader.
// ---------------------------------------------------------------------------

/// Why a snapshot could not be loaded.
#[derive(Debug, Clone, Copy, PartialEq, Eq, Structural)]
pub enum SnapshotError {
    /// Shorter than the header, or the magic is not "SNP0".
    BadHeader,
    /// A node entry runs past the end of the data.
    TruncatedNode,
    /// A node payload is not a valid `.nylon` stream.
    NodeDecode(DecodeError),
    /// A node payload does not hold exactly one node.
    NodeCountMismatch,
    /// A node id at the top of the id space, which the allocator cannot pass.
    NodeIdOutOfRange,
    /// The edge count is missing.
    TruncatedEdges,
    /// An edge entry runs past the end of the data.
    TruncatedEdge,
}

/// The description of a snapshot error.
pub open spec fn snapshot_error_text(e: SnapshotError) -> Seq<char> {
    match e {
        SnapshotError::BadHeader => "bad snapshot header"@,
        SnapshotError::TruncatedNode => "truncated snapshot node"@,
        SnapshotError::NodeDecode(d) => decode_error_text(d),
        SnapshotError::NodeCountMismatch => "snapshot node payload count mismatch"@,
        SnapshotError::NodeIdOutOfRange => "snapshot node id out of range"@,
        SnapshotError::TruncatedEdges => "truncated snapshot edges"@,
        SnapshotError::TruncatedEdge => "truncated snapshot edge"@,
    }
}

impl SnapshotError {
    /// Human-readable description of the error.
    pub fn describe(&self) -> (r: &'static str)
        ensures
            r@ == snapshot_error_text(*self),
    {
        match self {
            SnapshotError::BadHeader => "bad snapshot header",
            SnapshotError::TruncatedNode => "truncated snapshot node",
            SnapshotError::NodeDecode(e) => e.describe(),
            SnapshotError::NodeCountMismatch => "snapshot node payload count mismatch",
            SnapshotError::NodeIdOutOfRange => "snapshot node id out of range",
            SnapshotError::TruncatedEdges => "truncated snapshot edges",
            SnapshotError::TruncatedEdge => "truncated snapshot edge",
        }
    }
}

pub open spec fn take_u32(s: Seq<u8>) -> Option<(u32, Seq<u8>)> {
    if s.len() < 4 {
        None
    } else {
        Some((spec_u32_from_le_bytes(s.take(4)), s.skip(4)))
    }
}

pub open spec fn read_snap_node(s: Seq<u8>) -> Result<((u32, NodeModel), Seq<u8>), SnapshotError> {
    match take_u32(s) {
        None => Err(SnapshotError::TruncatedNode),
        Some((id, r1)) => match take_u32(r1) {
            None => Err(SnapshotError::TruncatedNode),
            Some((len, r2)) => if len > r2.len() {
                Err(SnapshotError::TruncatedNode)
            } else {
                match decoding(r2.take(len as int)) {
                    Err(e) => Err(SnapshotError::NodeDecode(e)),
                    Ok(ns) => if ns.len() != 1 {
                        Err(SnapshotError::NodeCountMismatch)
                    } else if id == u32::MAX {
                        Err(SnapshotError::NodeIdOutOfRange)
                    } else {
                        Ok(((id, ns[0]), r2.skip(len as int)))
                    },
                }
            },
        },
    }
}

/// The first `k` node entries of `s`, and what follows them.
pub open spec fn read_snap_nodes(s: Seq<u8>, k: nat) -> Result<(Seq<(u32, NodeModel)>, Seq<u8>), SnapshotError>
    decreases k,
{
    if k == 0 {
        Ok((Seq::empty(), s))
    } else {
        match read_snap_nodes(s, (k - 1) as nat) {
            Err(e) => Err(e),
            Ok((ns, r)) => match read_snap_node(r) {
                Err(e) => Err(e),
                Ok((x, r2)) => Ok((ns.push(x), r2)),
            },
        }
    }
}

pub open spec fn read_snap_edge(s: Seq<u8>) -> Result<((u32, u32, u32), Seq<u8>), SnapshotError> {
    match take_u32(s) {
        None => Err(SnapshotError::TruncatedEdge),
        Some((a, r1)) => match take_u32(r1) {
            None => Err(SnapshotError::TruncatedEdge),
            Some((b, r2)) => match take_u32(r2) {
                None => Err(SnapshotError::TruncatedEdge),
                Some((w, r3)) => Ok(((a, b, w), r3)),
            },
        },
    }
}

/// The first `k` edge entries of `s`, and what follows them.
pub open spec fn read_snap_edges(s: Seq<u8>, k: nat) -> Result<(Seq<(u32, u32, u32)>, Seq<u8>), SnapshotError>
    decreases k,
{
    if k == 0 {
        Ok((Seq::empty(), s))
    } else {
        match read_snap_edges(s, (k - 1) as nat) {
            Err(e) => Err(e),
            Ok((es, r)) => match read_snap_edge(r) {
                Err(e) => Err(e),
                Ok((x, r2)) => Ok((es.push(x), r2)),
            },
        }
    }
}

/// The meaning of a snapshot: the stored id allocator, the node entries and
/// the edge entries. Bytes after the last edge are ignored.
pub open spec fn parse_snapshot(b: Seq<u8>) -> Result<(u32, Seq<(u32, NodeModel)>, Seq<(u32, u32, u32)>), SnapshotError> {
    if b.len() < 12 || b.take(4) != snap_magic() {
        Err(SnapshotError::BadHeader)
    } else {
        let next = spec_u32_from_le_bytes(b.subrange(4, 8));
        let count = spec_u32_from_le_bytes(b.subrange(8, 12));
        match read_snap_nodes(b.skip(12), count as nat) {
            Err(e) => Err(e),
            Ok((ns, r)) => match take_u32(r) {
                None => Err(SnapshotError::TruncatedEdges),
                Some((ec, r2)) => match read_snap_edges(r2, ec as nat) {
                    Err(e) => Err(e),
                    Ok((es, _)) => Ok((next, ns, es)),
                },
            },
        }
    }
}

// ---------------------------------------------------------------------------
// The graph that a snapshot describes.
// ---------------------------------------------------------------------------

/// Nodes stored by id, a later entry for an id replacing an earlier one.
pub open spec fn build_live(ns: Seq<(u32, NodeModel)>) -> Map<u32, NodeModel>
    decreases ns.len(),
{
    if ns.len() == 0 {
        Map::empty()
    } else {
        build_live(ns.drop_last()).insert(ns.last().0, ns.last().1)
    }
}

/// One past the largest node id (zero for none).
pub open spec fn ids_bound(ns: Seq<(u32, NodeModel)>) -> nat
    decreases ns.len(),
{
    if ns.len() == 0 {
        0
    } else {
        let b = ids_bound(ns.drop_last());
        if ns.last().0 + 1 > b {
            (ns.last().0 + 1) as nat
        } else {
            b
        }
    }
}

/// The weight of the last entry for `from -> to`.
pub open spec fn last_weight(es: Seq<(u32, u32, u32)>, from: u32, to: u32) -> Option<u32>
    decreases es.len(),
{
    if es.len() == 0 {
        None
    } else if es.last().0 == from && es.last().1 == to {
        Some(es.last().2)
    } else {
        last_weight(es.drop_last(), from, to)
    }
}

/// `ns` and `es` list the live nodes (ids ascending) and the edges between
/// live nodes (one entry per pair) of `g`.
pub open spec fn snapshot_lists_of(g: MemoryGraph, ns: Seq<(u32, NodeModel)>, es: Seq<(u32, u32, u32)>) -> bool {
    &&& forall|i: int, j: int| 0 <= i < j < ns.len() ==> ns[i].0 < ns[j].0
    &&& forall|i: int| 0 <= i < ns.len() ==> g.live().contains_key(#[trigger] ns[i].0) && ns[i].1 == g.live()[ns[i].0]
    &&& forall|id: u32| g.live().contains_key(id) ==> exists|i: int| 0 <= i < ns.len() && #[trigger] ns[i].0 == id
    &&& forall|s: int| unique_targets(#[trigger] edges_from(es, s))
    &&& forall|s: u32, t: u32| #[trigger] find_target(edges_from(es, s as int), t) == g.live_edge(s, t)
}


// ---------------------------------------------------------------------------
// Laws: a snapshot reads back as what was written.
// ---------------------------------------------------------------------------

proof fn lemma_take_u32(x: u32, rest: Seq<u8>)
    ensures
        take_u32(le_u32(x) + rest) == Some((x, rest)),
{
    lemma_read_u32(x, rest);
    assert(read_u32(le_u32(x) + rest) == Ok::<(u32, Seq<u8>), DecodeError>((x, rest)));
}

proof fn lemma_read_snap_node(e: (u32, NodeModel), rest: Seq<u8>)
    requires
        node_encodable(e.1),
        node_record(e.1).len() <= u32::MAX,
        e.0 < u32::MAX,
    ensures
        read_snap_node(snap_node_bytes(e) + rest) == Ok::<((u32, NodeModel), Seq<u8>), SnapshotError>((e, rest)),
{
    let rec = node_record(e.1);
    let len = rec.len() as u32;
    let b = snap_node_bytes(e) + rest;
    assert(b =~= le_u32(e.0) + (le_u32(len) + (rec + rest)));
    lemma_take_u32(e.0, le_u32(len) + (rec + rest));
    lemma_take_u32(len, rec + rest);
    assert((rec + rest).take(len as int) =~= rec);
    assert((rec + rest).skip(len as int) =~= rest);
    reveal(node_record);
    assert(seq![e.1].len() <= u64::MAX);
    lemma_decode_encode(seq![e.1]);
}

proof fn lemma_read_snap_nodes(ns: Seq<(u32, NodeModel)>, rest: Seq<u8>)
    requires
        forall|i: int| 0 <= i < ns.len() ==> node_encodable(#[trigger] ns[i].1) && node_record(ns[i].1).len() <= u32::MAX && ns[i].0 < u32::MAX,
    ensures
        read_snap_nodes(snap_nodes_bytes(ns) + rest, ns.len()) == Ok::<(Seq<(u32, NodeModel)>, Seq<u8>), SnapshotError>((ns, rest)),
    decreases ns.len(),
{
    if ns.len() == 0 {
        assert(snap_nodes_bytes(ns) + rest =~= rest);
        assert(ns =~= Seq::<(u32, NodeModel)>::empty());
    } else {
        let init = ns.drop_last();
        let last = ns.last();
        let rest2 = snap_node_bytes(last) + rest;
        assert forall|i: int| 0 <= i < init.len() implies node_encodable(#[trigger] init[i].1) && node_record(init[i].1).len() <= u32::MAX && init[i].0 < u32::MAX by {
            assert(init[i] == ns[i]);
        }
        lemma_read_snap_nodes(init, rest2);
        let whole = snap_nodes_bytes(ns) + rest;
        assert(whole =~= snap_nodes_bytes(init) + rest2);
        assert(node_encodable(ns[ns.len() - 1].1));
        lemma_read_snap_node(last, rest);
        assert(read_snap_nodes(whole, (ns.len() - 1) as nat) == Ok::<(Seq<(u32, NodeModel)>, Seq<u8>), SnapshotError>((init, rest2)));
        assert(init.push(last) =~= ns);
        assert(read_snap_nodes(whole, ns.len()) == Ok::<(Seq<(u32, NodeModel)>, Seq<u8>), SnapshotError>((init.push(last), rest)));
    }
}

proof fn lemma_read_snap_edge(e: (u32, u32, u32), rest: Seq<u8>)
    ensures
        read_snap_edge(snap_edge_bytes(e) + rest) == Ok::<((u32, u32, u32), Seq<u8>), SnapshotError>((e, rest)),
{
    assert(snap_edge_bytes(e) + rest =~= le_u32(e.0) + (le_u32(e.1) + (le_u32(e.2) + rest)));
    lemma_take_u32(e.0, le_u32(e.1) + (le_u32(e.2) + rest));
    lemma_take_u32(e.1, le_u32(e.2) + rest);
    lemma_take_u32(e.2, rest);
}

proof fn lemma_read_snap_edges(es: Seq<(u32, u32, u32)>, rest: Seq<u8>)
    ensures
        read_snap_edges(snap_edges_bytes(es) + rest, es.len()) == Ok::<(Seq<(u32, u32, u32)>, Seq<u8>), SnapshotError>((es, rest)),
    decreases es.len(),
{
    if es.len() == 0 {
        assert(snap_edges_bytes(es) + rest =~= rest);
        assert(es =~= Seq::<(u32, u32, u32)>::empty());
    } else {
        let init = es.drop_last();
        let last = es.last();
        let rest2 = snap_edge_bytes(last) + rest;
        lemma_read_snap_edges(init, rest2);
        let whole = snap_edges_bytes(es) + rest;
        assert(whole =~= snap_edges_bytes(init) + rest2);
        lemma_read_snap_edge(last, rest);
        assert(read_snap_edges(whole, (es.len() - 1) as nat) == Ok::<(Seq<(u32, u32, u32)>, Seq<u8>), SnapshotError>((init, rest2)));
        assert(init.push(last) =~= es);
        assert(read_snap_edges(whole, es.len()) == Ok::<(Seq<(u32, u32, u32)>, Seq<u8>), SnapshotError>((init.push(last), rest)));
    }
}

/// A snapshot parses back into the allocator, nodes and edges it was
/// written from, whenever every length it stores in a `u32` fits in one.
pub proof fn lemma_parse_snapshot(next: u32, ns: Seq<(u32, NodeModel)>, es: Seq<(u32, u32, u32)>)
    requires
        ns.len() <= u32::MAX,
        es.len() <= u32::MAX,
        forall|i: int| 0 <= i < ns.len() ==> node_encodable(#[trigger] ns[i].1) && node_record(ns[i].1).len() <= u32::MAX && ns[i].0 < u32::MAX,
    ensures
        parse_snapshot(snapshot_bytes(next, ns, es)) == Ok::<(u32, Seq<(u32, NodeModel)>, Seq<(u32, u32, u32)>), SnapshotError>((next, ns, es)),
{
    let b = snapshot_bytes(next, ns, es);
    let body = snap_nodes_bytes(ns) + (le_u32(es.len() as u32) + snap_edges_bytes(es));
    lemma_auto_spec_u32_to_from_le_bytes();
    assert(b =~= snap_magic() + le_u32(next) + le_u32(ns.len() as u32) + body);
    assert(b.take(4) =~= snap_magic());
    assert(b.subrange(4, 8) =~= le_u32(next));
    assert(b.subrange(8, 12) =~= le_u32(ns.len() as u32));
    assert(b.skip(12) =~= body);
    lemma_read_snap_nodes(ns, le_u32(es.len() as u32) + snap_edges_bytes(es));
    lemma_take_u32(es.len() as u32, snap_edges_bytes(es));
    lemma_read_snap_edges(es, Seq::empty());
    assert(snap_edges_bytes(es) + Seq::<u8>::empty() =~= snap_edges_bytes(es));
}

proof fn lemma_build_live(ns: Seq<(u32, NodeModel)>)
    ensures
        forall|id: u32| #[trigger] build_live(ns).contains_key(id) <==> exists|i: int| 0 <= i < ns.len() && ns[i].0 == id,
        (forall|i: int, j: int| 0 <= i < j < ns.len() ==> ns[i].0 != ns[j].0) ==> forall|i: int| 0 <= i < ns.len() ==> #[trigger] build_live(ns)[ns[i].0] == ns[i].1,
    decreases ns.len(),
{
    if ns.len() > 0 {
        let init = ns.drop_last();
        lemma_build_live(init);
        assert forall|id: u32| #[trigger] build_live(ns).contains_key(id) <==> exists|i: int| 0 <= i < ns.len() && ns[i].0 == id by {
            if build_live(init).contains_key(id) {
                let i = choose|i: int| 0 <= i < init.len() && init[i].0 == id;
                assert(ns[i].0 == id);
            }
            if exists|i: int| 0 <= i < ns.len() && ns[i].0 == id {
                let i = choose|i: int| 0 <= i < ns.len() && ns[i].0 == id;
                if i < ns.len() - 1 {
                    assert(init[i].0 == id);
                }
            }
        }
        if forall|i: int, j: int| 0 <= i < j < ns.len() ==> ns[i].0 != ns[j].0 {
            assert forall|i: int, j: int| 0 <= i < j < init.len() implies init[i].0 != init[j].0 by {
                assert(init[i] == ns[i] && init[j] == ns[j]);
            }
            assert forall|i: int| 0 <= i < ns.len() implies #[trigger] build_live(ns)[ns[i].0] == ns[i].1 by {
                if i < ns.len() - 1 {
                    assert(init[i] == ns[i]);
                    assert(ns[i].0 != ns[ns.len() - 1].0);
                    assert(build_live(init)[init[i].0] == init[i].1);
                }
            }
        }
    }
}

proof fn lemma_ids_bound(ns: Seq<(u32, NodeModel)>, next: u32)
    requires
        forall|i: int| 0 <= i < ns.len() ==> (#[trigger] ns[i]).0 < next,
    ensures
        ids_bound(ns) <= next,
    decreases ns.len(),
{
    if ns.len() > 0 {
        let init = ns.drop_last();
        assert forall|i: int| 0 <= i < init.len() implies (#[trigger] init[i]).0 < next by {
            assert(init[i] == ns[i]);
        }
        lemma_ids_bound(init, next);
        assert(ns[ns.len() - 1].0 < next);
    }
}

proof fn lemma_ascending_len(ns: Seq<(u32, NodeModel)>)
    requires
        forall|i: int, j: int| 0 <= i < j < ns.len() ==> ns[i].0 < ns[j].0,
    ensures
        forall|i: int| 0 <= i < ns.len() ==> i <= (#[trigger] ns[i]).0,
    decreases ns.len(),
{
    if ns.len() > 0 {
        let init = ns.drop_last();
        assert forall|i: int, j: int| 0 <= i < j < init.len() implies init[i].0 < init[j].0 by {
            assert(init[i] == ns[i] && init[j] == ns[j]);
        }
        lemma_ascending_len(init);
        assert forall|i: int| 0 <= i < ns.len() implies i <= (#[trigger] ns[i]).0 by {
            if i < ns.len() - 1 {
                assert(init[i] == ns[i]);
            } else if i > 0 {
                assert(init[i - 1] == ns[i - 1]);
                assert(ns[i - 1].0 < ns[i].0);
            }
        }
    }
}

proof fn lemma_last_weight(es: Seq<(u32, u32, u32)>, s: u32, t: u32)
    requires
        unique_targets(edges_from(es, s as int)),
    ensures
        last_weight(es, s, t) == find_target(edges_from(es, s as int), t),
    decreases es.len(),
{
    if es.len() > 0 {
        let init = es.drop_last();
        let e = es.last();
        let l0 = edges_from(init, s as int);
        let l = edges_from(es, s as int);
        assert(unique_targets(l0)) by {
            assert forall|i: int, j: int| 0 <= i < j < l0.len() implies l0[i].0 != l0[j].0 by {
                assert(l[i] == l0[i] && l[j] == l0[j]);
            }
        }
        lemma_last_weight(init, s, t);
        if e.0 == s {
            assert(l == l0.push((e.1, e.2)));
            lemma_find_target_push(l0, (e.1, e.2), t);
            if e.1 == t {
                lemma_find_target_index(l0, t);
                if find_target(l0, t) is Some {
                    let k = choose|k: int| 0 <= k < l0.len() && l0[k].0 == t;
                    assert(l[k].0 == l[l0.len() as int].0);
                }
            }
        } else {
            assert(l =~= l0);
        }
    }
}

/// The central law of checkpoints: the snapshot of a graph parses back
/// into exactly its live nodes, its id allocator and the edges between its
/// live nodes, so that a graph loaded from it reads the same.
pub proof fn lemma_snapshot_roundtrip(g: MemoryGraph, ns: Seq<(u32, NodeModel)>, es: Seq<(u32, u32, u32)>)
    requires
        g.wf(),
        snapshot_lists_of(g, ns, es),
        es.len() <= u32::MAX,
        forall|id: u32| #[trigger] g.live().contains_key(id) ==> node_encodable(g.live()[id]) && node_record(g.live()[id]).len() <= u32::MAX,
    ensures
        parse_snapshot(snapshot_bytes(g.next_id(), ns, es)) == Ok::<(u32, Seq<(u32, NodeModel)>, Seq<(u32, u32, u32)>), SnapshotError>((g.next_id(), ns, es)),
        build_live(ns) == g.live(),
        ids_bound(ns) <= g.next_id(),
        forall|s: u32, t: u32| #[trigger] last_weight(es, s, t) == g.live_edge(s, t),
{
    g.lemma_live_below_next();
    assert forall|i: int| 0 <= i < ns.len() implies (#[trigger] ns[i]).0 < g.next_id() by {
        assert(g.live().contains_key(ns[i].0));
    }
    lemma_ascending_len(ns);
    if ns.len() > 0 {
        assert(ns[ns.len() - 1].0 < g.next_id());
    }
    assert forall|i: int| 0 <= i < ns.len() implies node_encodable(#[trigger] ns[i].1) && node_record(ns[i].1).len() <= u32::MAX && ns[i].0 < u32::MAX by {
        assert(g.live().contains_key(ns[i].0));
        assert(ns[i].0 < g.next_id());
    }
    lemma_parse_snapshot(g.next_id(), ns, es);
    lemma_build_live(ns);
    assert(build_live(ns) =~= g.live()) by {
        assert forall|id: u32| build_live(ns).contains_key(id) implies g.live().contains_key(id) && build_live(ns)[id] == g.live()[id] by {
            let i = choose|i: int| 0 <= i < ns.len() && ns[i].0 == id;
            assert(g.live().contains_key(ns[i].0));
        }
        assert forall|id: u32| g.live().contains_key(id) implies build_live(ns).contains_key(id) by {
            let i = choose|i: int| 0 <= i < ns.len() && #[trigger] ns[i].0 == id;
        }
    }
    lemma_ids_bound(ns, g.next_id());
    assert forall|s: u32, t: u32| #[trigger] last_weight(es, s, t) == g.live_edge(s, t) by {
        lemma_last_weight(es, s, t);
    }
}

/// What a restore gives back: a graph loaded from the snapshot of `g` has
/// the same live nodes and the same edges between them, so its node and
/// edge counts match those of `g`.
pub proof fn lemma_restore_keeps_counts(
    g: MemoryGraph,
    ns: Seq<(u32, NodeModel)>,
    es: Seq<(u32, u32, u32)>,
    restored: MemoryGraph,
)
    requires
        g.wf(),
        snapshot_lists_of(g, ns, es),
        es.len() <= u32::MAX,
        forall|id: u32| #[trigger] g.live().contains_key(id) ==> node_encodable(g.live()[id]) && node_record(g.live()[id]).len() <= u32::MAX,
        loaded_from(restored, g.next_id(), ns, es),
    ensures
        restored.live() == g.live(),
        forall|s: u32, t: u32| #[trigger] restored.live_edge(s, t) == g.live_edge(s, t),
        restored.live().dom().len() == g.live().dom().len(),
        restored.live_edge_count() == g.live_edge_count(),
{
    lemma_snapshot_roundtrip(g, ns, es);
    assert forall|s: u32, t: u32| #[trigger] restored.live_edge(s, t) == g.live_edge(s, t) by {
        assert(restored.edge(s, t) == last_weight(es, s, t));
    }
    assert(restored.live_pairs() =~= g.live_pairs()) by {
        assert forall|p: (u32, u32)| #[trigger] restored.live_pairs().contains(p) <==> g.live_pairs().contains(p) by {
            assert(restored.live_edge(p.0, p.1) == g.live_edge(p.0, p.1));
        }
    }
}


proof fn lemma_snap_nodes_err(s: Seq<u8>, k: nat, k2: nat)
    requires
        k <= k2,
        read_snap_nodes(s, k) is Err,
    ensures
        read_snap_nodes(s, k2) == read_snap_nodes(s, k),
    decreases k2,
{
    if k2 > k {
        lemma_snap_nodes_err(s, k, (k2 - 1) as nat);
    }
}

proof fn lemma_snap_edges_err(s: Seq<u8>, k: nat, k2: nat)
    requires
        k <= k2,
        read_snap_edges(s, k) is Err,
    ensures
        read_snap_edges(s, k2) == read_snap_edges(s, k),
    decreases k2,
{
    if k2 > k {
        lemma_snap_edges_err(s, k, (k2 - 1) as nat);
    }
}

// ---------------------------------------------------------------------------
// Executable snapshot codec.
// ---------------------------------------------------------------------------

fn push_u32(buf: &mut Vec<u8>, v: u32)
    ensures
        final(buf)@ == old(buf)@ + le_u32(v),
{
    let b = u32_to_le_bytes(v);
    buf.extend_from_slice(b.as_slice());
    assert(buf@ =~= old(buf)@ + le_u32(v));
}

/// The snapshot of a graph: its id allocator, its live nodes (ids
/// ascending) and the edges between its live nodes.
pub fn encode_snapshot(g: &MemoryGraph) -> (r: Vec<u8>)
    requires
        g.wf(),
    ensures
        exists|ns: Seq<(u32, NodeModel)>, es: Seq<(u32, u32, u32)>|
            snapshot_lists_of(*g, ns, es) && r@ == snapshot_bytes(g.next_id(), ns, es),
{
    let mut buf: Vec<u8> = Vec::new();
    buf.extend_from_slice(&SNAPSHOT_MAGIC);
    assert(buf@ =~= snap_magic());
    push_u32(&mut buf, g.peek_next_local_id());
    let ids = g.live_ids();
    push_u32(&mut buf, ids.len() as u32);
    let ghost head = buf@;
    let ghost mut ns: Seq<(u32, NodeModel)> = Seq::empty();
    let mut k: usize = 0;
    while k < ids.len()
        invariant
            g.wf(),
            k <= ids@.len(),
            forall|i: int, j: int| 0 <= i < j < ids@.len() ==> ids@[i] < ids@[j],
            forall|id: u32| ids@.contains(id) <==> g.live().contains_key(id),
            ns.len() == k,
            forall|i: int| 0 <= i < k ==> (#[trigger] ns[i]).0 == ids@[i] && ns[i].1 == g.live()[ids@[i]],
            buf@ == head + snap_nodes_bytes(ns),
        decreases ids@.len() - k,
    {
        let id = ids[k];
        assert(ids@.contains(id));
        match g.get_node(id) {
            Some(node) => {
                let ghost prev = buf@;
                push_u32(&mut buf, id);
                let nb = encode_node(node);
                proof {
                    reveal(node_record);
                }
                push_u32(&mut buf, nb.len() as u32);
                buf.extend_from_slice(nb.as_slice());
                proof {
                    let e = (id, node@);
                    assert(buf@ =~= prev + snap_node_bytes(e));
                    let ns2 = ns.push(e);
                    assert(ns2.drop_last() =~= ns);
                    assert(head + snap_nodes_bytes(ns2) =~= head + snap_nodes_bytes(ns) + snap_node_bytes(e));
                    ns = ns2;
                }
            },
            None => {
                proof {
                    assert(false);
                }
            },
        }
        k = k + 1;
    }
    let edges = g.live_edges();
    push_u32(&mut buf, edges.len() as u32);
    let ghost mid = buf@;
    let mut m: usize = 0;
    while m < edges.len()
        invariant
            m <= edges@.len(),
            buf@ == mid + snap_edges_bytes(edges@.take(m as int)),
        decreases edges@.len() - m,
    {
        let (a, b, w) = edges[m];
        let ghost prev = buf@;
        push_u32(&mut buf, a);
        push_u32(&mut buf, b);
        push_u32(&mut buf, w);
        proof {
            let t2 = edges@.take(m + 1);
            assert(t2.drop_last() =~= edges@.take(m as int));
            assert(t2.last() == (a, b, w));
            assert(buf@ =~= prev + snap_edge_bytes((a, b, w)));
            assert(mid + snap_edges_bytes(t2) =~= mid + snap_edges_bytes(edges@.take(m as int)) + snap_edge_bytes((a, b, w)));
        }
        m = m + 1;
    }
    proof {
        let es = edges@;
        assert(es.take(es.len() as int) =~= es);
        assert forall|i: int, j: int| 0 <= i < j < ns.len() implies ns[i].0 < ns[j].0 by {
            assert(ns[i].0 == ids@[i] && ns[j].0 == ids@[j]);
        }
        assert forall|i: int| 0 <= i < ns.len() implies g.live().contains_key(#[trigger] ns[i].0) && ns[i].1 == g.live()[ns[i].0] by {
            assert(ns[i].0 == ids@[i]);
            assert(ids@.contains(ids@[i]));
        }
        assert forall|id: u32| g.live().contains_key(id) implies exists|i: int| 0 <= i < ns.len() && #[trigger] ns[i].0 == id by {
            assert(ids@.contains(id));
            let i = choose|i: int| 0 <= i < ids@.len() && ids@[i] == id;
            assert(ns[i].0 == id);
        }
        assert(snapshot_lists_of(*g, ns, es));
        assert(buf@ =~= snapshot_bytes(g.next_id(), ns, es));
    }
    buf
}

/// A cursor over snapshot bytes.
struct Cursor<'a> {
    buf: &'a [u8],
    pos: usize,
}

impl<'a> Cursor<'a> {
    spec fn wf(&self) -> bool {
        self.pos <= self.buf@.len()
    }

    spec fn rest(&self) -> Seq<u8> {
        self.buf@.skip(self.pos as int)
    }

    fn take(&mut self, n: usize) -> (r: Option<&'a [u8]>)
        requires
            old(self).wf(),
        ensures
            final(self).wf(),
            final(self).buf == old(self).buf,
            r is Some <==> n <= old(self).rest().len(),
            r matches Some(x) ==> x@ == old(self).rest().take(n as int) && final(self).rest() == old(self).rest().skip(
                n as int,
            ),
    {
        if n > self.buf.len() - self.pos {
            return None;
        }
        let s = slice_subrange(self.buf, self.pos, self.pos + n);
        let ghost old_rest = self.rest();
        self.pos = self.pos + n;
        assert(s@ =~= old_rest.take(n as int));
        assert(self.rest() =~= old_rest.skip(n as int));
        Some(s)
    }

    fn u32(&mut self) -> (r: Option<u32>)
        requires
            old(self).wf(),
        ensures
            final(self).wf(),
            final(self).buf == old(self).buf,
            match take_u32(old(self).rest()) {
                Some((v, after)) => r == Some(v) && final(self).rest() == after,
                None => r is None,
            },
    {
        let b = self.take(4)?;
        Some(u32_from_le_bytes(b))
    }
}

/// `g` is the graph that a snapshot with these contents loads into.
pub open spec fn loaded_from(g: MemoryGraph, next: u32, ns: Seq<(u32, NodeModel)>, es: Seq<(u32, u32, u32)>) -> bool {
    &&& g.wf()
    &&& g.live() == build_live(ns)
    &&& g.tombs() == Set::<u32>::empty()
    &&& g.next_id() == if next >= ids_bound(ns) {
        next as nat
    } else {
        ids_bound(ns)
    }
    &&& forall|a: u32, b: u32| #[trigger] g.edge(a, b) == last_weight(es, a, b)
}

/// Loads a snapshot into a fresh graph: its nodes under their ids, the id
/// allocator moved to at least the stored value, then its edges in order.
pub fn load_snapshot(buf: &[u8]) -> (r: Result<MemoryGraph, SnapshotError>)
    ensures
        match parse_snapshot(buf@) {
            Ok((next, ns, es)) => r matches Ok(g) && loaded_from(g, next, ns, es),
            Err(e) => r matches Err(e2) && e2 == e,
        },
{
    if buf.len() < 12 || !(buf[0] == 0x53 && buf[1] == 0x4e && buf[2] == 0x50 && buf[3] == 0x30) {
        proof {
            if buf@.len() >= 12 {
                assert(buf@.take(4)[0] == buf@[0]);
                assert(buf@.take(4)[1] == buf@[1]);
                assert(buf@.take(4)[2] == buf@[2]);
                assert(buf@.take(4)[3] == buf@[3]);
                assert(buf@.take(4) != snap_magic());
            }
        }
        return Err(SnapshotError::BadHeader);
    }
    assert(buf@.take(4) =~= snap_magic());
    let mut c = Cursor { buf, pos: 4 };
    assert(c.rest().take(4) =~= buf@.subrange(4, 8));
    let next = match c.u32() {
        Some(v) => v,
        None => {
            return Err(SnapshotError::BadHeader);
        },
    };
    assert(c.rest().take(4) =~= buf@.subrange(8, 12));
    let count = match c.u32() {
        Some(v) => v,
        None => {
            return Err(SnapshotError::BadHeader);
        },
    };
    let ghost s0 = c.rest();
    assert(s0 =~= buf@.skip(12));
    let mut g = MemoryGraph::new();
    let ghost mut ns: Seq<(u32, NodeModel)> = Seq::empty();
    let mut i: u32 = 0;
    while i < count
        invariant
            c.wf(),
            c.buf == buf,
            i <= count,
            buf@.len() >= 12,
            buf@.take(4) == snap_magic(),
            count == spec_u32_from_le_bytes(buf@.subrange(8, 12)),
            next == spec_u32_from_le_bytes(buf@.subrange(4, 8)),
            s0 == buf@.skip(12),
            read_snap_nodes(s0, i as nat) == Ok::<(Seq<(u32, NodeModel)>, Seq<u8>), SnapshotError>((ns, c.rest())),
            g.wf(),
            g.live() == build_live(ns),
            g.tombs() == Set::<u32>::empty(),
            g.next_id() == ids_bound(ns),
            g.delta_count() == 0,
            forall|a: u32, b: u32| #[trigger] g.edge(a, b) is None,
        decreases count - i,
    {
        let ghost r0 = c.rest();
        assert(read_snap_nodes(s0, (i + 1) as nat) == match read_snap_node(r0) {
            Err(e) => Err(e),
            Ok((x, r2)) => Ok::<(Seq<(u32, NodeModel)>, Seq<u8>), SnapshotError>((ns.push(x), r2)),
        });
        let id = match c.u32() {
            Some(v) => v,
            None => {
                proof {
                    assert(take_u32(r0) is None);
                    assert(read_snap_node(r0) is Err);
                    assert(read_snap_nodes(s0, (i + 1) as nat) is Err);
                    lemma_snap_nodes_err(s0, (i + 1) as nat, count as nat);
                    assert(read_snap_nodes(s0, count as nat) == Err::<(Seq<(u32, NodeModel)>, Seq<u8>), SnapshotError>(SnapshotError::TruncatedNode));
                }
                return Err(SnapshotError::TruncatedNode);
            },
        };
        let len = match c.u32() {
            Some(v) => v,
            None => {
                proof {
                    lemma_snap_nodes_err(s0, (i + 1) as nat, count as nat);
                }
                return Err(SnapshotError::TruncatedNode);
            },
        };
        let ghost r2 = c.rest();
        let payload = match c.take(len as usize) {
            Some(p) => p,
            None => {
                proof {
                    lemma_snap_nodes_err(s0, (i + 1) as nat, count as nat);
                }
                return Err(SnapshotError::TruncatedNode);
            },
        };
        let mut nodes = match decode_nodes(payload) {
            Ok(v) => v,
            Err(e) => {
                proof {
                    lemma_snap_nodes_err(s0, (i + 1) as nat, count as nat);
                }
                return Err(SnapshotError::NodeDecode(e));
            },
        };
        if nodes.len() != 1 {
            proof {
                lemma_snap_nodes_err(s0, (i + 1) as nat, count as nat);
            }
            return Err(SnapshotError::NodeCountMismatch);
        }
        if id == u32::MAX {
            proof {
                lemma_snap_nodes_err(s0, (i + 1) as nat, count as nat);
            }
            return Err(SnapshotError::NodeIdOutOfRange);
        }
        let ghost nv = nodes@;
        let node = match nodes.pop() {
            Some(n) => n,
            None => {
                return Err(SnapshotError::NodeCountMismatch);
            },
        };
        assert(node@ == crate::model::nodes_view(nv)[0]);
        g.add_node_with_id(id, node);
        proof {
            let ns2 = ns.push((id, node@));
            assert(ns2.drop_last() =~= ns);
            ns = ns2;
        }
        i = i + 1;
    }
    g.restore_next_local_id(next);
    let ghost before_edges = c.rest();
    let ec = match c.u32() {
        Some(v) => v,
        None => {
            return Err(SnapshotError::TruncatedEdges);
        },
    };
    let ghost s1 = c.rest();
    let ghost mut es: Seq<(u32, u32, u32)> = Seq::empty();
    let ghost g_nodes = g;
    let mut j: u32 = 0;
    while j < ec
        invariant
            c.wf(),
            c.buf == buf,
            j <= ec,
            buf@.len() >= 12,
            buf@.take(4) == snap_magic(),
            count == spec_u32_from_le_bytes(buf@.subrange(8, 12)),
            next == spec_u32_from_le_bytes(buf@.subrange(4, 8)),
            s0 == buf@.skip(12),
            read_snap_nodes(s0, count as nat) == Ok::<(Seq<(u32, NodeModel)>, Seq<u8>), SnapshotError>((ns, before_edges)),
            take_u32(before_edges) == Some((ec, s1)),
            read_snap_edges(s1, j as nat) == Ok::<(Seq<(u32, u32, u32)>, Seq<u8>), SnapshotError>((es, c.rest())),
            g.wf(),
            g.live() == build_live(ns),
            g.tombs() == Set::<u32>::empty(),
            g.next_id() == g_nodes.next_id(),
            g.delta_count() <= j,
            forall|a: u32, b: u32| #[trigger] g.edge(a, b) == last_weight(es, a, b),
        decreases ec - j,
    {
        let ghost r0 = c.rest();
        assert(read_snap_edges(s1, (j + 1) as nat) == match read_snap_edge(r0) {
            Err(e) => Err(e),
            Ok((x, r2)) => Ok::<(Seq<(u32, u32, u32)>, Seq<u8>), SnapshotError>((es.push(x), r2)),
        });
        let from = match c.u32() {
            Some(v) => v,
            None => {
                proof {
                    lemma_snap_edges_err(s1, (j + 1) as nat, ec as nat);
                }
                return Err(SnapshotError::TruncatedEdge);
            },
        };
        let to = match c.u32() {
            Some(v) => v,
            None => {
                proof {
                    lemma_snap_edges_err(s1, (j + 1) as nat, ec as nat);
                }
                return Err(SnapshotError::TruncatedEdge);
            },
        };
        let w = match c.u32() {
            Some(v) => v,
            None => {
                proof {
                    lemma_snap_edges_err(s1, (j + 1) as nat, ec as nat);
                }
                return Err(SnapshotError::TruncatedEdge);
            },
        };
        g.add_edge(from, to, w);
        proof {
            let es2 = es.push((from, to, w));
            assert(es2.drop_last() =~= es);
            es = es2;
        }
        j = j + 1;
    }
    Ok(g)
}

} // verus!
