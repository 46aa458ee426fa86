//! Write-ahead log records.
//!
//! A frame is `[payload_len u32][crc32 u32][payload]`, little endian.
//! Replay stops at the first frame that is incomplete, too long, fails its
//! CRC or does not decode: what came before it is the recovered log.

use vstd::bytes::*;
use vstd::prelude::*;
use vstd::slice::*;

use crate::crc32::{crc32, crc32_of};
use crate::model::{nodes_view, MemoryNode, NodeModel};
use crate::wire::{decode_nodes, decoding, encode_node as encode_node_record, encoding, le_u32, lemma_decode_encode, node_encodable};

verus! {

/// File name of the log inside the data directory.
pub const WAL_FILE: &'static str = "wal.log";

/// Largest payload that replay accepts (64 MiB): a longer length field is
/// damage, not data.
pub const MAX_RECORD: usize = 67_108_864;

/// Most records merged into one flush.
pub const MAX_BATCH: usize = 1024;

/// A logged operation. Edge weights are `f32` bit patterns.
#[derive(Debug, Clone, PartialEq)]
pub enum WalOp {
    PutNode { id: u32, node: MemoryNode },
    RemoveNode { id: u32 },
    PutEdge { from: u32, to: u32, weight: u32 },
    RemoveEdge { from: u32, to: u32 },
    UpdateNode { id: u32, node: MemoryNode },
}

/// Model of a logged operation.
pub enum OpModel {
    PutNode(u32, NodeModel),
    RemoveNode(u32),
    PutEdge(u32, u32, u32),
    RemoveEdge(u32, u32),
    UpdateNode(u32, NodeModel),
}

impl View for WalOp {
    type V = OpModel;

    open spec fn view(&self) -> OpModel {
        match self {
            WalOp::PutNode { id, node } => OpModel::PutNode(*id, node@),
            WalOp::RemoveNode { id } => OpModel::RemoveNode(*id),
            WalOp::PutEdge { from, to, weight } => OpModel::PutEdge(*from, *to, *weight),
            WalOp::RemoveEdge { from, to } => OpModel::RemoveEdge(*from, *to),
            WalOp::UpdateNode { id, node } => OpModel::UpdateNode(*id, node@),
        }
    }
}

/// The models of a list of operations.
pub open spec fn ops_view(v: Seq<WalOp>) -> Seq<OpModel> {
    Seq::new(v.len(), |i: int| v[i]@)
}

// ---------------------------------------------------------------------------
// Record format.
// ---------------------------------------------------------------------------

/// A node as stored inside a record: a one-node `.nylon` stream.
#[verifier::opaque]
pub open spec fn node_record(n: NodeModel) -> Seq<u8> {
    encoding(seq![n])
}

pub open spec fn node_op_bytes(tag: u8, id: u32, n: NodeModel) -> Seq<u8> {
    seq![tag] + le_u32(id) + le_u32(node_record(n).len() as u32) + node_record(n)
}

/// The payload of an operation.
pub open spec fn op_bytes(op: OpModel) -> Seq<u8> {
    match op {
        OpModel::PutNode(id, n) => node_op_bytes(1, id, n),
        OpModel::UpdateNode(id, n) => node_op_bytes(5, id, n),
        OpModel::RemoveNode(id) => seq![2u8] + le_u32(id),
        OpModel::PutEdge(from, to, w) => seq![3u8] + le_u32(from) + le_u32(to) + le_u32(w),
        OpModel::RemoveEdge(from, to) => seq![4u8] + le_u32(from) + le_u32(to),
    }
}

/// Every length that the record stores in a `u32` fits in one.
pub open spec fn op_encodable(op: OpModel) -> bool {
    match op {
        OpModel::PutNode(_, n) => node_encodable(n) && node_record(n).len() <= u32::MAX,
        OpModel::UpdateNode(_, n) => node_encodable(n) && node_record(n).len() <= u32::MAX,
        _ => true,
    }
}

/// A complete frame: length, CRC of the payload, payload.
pub open spec fn frame_bytes(op: OpModel) -> Seq<u8> {
    le_u32(op_bytes(op).len() as u32) + le_u32(crc32_of(op_bytes(op))) + op_bytes(op)
}

/// The frames of a list of operations, one after the other.
pub open spec fn frames_bytes(ops: Seq<OpModel>) -> Seq<u8>
    decreases ops.len(),
{
    if ops.len() == 0 {
        Seq::empty()
    } else {
        frame_bytes(ops[0]) + frames_bytes(ops.drop_first())
    }
}

pub open spec fn u32_at(s: Seq<u8>, i: int) -> u32 {
    spec_u32_from_le_bytes(s.subrange(i, i + 4))
}

/// The node of a one-node record.
#[verifier::opaque]
pub open spec fn read_node_record(p: Seq<u8>) -> Option<NodeModel> {
    match decoding(p) {
        Ok(ns) => if ns.len() == 1 {
            Some(ns[0])
        } else {
            None
        },
        Err(_) => None,
    }
}

/// The operation that a payload holds; bytes after it are ignored.
pub open spec fn read_op(p: Seq<u8>) -> Option<OpModel> {
    if p.len() < 1 {
        None
    } else if p[0] == 1 || p[0] == 5 {
        if p.len() < 9 {
            None
        } else {
            let id = u32_at(p, 1);
            let len = u32_at(p, 5);
            if 9 + len > p.len() {
                None
            } else {
                match read_node_record(p.subrange(9, 9 + len)) {
                    Some(n) => if p[0] == 1 {
                        Some(OpModel::PutNode(id, n))
                    } else {
                        Some(OpModel::UpdateNode(id, n))
                    },
                    None => None,
                }
            }
        }
    } else if p[0] == 2 {
        if p.len() < 5 {
            None
        } else {
            Some(OpModel::RemoveNode(u32_at(p, 1)))
        }
    } else if p[0] == 3 {
        if p.len() < 13 {
            None
        } else {
            Some(OpModel::PutEdge(u32_at(p, 1), u32_at(p, 5), u32_at(p, 9)))
        }
    } else if p[0] == 4 {
        if p.len() < 9 {
            None
        } else {
            Some(OpModel::RemoveEdge(u32_at(p, 1), u32_at(p, 5)))
        }
    } else {
        None
    }
}

/// What replay recovers from a log: the operations of the leading run of
/// sound frames, and where that run ends.
pub open spec fn replay(buf: Seq<u8>) -> (Seq<OpModel>, nat)
    decreases buf.len(),
{
    if buf.len() < 8 {
        (Seq::empty(), 0)
    } else {
        let len = u32_at(buf, 0);
        let crc = u32_at(buf, 4);
        if len > MAX_RECORD || 8 + len > buf.len() {
            (Seq::empty(), 0)
        } else if crc32_of(buf.subrange(8, 8 + len)) != crc {
            (Seq::empty(), 0)
        } else {
            match read_op(buf.subrange(8, 8 + len)) {
                None => (Seq::empty(), 0),
                Some(op) => {
                    let rest = replay(buf.skip(8 + len));
                    (seq![op] + rest.0, (8 + len + rest.1) as nat)
                },
            }
        }
    }
}

// ---------------------------------------------------------------------------
// Laws: what was written reads back.
// ---------------------------------------------------------------------------

proof fn lemma_u32_at(a: Seq<u8>, x: u32, b: Seq<u8>)
    ensures
        u32_at(a + le_u32(x) + b, a.len() as int) == x,
{
    lemma_auto_spec_u32_to_from_le_bytes();
    assert((a + le_u32(x) + b).subrange(a.len() as int, a.len() as int + 4) =~= le_u32(x));
}

/// A payload reads back as the operation it encodes.
pub proof fn lemma_read_op_bytes(op: OpModel)
    requires
        op_encodable(op),
    ensures
        read_op(op_bytes(op)) == Some(op),
{
    let p = op_bytes(op);
    lemma_auto_spec_u32_to_from_le_bytes();
    match op {
        OpModel::PutNode(id, n) => {
            lemma_node_op(1, id, n);
            assert(read_op(node_op_bytes(1, id, n)) == Some(OpModel::PutNode(id, n)));
            assert(p == node_op_bytes(1, id, n));
        },
        OpModel::UpdateNode(id, n) => {
            lemma_node_op(5, id, n);
            assert(read_op(node_op_bytes(5, id, n)) == Some(OpModel::UpdateNode(id, n)));
            assert(p == node_op_bytes(5, id, n));
        },
        OpModel::RemoveNode(id) => {
            lemma_u32_at(seq![2u8], id, Seq::empty());
            assert(p =~= seq![2u8] + le_u32(id) + Seq::<u8>::empty());
        },
        OpModel::PutEdge(from, to, w) => {
            let h = seq![3u8];
            assert(p =~= h + le_u32(from) + (le_u32(to) + le_u32(w)));
            lemma_u32_at(h, from, le_u32(to) + le_u32(w));
            assert(p =~= (h + le_u32(from)) + le_u32(to) + le_u32(w));
            lemma_u32_at(h + le_u32(from), to, le_u32(w));
            assert(p =~= (h + le_u32(from) + le_u32(to)) + le_u32(w) + Seq::<u8>::empty());
            lemma_u32_at(h + le_u32(from) + le_u32(to), w, Seq::empty());
        },
        OpModel::RemoveEdge(from, to) => {
            let h = seq![4u8];
            assert(p =~= h + le_u32(from) + le_u32(to));
            lemma_u32_at(h, from, le_u32(to));
            assert(p =~= (h + le_u32(from)) + le_u32(to) + Seq::<u8>::empty());
            lemma_u32_at(h + le_u32(from), to, Seq::empty());
        },
    }
}

proof fn lemma_node_op(tag: u8, id: u32, n: NodeModel)
    requires
        tag == 1 || tag == 5,
        node_encodable(n),
        node_record(n).len() <= u32::MAX,
    ensures
        read_op(node_op_bytes(tag, id, n)) == Some(
            if tag == 1 {
                OpModel::PutNode(id, n)
            } else {
                OpModel::UpdateNode(id, n)
            },
        ),
{
    let rec = node_record(n);
    let len = rec.len() as u32;
    let h = seq![tag];
    let p = node_op_bytes(tag, id, n);
    assert(p =~= h + le_u32(id) + (le_u32(len) + rec));
    lemma_u32_at(h, id, le_u32(len) + rec);
    assert(p =~= (h + le_u32(id)) + le_u32(len) + rec);
    lemma_u32_at(h + le_u32(id), len, rec);
    lemma_auto_spec_u32_to_from_le_bytes();
    assert(p.subrange(9, 9 + len) =~= rec);
    lemma_node_record(n);
}

/// A node record reads back as its node.
pub proof fn lemma_node_record(n: NodeModel)
    requires
        node_encodable(n),
    ensures
        read_node_record(node_record(n)) == Some(n),
{
    reveal(node_record);
    reveal(read_node_record);
    assert(seq![n].len() <= u64::MAX);
    lemma_decode_encode(seq![n]);
}

/// A log that starts with a sound frame replays that operation and then
/// the rest of the log.
pub proof fn lemma_replay_frame(op: OpModel, rest: Seq<u8>)
    requires
        op_encodable(op),
        op_bytes(op).len() <= MAX_RECORD,
    ensures
        replay(frame_bytes(op) + rest) == (
            seq![op] + replay(rest).0,
            frame_bytes(op).len() + replay(rest).1,
        ),
{
    let p = op_bytes(op);
    let len = p.len() as u32;
    let crc = crc32_of(p);
    let b = frame_bytes(op) + rest;
    assert(b =~= Seq::<u8>::empty() + le_u32(len) + (le_u32(crc) + p + rest));
    lemma_u32_at(Seq::empty(), len, le_u32(crc) + p + rest);
    assert(b =~= le_u32(len) + le_u32(crc) + (p + rest));
    lemma_u32_at(le_u32(len), crc, p + rest);
    lemma_auto_spec_u32_to_from_le_bytes();
    assert(le_u32(len).len() == 4);
    assert(b.subrange(8, 8 + len) =~= p);
    assert(b.skip(8 + len) =~= rest);
    lemma_read_op_bytes(op);
}

/// The central law of the log: a log made of the frames of `ops`, followed
/// by anything, replays `ops` and then whatever that remainder replays.
pub proof fn lemma_replay_frames(ops: Seq<OpModel>, rest: Seq<u8>)
    requires
        forall|i: int| 0 <= i < ops.len() ==> op_encodable(#[trigger] ops[i]),
        forall|i: int| 0 <= i < ops.len() ==> (#[trigger] op_bytes(ops[i])).len() <= MAX_RECORD,
    ensures
        replay(frames_bytes(ops) + rest) == (ops + replay(rest).0, frames_bytes(ops).len() + replay(rest).1),
    decreases ops.len(),
{
    if ops.len() == 0 {
        assert(frames_bytes(ops) + rest =~= rest);
        assert(ops + replay(rest).0 =~= replay(rest).0);
    } else {
        let tail = ops.drop_first();
        assert forall|i: int| 0 <= i < tail.len() implies op_encodable(#[trigger] tail[i]) by {
            assert(tail[i] == ops[i + 1]);
        }
        assert forall|i: int| 0 <= i < tail.len() implies (#[trigger] op_bytes(tail[i])).len() <= MAX_RECORD by {
            assert(tail[i] == ops[i + 1]);
        }
        lemma_replay_frames(tail, rest);
        assert(op_encodable(ops[0]));
        assert(op_bytes(ops[0]).len() <= MAX_RECORD);
        lemma_replay_frame(ops[0], frames_bytes(tail) + rest);
        assert(frames_bytes(ops) + rest =~= frame_bytes(ops[0]) + (frames_bytes(tail) + rest));
        assert(seq![ops[0]] + (tail + replay(rest).0) =~= ops + replay(rest).0);
    }
}

/// A remainder too short for a frame header replays nothing: a log whose
/// tail was cut off mid-header recovers exactly the frames before it.
pub proof fn lemma_replay_short(rest: Seq<u8>)
    requires
        rest.len() < 8,
    ensures
        replay(rest) == (Seq::<OpModel>::empty(), 0nat),
{
}

// ---------------------------------------------------------------------------
// Executable codec.
// ---------------------------------------------------------------------------

fn push_u32(buf: &mut Vec<u8>, v: u32)
    ensures
        final(buf)@ == old(buf)@ + le_u32(v),
{
    let b = u32_to_le_bytes(v);
    buf.extend_from_slice(b.as_slice());
    assert(buf@ =~= old(buf)@ + le_u32(v));
}

fn encode_node(node: &MemoryNode) -> (r: Vec<u8>)
    ensures
        r@ == node_record(node@),
{
    reveal(node_record);
    encode_node_record(node)
}

/// The payload of an operation.
pub fn encode_op(op: &WalOp) -> (r: Vec<u8>)
    ensures
        r@ == op_bytes(op@),
{
    let mut buf: Vec<u8> = Vec::new();
    match op {
        WalOp::PutNode { id, node } | WalOp::UpdateNode { id, node } => {
            let tag: u8 = match op {
                WalOp::PutNode { .. } => 1,
                _ => 5,
            };
            buf.push(tag);
            push_u32(&mut buf, *id);
            let nb = encode_node(node);
            push_u32(&mut buf, nb.len() as u32);
            buf.extend_from_slice(nb.as_slice());
            assert(buf@ =~= node_op_bytes(tag, *id, node@));
        },
        WalOp::RemoveNode { id } => {
            buf.push(2);
            push_u32(&mut buf, *id);
            assert(buf@ =~= seq![2u8] + le_u32(*id));
        },
        WalOp::PutEdge { from, to, weight } => {
            buf.push(3);
            push_u32(&mut buf, *from);
            push_u32(&mut buf, *to);
            push_u32(&mut buf, *weight);
            assert(buf@ =~= seq![3u8] + le_u32(*from) + le_u32(*to) + le_u32(*weight));
        },
        WalOp::RemoveEdge { from, to } => {
            buf.push(4);
            push_u32(&mut buf, *from);
            push_u32(&mut buf, *to);
            assert(buf@ =~= seq![4u8] + le_u32(*from) + le_u32(*to));
        },
    }
    buf
}

/// The frame of an operation: length, CRC, payload.
pub fn frame(op: &WalOp) -> (r: Vec<u8>)
    ensures
        r@ == frame_bytes(op@),
{
    let payload = encode_op(op);
    let mut rec: Vec<u8> = Vec::new();
    push_u32(&mut rec, payload.len() as u32);
    push_u32(&mut rec, crc32(payload.as_slice()));
    rec.extend_from_slice(payload.as_slice());
    assert(rec@ =~= frame_bytes(op@));
    rec
}

/// A cursor over a record payload.
struct Reader<'a> {
    buf: &'a [u8],
    pos: usize,
}

impl<'a> Reader<'a> {
    spec fn wf(&self) -> bool {
        self.pos <= self.buf@.len()
    }

    fn take(&mut self, n: usize) -> (r: Option<&'a [u8]>)
        requires
            old(self).wf(),
        ensures
            final(self).wf(),
            final(self).buf == old(self).buf,
            r is Some <==> old(self).pos + n <= old(self).buf@.len(),
            r matches Some(s) ==> s@ == old(self).buf@.subrange(
                old(self).pos as int,
                old(self).pos + n,
            ) && final(self).pos == old(self).pos + n,
    {
        if n > self.buf.len() - self.pos {
            return None;
        }
        let s = slice_subrange(self.buf, self.pos, self.pos + n);
        self.pos = self.pos + n;
        Some(s)
    }

    fn u32(&mut self) -> (r: Option<u32>)
        requires
            old(self).wf(),
        ensures
            final(self).wf(),
            final(self).buf == old(self).buf,
            r is Some <==> old(self).pos + 4 <= old(self).buf@.len(),
            r matches Some(v) ==> v == u32_at(old(self).buf@, old(self).pos as int) && final(self).pos
                == old(self).pos + 4,
    {
        let b = self.take(4)?;
        Some(u32_from_le_bytes(b))
    }
}

fn decode_node(buf: &[u8]) -> (r: Option<MemoryNode>)
    ensures
        match read_node_record(buf@) {
            Some(n) => r matches Some(x) && x@ == n,
            None => r is None,
        },
{
    reveal(read_node_record);
    match decode_nodes(buf) {
        Ok(mut nodes) => {
            if nodes.len() == 1 {
                let ghost v = nodes@;
                let n = nodes.pop();
                match n {
                    Some(x) => {
                        assert(nodes_view(v)[0] == v[0]@);
                        Some(x)
                    },
                    None => None,
                }
            } else {
                None
            }
        },
        Err(_) => None,
    }
}

/// Decodes a payload; bytes after the operation are ignored.
pub fn decode_op(payload: &[u8]) -> (r: Option<WalOp>)
    ensures
        match read_op(payload@) {
            Some(m) => r matches Some(op) && op@ == m,
            None => r is None,
        },
{
    let mut r = Reader { buf: payload, pos: 0 };
    let t = r.take(1)?;
    let tag = t[0];
    assert(tag == payload@[0]);
    if tag == 1 || tag == 5 {
        let id = r.u32()?;
        let len = r.u32()? as usize;
        let body = r.take(len)?;
        assert(body@ =~= payload@.subrange(9, 9 + len));
        let node = decode_node(body)?;
        if tag == 1 {
            Some(WalOp::PutNode { id, node })
        } else {
            Some(WalOp::UpdateNode { id, node })
        }
    } else if tag == 2 {
        let id = r.u32()?;
        Some(WalOp::RemoveNode { id })
    } else if tag == 3 {
        let from = r.u32()?;
        let to = r.u32()?;
        let weight = r.u32()?;
        Some(WalOp::PutEdge { from, to, weight })
    } else if tag == 4 {
        let from = r.u32()?;
        let to = r.u32()?;
        Some(WalOp::RemoveEdge { from, to })
    } else {
        None
    }
}

/// The recovered log of `buf`: the operations of its leading run of sound
/// frames, and the length of that run (where the file is to be cut).
pub fn replay_log(buf: &[u8]) -> (r: (Vec<WalOp>, usize))
    ensures
        ops_view(r.0@) == replay(buf@).0,
        r.1 == replay(buf@).1,
{
    let mut ops: Vec<WalOp> = Vec::new();
    let mut pos: usize = 0;
    assert(buf@.skip(0) =~= buf@);
    assert(ops_view(ops@) + replay(buf@).0 =~= replay(buf@).0);
    while pos <= buf.len() && buf.len() - pos >= 8
        invariant
            pos <= buf@.len(),
            replay(buf@).0 == ops_view(ops@) + replay(buf@.skip(pos as int)).0,
            replay(buf@).1 == pos + replay(buf@.skip(pos as int)).1,
        ensures
            pos <= buf@.len(),
            replay(buf@).0 == ops_view(ops@) + replay(buf@.skip(pos as int)).0,
            replay(buf@).1 == pos + replay(buf@.skip(pos as int)).1,
            replay(buf@.skip(pos as int)) == (Seq::<OpModel>::empty(), 0nat),
        decreases buf@.len() - pos,
    {
        let ghost rest = buf@.skip(pos as int);
        let len = u32_from_le_bytes(slice_subrange(buf, pos, pos + 4)) as usize;
        let crc = u32_from_le_bytes(slice_subrange(buf, pos + 4, pos + 8));
        assert(buf@.subrange(pos as int, pos + 4) =~= rest.subrange(0, 4));
        assert(buf@.subrange(pos + 4, pos + 8) =~= rest.subrange(4, 8));
        if len > MAX_RECORD || len > buf.len() - pos - 8 {
            break;
        }
        let payload = slice_subrange(buf, pos + 8, pos + 8 + len);
        assert(payload@ =~= rest.subrange(8, 8 + len));
        if crc32(payload) != crc {
            break;
        }
        match decode_op(payload) {
            Some(op) => {
                let ghost prev = ops@;
                ops.push(op);
                proof {
                    assert(rest.skip(8 + len) =~= buf@.skip(pos + 8 + len));
                    assert(ops_view(ops@) =~= ops_view(prev) + seq![op@]);
                    let later = replay(buf@.skip(pos + 8 + len));
                    assert(ops_view(prev) + (seq![op@] + later.0) =~= ops_view(ops@) + later.0);
                }
                pos = pos + 8 + len;
            },
            None => {
                break;
            },
        }
    }
    assert(ops_view(ops@) + Seq::<OpModel>::empty() =~= ops_view(ops@));
    (ops, pos)
}

} // verus!
