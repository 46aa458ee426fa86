//! `.nylon` binary codec (uncompressed, little endian).
//!
//! Format (v1):
//! ```text
//! Header:    magic "NYL1" (4B) + node_count (u64)
//! Per node:  node_id (u64) + tenant_id (str) + owner_id (str) + fact (str)
//!            + emotion_valence (f32) + emotion_intensity (f32)
//!            + created_at (i64) + decay_rate (f32)
//!            + relations (u32 count + str*) + confidence (f32) + mentions_7d (u32)
//!            + tension_baseline (f32) + tension_last_updated (i64)
//!            + embedding (u32 dim + f32*)
//! str = len (u32) + UTF-8 bytes
//! ```
//! Decoding also accepts v0 (magic "NYL0", no tenant field); such records get
//! the tenant `DEFAULT_TENANT`. Encoding always writes v1.

use vstd::bytes::*;
use vstd::prelude::*;
use vstd::slice::*;
use vstd::utf8::*;

use crate::text::string_from_utf8;
use crate::model::{nodes_view, strings_view, Filaments, MemoryNode, NodeModel, Tension, DEFAULT_TENANT};

verus! {

broadcast use vstd::utf8::encode_utf8_valid_utf8, vstd::utf8::encode_utf8_decode_utf8;

/// Why a byte stream could not be decoded.
#[derive(Debug, Clone, Copy, PartialEq, Eq, Structural)]
pub enum DecodeError {
    /// The magic header is neither v0 nor v1.
    BadMagic,
    /// A length field runs past the end of the data.
    Truncated,
    /// A string field is not valid UTF-8.
    InvalidUtf8,
}

/// The description of a decode error.
pub open spec fn decode_error_text(e: DecodeError) -> Seq<char> {
    match e {
        DecodeError::BadMagic => "bad magic header"@,
        DecodeError::Truncated => "truncated data"@,
        DecodeError::InvalidUtf8 => "invalid utf-8 in string field"@,
    }
}

impl DecodeError {
    /// Human-readable description of the error.
    pub fn describe(&self) -> (r: &'static str)
        ensures
            r@ == decode_error_text(*self),
    {
        match self {
            DecodeError::BadMagic => "bad magic header",
            DecodeError::Truncated => "truncated data",
            DecodeError::InvalidUtf8 => "invalid utf-8 in string field",
        }
    }
}

/// Magic of the v0 format ("NYL0", no tenant field).
pub open spec fn magic_v0() -> Seq<u8> {
    seq![0x4eu8, 0x59u8, 0x4cu8, 0x30u8]
}

/// Magic of the v1 format ("NYL1", with tenant field).
pub open spec fn magic_v1() -> Seq<u8> {
    seq![0x4eu8, 0x59u8, 0x4cu8, 0x31u8]
}

// ---------------------------------------------------------------------------
// Encoding, as bytes.
// ---------------------------------------------------------------------------

/// Concatenation of a list of byte strings, in order.
pub open spec fn concat_all(parts: Seq<Seq<u8>>) -> Seq<u8>
    decreases parts.len(),
{
    if parts.len() == 0 {
        Seq::empty()
    } else {
        concat_all(parts.drop_last()) + parts.last()
    }
}

pub open spec fn le_u32(x: u32) -> Seq<u8> {
    spec_u32_to_le_bytes(x)
}

pub open spec fn le_u64(x: u64) -> Seq<u8> {
    spec_u64_to_le_bytes(x)
}

/// An `i64` is written as the little-endian bytes of its two's complement.
pub open spec fn le_i64(x: i64) -> Seq<u8> {
    spec_u64_to_le_bytes(x as u64)
}

/// A string: its UTF-8 length as a `u32`, then its UTF-8 bytes.
pub open spec fn str_bytes(s: Seq<char>) -> Seq<u8> {
    le_u32(encode_utf8(s).len() as u32) + encode_utf8(s)
}

pub open spec fn strs_bytes(ss: Seq<Seq<char>>) -> Seq<u8> {
    concat_all(Seq::new(ss.len(), |i: int| str_bytes(ss[i])))
}

pub open spec fn words_bytes(ws: Seq<u32>) -> Seq<u8> {
    concat_all(Seq::new(ws.len(), |i: int| le_u32(ws[i])))
}

/// Id, tenant, owner and fact of a node record.
pub open spec fn head_bytes(n: NodeModel) -> Seq<u8> {
    le_u64(n.id) + (str_bytes(n.tenant) + (str_bytes(n.owner) + str_bytes(n.fact)))
}

/// Emotion, creation time, decay rate and relations of a node record.
pub open spec fn middle_bytes(n: NodeModel) -> Seq<u8> {
    le_u32(n.valence) + (le_u32(n.intensity) + (le_i64(n.created_at) + (le_u32(n.decay) + (le_u32(
        n.relations.len() as u32,
    ) + strs_bytes(n.relations)))))
}

/// Confidence, mentions, tension and embedding of a node record.
pub open spec fn tail_bytes(n: NodeModel) -> Seq<u8> {
    le_u32(n.confidence) + (le_u32(n.mentions) + (le_u32(n.baseline) + (le_i64(n.last_updated) + (
    le_u32(n.embedding.len() as u32) + words_bytes(n.embedding)))))
}

/// The bytes of one node record (v1 layout).
pub open spec fn node_bytes(n: NodeModel) -> Seq<u8> {
    head_bytes(n) + (middle_bytes(n) + tail_bytes(n))
}

pub open spec fn nodes_bytes(ns: Seq<NodeModel>) -> Seq<u8> {
    concat_all(Seq::new(ns.len(), |i: int| node_bytes(ns[i])))
}

/// The complete `.nylon` encoding of a list of nodes.
pub open spec fn encoding(ns: Seq<NodeModel>) -> Seq<u8> {
    magic_v1() + le_u64(ns.len() as u64) + nodes_bytes(ns)
}

/// Every length that the format stores in a `u32` fits in one.
pub open spec fn node_encodable(n: NodeModel) -> bool {
    &&& encode_utf8(n.tenant).len() <= u32::MAX
    &&& encode_utf8(n.owner).len() <= u32::MAX
    &&& encode_utf8(n.fact).len() <= u32::MAX
    &&& n.relations.len() <= u32::MAX
    &&& forall|i: int| 0 <= i < n.relations.len() ==> encode_utf8(#[trigger] n.relations[i]).len() <= u32::MAX
    &&& n.embedding.len() <= u32::MAX
}

// ---------------------------------------------------------------------------
// Decoding, as a reader over the bytes that remain.
// ---------------------------------------------------------------------------

pub open spec fn read_bytes(s: Seq<u8>, n: int) -> Result<(Seq<u8>, Seq<u8>), DecodeError> {
    if n > s.len() {
        Err(DecodeError::Truncated)
    } else {
        Ok((s.take(n), s.skip(n)))
    }
}

pub open spec fn read_u32(s: Seq<u8>) -> Result<(u32, Seq<u8>), DecodeError> {
    if s.len() < 4 {
        Err(DecodeError::Truncated)
    } else {
        Ok((spec_u32_from_le_bytes(s.take(4)), s.skip(4)))
    }
}

pub open spec fn read_u64(s: Seq<u8>) -> Result<(u64, Seq<u8>), DecodeError> {
    if s.len() < 8 {
        Err(DecodeError::Truncated)
    } else {
        Ok((spec_u64_from_le_bytes(s.take(8)), s.skip(8)))
    }
}

pub open spec fn read_i64(s: Seq<u8>) -> Result<(i64, Seq<u8>), DecodeError> {
    match read_u64(s) {
        Ok((v, r)) => Ok((v as i64, r)),
        Err(e) => Err(e),
    }
}

pub open spec fn read_str(s: Seq<u8>) -> Result<(Seq<char>, Seq<u8>), DecodeError> {
    match read_u32(s) {
        Err(e) => Err(e),
        Ok((len, r)) => if len > r.len() {
            Err(DecodeError::Truncated)
        } else if valid_utf8(r.take(len as int)) {
            Ok((decode_utf8(r.take(len as int)), r.skip(len as int)))
        } else {
            Err(DecodeError::InvalidUtf8)
        },
    }
}

/// `k` strings in a row.
pub open spec fn read_strs(s: Seq<u8>, k: nat) -> Result<(Seq<Seq<char>>, Seq<u8>), DecodeError>
    decreases k,
{
    if k == 0 {
        Ok((Seq::empty(), s))
    } else {
        match read_str(s) {
            Err(e) => Err(e),
            Ok((x, r)) => match read_strs(r, (k - 1) as nat) {
                Err(e) => Err(e),
                Ok((xs, r2)) => Ok((seq![x] + xs, r2)),
            },
        }
    }
}

/// `k` 32-bit words in a row.
pub open spec fn read_words(s: Seq<u8>, k: nat) -> Result<(Seq<u32>, Seq<u8>), DecodeError>
    decreases k,
{
    if k == 0 {
        Ok((Seq::empty(), s))
    } else {
        match read_u32(s) {
            Err(e) => Err(e),
            Ok((x, r)) => match read_words(r, (k - 1) as nat) {
                Err(e) => Err(e),
                Ok((xs, r2)) => Ok((seq![x] + xs, r2)),
            },
        }
    }
}

/// The header fields of a node record: id and the three strings
/// (the tenant is only present when `has_tenant`).
pub open spec fn read_head(s: Seq<u8>, has_tenant: bool) -> Result<
    ((u64, Seq<char>, Seq<char>, Seq<char>), Seq<u8>),
    DecodeError,
> {
    match read_u64(s) {
        Err(e) => Err(e),
        Ok((id, r1)) => match (if has_tenant {
            read_str(r1)
        } else {
            Ok((DEFAULT_TENANT@, r1))
        }) {
            Err(e) => Err(e),
            Ok((tenant, r2)) => match read_str(r2) {
                Err(e) => Err(e),
                Ok((owner, r3)) => match read_str(r3) {
                    Err(e) => Err(e),
                    Ok((fact, r4)) => Ok(((id, tenant, owner, fact), r4)),
                },
            },
        },
    }
}

/// Emotion, creation time, decay rate and relations.
pub open spec fn read_middle(s: Seq<u8>) -> Result<
    ((u32, u32, i64, u32, Seq<Seq<char>>), Seq<u8>),
    DecodeError,
> {
    match read_u32(s) {
        Err(e) => Err(e),
        Ok((valence, r1)) => match read_u32(r1) {
            Err(e) => Err(e),
            Ok((intensity, r2)) => match read_i64(r2) {
                Err(e) => Err(e),
                Ok((created, r3)) => match read_u32(r3) {
                    Err(e) => Err(e),
                    Ok((decay, r4)) => match read_u32(r4) {
                        Err(e) => Err(e),
                        Ok((count, r5)) => match read_strs(r5, count as nat) {
                            Err(e) => Err(e),
                            Ok((rels, r6)) => Ok(((valence, intensity, created, decay, rels), r6)),
                        },
                    },
                },
            },
        },
    }
}

/// Confidence, mentions, tension and embedding.
pub open spec fn read_tail(s: Seq<u8>) -> Result<
    ((u32, u32, u32, i64, Seq<u32>), Seq<u8>),
    DecodeError,
> {
    match read_u32(s) {
        Err(e) => Err(e),
        Ok((confidence, r1)) => match read_u32(r1) {
            Err(e) => Err(e),
            Ok((mentions, r2)) => match read_u32(r2) {
                Err(e) => Err(e),
                Ok((baseline, r3)) => match read_i64(r3) {
                    Err(e) => Err(e),
                    Ok((last, r4)) => match read_u32(r4) {
                        Err(e) => Err(e),
                        Ok((dim, r5)) => match read_words(r5, dim as nat) {
                            Err(e) => Err(e),
                            Ok((emb, r6)) => Ok(((confidence, mentions, baseline, last, emb), r6)),
                        },
                    },
                },
            },
        },
    }
}

/// One node record.
#[verifier::opaque]
pub open spec fn read_node(s: Seq<u8>, has_tenant: bool) -> Result<(NodeModel, Seq<u8>), DecodeError> {
    match read_head(s, has_tenant) {
        Err(e) => Err(e),
        Ok(((id, tenant, owner, fact), r1)) => match read_middle(r1) {
            Err(e) => Err(e),
            Ok(((valence, intensity, created_at, decay, relations), r2)) => match read_tail(r2) {
                Err(e) => Err(e),
                Ok(((confidence, mentions, baseline, last_updated, embedding), r3)) => Ok(
                    (
                        NodeModel {
                            id,
                            tenant,
                            owner,
                            fact,
                            valence,
                            intensity,
                            created_at,
                            decay,
                            relations,
                            confidence,
                            mentions,
                            baseline,
                            last_updated,
                            embedding,
                        },
                        r3,
                    ),
                ),
            },
        },
    }
}

/// `k` node records in a row; what follows them is ignored.
pub open spec fn read_nodes(s: Seq<u8>, has_tenant: bool, k: nat) -> Result<
    Seq<NodeModel>,
    DecodeError,
>
    decreases k,
{
    if k == 0 {
        Ok(Seq::empty())
    } else {
        match read_node(s, has_tenant) {
            Err(e) => Err(e),
            Ok((n, r)) => match read_nodes(r, has_tenant, (k - 1) as nat) {
                Err(e) => Err(e),
                Ok(ns) => Ok(seq![n] + ns),
            },
        }
    }
}

/// The meaning of a `.nylon` byte stream.
pub open spec fn decoding(b: Seq<u8>) -> Result<Seq<NodeModel>, DecodeError> {
    if b.len() < 4 {
        Err(DecodeError::Truncated)
    } else if b.take(4) != magic_v1() && b.take(4) != magic_v0() {
        Err(DecodeError::BadMagic)
    } else {
        match read_u64(b.skip(4)) {
            Err(e) => Err(e),
            Ok((count, r)) => read_nodes(r, b.take(4) == magic_v1(), count as nat),
        }
    }
}

// ---------------------------------------------------------------------------
// Lemmas: reading back what was written.
// ---------------------------------------------------------------------------

/// Concatenating one more part appends it.
pub proof fn lemma_concat_all_push(parts: Seq<Seq<u8>>, p: Seq<u8>)
    ensures
        concat_all(parts.push(p)) == concat_all(parts) + p,
{
    assert(parts.push(p).drop_last() =~= parts);
}

/// Concatenation starts with the first part.
pub proof fn lemma_concat_all_cons(parts: Seq<Seq<u8>>)
    requires
        parts.len() > 0,
    ensures
        concat_all(parts) == parts[0] + concat_all(parts.drop_first()),
    decreases parts.len(),
{
    if parts.len() == 1 {
        assert(parts.drop_last() =~= Seq::<Seq<u8>>::empty());
        assert(parts.drop_first() =~= Seq::<Seq<u8>>::empty());
        assert(concat_all(parts.drop_last()) == Seq::<u8>::empty());
        assert(concat_all(parts.drop_first()) == Seq::<u8>::empty());
        assert(concat_all(parts) =~= parts[0] + concat_all(parts.drop_first()));
    } else {
        lemma_concat_all_cons(parts.drop_last());
        assert(parts.drop_last().drop_first() =~= parts.drop_first().drop_last());
        assert(parts.drop_first().last() == parts.last());
        assert(concat_all(parts) =~= parts[0] + concat_all(parts.drop_first()));
    }
}

proof fn lemma_split_at<T>(a: Seq<T>, b: Seq<T>)
    ensures
        (a + b).take(a.len() as int) == a,
        (a + b).skip(a.len() as int) == b,
{
    assert((a + b).take(a.len() as int) =~= a);
    assert((a + b).skip(a.len() as int) =~= b);
}

/// A little-endian `u32` reads back, leaving what follows.
pub proof fn lemma_read_u32(x: u32, rest: Seq<u8>)
    ensures
        read_u32(le_u32(x) + rest) == Ok::<(u32, Seq<u8>), DecodeError>((x, rest)),
{
    lemma_auto_spec_u32_to_from_le_bytes();
    lemma_split_at(le_u32(x), rest);
}

/// A little-endian `u64` reads back, leaving what follows.
pub proof fn lemma_read_u64(x: u64, rest: Seq<u8>)
    ensures
        read_u64(le_u64(x) + rest) == Ok::<(u64, Seq<u8>), DecodeError>((x, rest)),
{
    lemma_auto_spec_u64_to_from_le_bytes();
    lemma_split_at(le_u64(x), rest);
}

/// A little-endian `i64` reads back, leaving what follows.
pub proof fn lemma_read_i64(x: i64, rest: Seq<u8>)
    ensures
        read_i64(le_i64(x) + rest) == Ok::<(i64, Seq<u8>), DecodeError>((x, rest)),
{
    lemma_read_u64(x as u64, rest);
    assert((x as u64) as i64 == x) by (bit_vector);
}

/// A length-prefixed UTF-8 string reads back, leaving what follows.
pub proof fn lemma_read_str(s: Seq<char>, rest: Seq<u8>)
    requires
        encode_utf8(s).len() <= u32::MAX,
    ensures
        read_str(str_bytes(s) + rest) == Ok::<(Seq<char>, Seq<u8>), DecodeError>((s, rest)),
{
    let e = encode_utf8(s);
    assert(str_bytes(s) + rest =~= le_u32(e.len() as u32) + (e + rest));
    lemma_read_u32(e.len() as u32, e + rest);
    lemma_split_at(e, rest);
}

/// A run of length-prefixed strings reads back, leaving what follows.
pub proof fn lemma_read_strs(ss: Seq<Seq<char>>, rest: Seq<u8>)
    requires
        forall|i: int| 0 <= i < ss.len() ==> encode_utf8(#[trigger] ss[i]).len() <= u32::MAX,
    ensures
        read_strs(strs_bytes(ss) + rest, ss.len()) == Ok::<(Seq<Seq<char>>, Seq<u8>), DecodeError>(
            (ss, rest),
        ),
    decreases ss.len(),
{
    if ss.len() == 0 {
        assert(Seq::new(ss.len(), |i: int| str_bytes(ss[i])) =~= Seq::<Seq<u8>>::empty());
        assert(strs_bytes(ss) + rest =~= rest);
        assert(ss =~= Seq::<Seq<char>>::empty());
    } else {
        let parts = Seq::new(ss.len(), |i: int| str_bytes(ss[i]));
        lemma_concat_all_cons(parts);
        let tl = ss.drop_first();
        assert(parts.drop_first() =~= Seq::new(tl.len(), |i: int| str_bytes(tl[i])));
        assert(strs_bytes(ss) + rest =~= str_bytes(ss[0]) + (strs_bytes(tl) + rest));
        lemma_read_str(ss[0], strs_bytes(tl) + rest);
        lemma_read_strs(tl, rest);
        assert(seq![ss[0]] + tl =~= ss);
    }
}

/// A run of little-endian words reads back, leaving what follows.
pub proof fn lemma_read_words(ws: Seq<u32>, rest: Seq<u8>)
    ensures
        read_words(words_bytes(ws) + rest, ws.len()) == Ok::<(Seq<u32>, Seq<u8>), DecodeError>(
            (ws, rest),
        ),
    decreases ws.len(),
{
    if ws.len() == 0 {
        assert(Seq::new(ws.len(), |i: int| le_u32(ws[i])) =~= Seq::<Seq<u8>>::empty());
        assert(words_bytes(ws) + rest =~= rest);
        assert(ws =~= Seq::<u32>::empty());
    } else {
        let parts = Seq::new(ws.len(), |i: int| le_u32(ws[i]));
        lemma_concat_all_cons(parts);
        let tl = ws.drop_first();
        assert(parts.drop_first() =~= Seq::new(tl.len(), |i: int| le_u32(tl[i])));
        assert(words_bytes(ws) + rest =~= le_u32(ws[0]) + (words_bytes(tl) + rest));
        lemma_read_u32(ws[0], words_bytes(tl) + rest);
        lemma_read_words(tl, rest);
        assert(seq![ws[0]] + tl =~= ws);
    }
}

proof fn lemma_read_head(n: NodeModel, rest: Seq<u8>)
    requires
        node_encodable(n),
    ensures
        read_head(head_bytes(n) + rest, true) == Ok::<
            ((u64, Seq<char>, Seq<char>, Seq<char>), Seq<u8>),
            DecodeError,
        >(((n.id, n.tenant, n.owner, n.fact), rest)),
{
    let f = str_bytes(n.fact) + rest;
    let o = str_bytes(n.owner) + f;
    let t = str_bytes(n.tenant) + o;
    assert(head_bytes(n) + rest =~= le_u64(n.id) + t);
    lemma_read_u64(n.id, t);
    lemma_read_str(n.tenant, o);
    lemma_read_str(n.owner, f);
    lemma_read_str(n.fact, rest);
}

proof fn lemma_read_middle(n: NodeModel, rest: Seq<u8>)
    requires
        node_encodable(n),
    ensures
        read_middle(middle_bytes(n) + rest) == Ok::<
            ((u32, u32, i64, u32, Seq<Seq<char>>), Seq<u8>),
            DecodeError,
        >(((n.valence, n.intensity, n.created_at, n.decay, n.relations), rest)),
{
    let rs = strs_bytes(n.relations) + rest;
    let rc = le_u32(n.relations.len() as u32) + rs;
    let d = le_u32(n.decay) + rc;
    let cr = le_i64(n.created_at) + d;
    let it = le_u32(n.intensity) + cr;
    assert(middle_bytes(n) + rest =~= le_u32(n.valence) + it);
    lemma_read_u32(n.valence, it);
    lemma_read_u32(n.intensity, cr);
    lemma_read_i64(n.created_at, d);
    lemma_read_u32(n.decay, rc);
    lemma_read_u32(n.relations.len() as u32, rs);
    lemma_read_strs(n.relations, rest);
}

proof fn lemma_read_tail(n: NodeModel, rest: Seq<u8>)
    requires
        node_encodable(n),
    ensures
        read_tail(tail_bytes(n) + rest) == Ok::<
            ((u32, u32, u32, i64, Seq<u32>), Seq<u8>),
            DecodeError,
        >(((n.confidence, n.mentions, n.baseline, n.last_updated, n.embedding), rest)),
{
    let w = words_bytes(n.embedding) + rest;
    let e = le_u32(n.embedding.len() as u32) + w;
    let l = le_i64(n.last_updated) + e;
    let b = le_u32(n.baseline) + l;
    let m = le_u32(n.mentions) + b;
    assert(tail_bytes(n) + rest =~= le_u32(n.confidence) + m);
    lemma_read_u32(n.confidence, m);
    lemma_read_u32(n.mentions, b);
    lemma_read_u32(n.baseline, l);
    lemma_read_i64(n.last_updated, e);
    lemma_read_u32(n.embedding.len() as u32, w);
    lemma_read_words(n.embedding, rest);
}

/// The record of an encodable node reads back as the node.
pub proof fn lemma_read_node(n: NodeModel, rest: Seq<u8>)
    requires
        node_encodable(n),
    ensures
        read_node(node_bytes(n) + rest, true) == Ok::<(NodeModel, Seq<u8>), DecodeError>((n, rest)),
{
    reveal(read_node);
    let t = tail_bytes(n) + rest;
    let m = middle_bytes(n) + t;
    assert(node_bytes(n) + rest =~= head_bytes(n) + m);
    lemma_read_head(n, m);
    lemma_read_middle(n, t);
    lemma_read_tail(n, rest);
}

/// The records of encodable nodes read back as the nodes.
pub proof fn lemma_read_nodes(ns: Seq<NodeModel>, rest: Seq<u8>)
    requires
        forall|i: int| 0 <= i < ns.len() ==> node_encodable(#[trigger] ns[i]),
    ensures
        read_nodes(nodes_bytes(ns) + rest, true, ns.len()) == Ok::<Seq<NodeModel>, DecodeError>(ns),
    decreases ns.len(),
{
    if ns.len() == 0 {
        assert(ns =~= Seq::<NodeModel>::empty());
    } else {
        let parts = Seq::new(ns.len(), |i: int| node_bytes(ns[i]));
        lemma_concat_all_cons(parts);
        let tl = ns.drop_first();
        assert(parts.drop_first() =~= Seq::new(tl.len(), |i: int| node_bytes(tl[i])));
        assert(nodes_bytes(ns) + rest =~= node_bytes(ns[0]) + (nodes_bytes(tl) + rest));
        lemma_read_node(ns[0], nodes_bytes(tl) + rest);
        lemma_read_nodes(tl, rest);
        assert(seq![ns[0]] + tl =~= ns);
    }
}

/// Decoding what was encoded gives back the same nodes, whenever every
/// length the format stores in a `u32` fits in one.
pub proof fn lemma_decode_encode(ns: Seq<NodeModel>)
    requires
        ns.len() <= u64::MAX,
        forall|i: int| 0 <= i < ns.len() ==> node_encodable(#[trigger] ns[i]),
    ensures
        decoding(encoding(ns)) == Ok::<Seq<NodeModel>, DecodeError>(ns),
{
    let body = nodes_bytes(ns);
    let b = encoding(ns);
    assert(b =~= magic_v1() + (le_u64(ns.len() as u64) + body));
    lemma_split_at(magic_v1(), le_u64(ns.len() as u64) + body);
    lemma_read_u64(ns.len() as u64, body);
    lemma_read_nodes(ns, Seq::empty());
    assert(body + Seq::<u8>::empty() =~= body);
}

/// Bytes taken by a run of strings: a 4-byte length and the UTF-8 bytes
/// of each.
pub open spec fn strs_len(ss: Seq<Seq<char>>) -> nat
    decreases ss.len(),
{
    if ss.len() == 0 {
        0
    } else {
        strs_len(ss.drop_last()) + 4 + encode_utf8(ss.last()).len()
    }
}

/// Bytes taken by one node record: 68 fixed bytes, the UTF-8 of its three
/// strings, its relations, and 4 bytes per embedding component.
pub open spec fn node_len(n: NodeModel) -> nat {
    68 + encode_utf8(n.tenant).len() + encode_utf8(n.owner).len() + encode_utf8(n.fact).len() + strs_len(n.relations)
        + 4 * n.embedding.len()
}

/// Bytes taken by a run of node records.
pub open spec fn nodes_len(ns: Seq<NodeModel>) -> nat
    decreases ns.len(),
{
    if ns.len() == 0 {
        0
    } else {
        nodes_len(ns.drop_last()) + node_len(ns.last())
    }
}

proof fn lemma_strs_bytes_len(ss: Seq<Seq<char>>)
    ensures
        strs_bytes(ss).len() == strs_len(ss),
    decreases ss.len(),
{
    lemma_auto_spec_u32_to_from_le_bytes();
    if ss.len() > 0 {
        let pre = ss.drop_last();
        let parts = Seq::new(ss.len(), |i: int| str_bytes(ss[i]));
        assert(parts.drop_last() =~= Seq::new(pre.len(), |i: int| str_bytes(pre[i])));
        lemma_strs_bytes_len(pre);
    }
}

proof fn lemma_words_bytes_len(ws: Seq<u32>)
    ensures
        words_bytes(ws).len() == 4 * ws.len(),
    decreases ws.len(),
{
    lemma_auto_spec_u32_to_from_le_bytes();
    if ws.len() > 0 {
        let pre = ws.drop_last();
        let parts = Seq::new(ws.len(), |i: int| le_u32(ws[i]));
        assert(parts.drop_last() =~= Seq::new(pre.len(), |i: int| le_u32(pre[i])));
        lemma_words_bytes_len(pre);
    }
}

proof fn lemma_node_bytes_len(n: NodeModel)
    ensures
        node_bytes(n).len() == node_len(n),
{
    lemma_auto_spec_u32_to_from_le_bytes();
    lemma_auto_spec_u64_to_from_le_bytes();
    lemma_strs_bytes_len(n.relations);
    lemma_words_bytes_len(n.embedding);
    assert(le_i64(n.created_at).len() == 8);
    assert(le_i64(n.last_updated).len() == 8);
    assert(le_u64(n.id).len() == 8);
}

proof fn lemma_nodes_bytes_len(ns: Seq<NodeModel>)
    ensures
        nodes_bytes(ns).len() == nodes_len(ns),
    decreases ns.len(),
{
    if ns.len() > 0 {
        let pre = ns.drop_last();
        let parts = Seq::new(ns.len(), |i: int| node_bytes(ns[i]));
        assert(parts.drop_last() =~= Seq::new(pre.len(), |i: int| node_bytes(pre[i])));
        lemma_nodes_bytes_len(pre);
        lemma_node_bytes_len(ns.last());
    }
}

/// The shape of an encoding: the v1 magic, the node count as a
/// little-endian `u64`, then the records, `12 + nodes_len(ns)` bytes in all.
pub proof fn lemma_encoding_shape(ns: Seq<NodeModel>)
    ensures
        encoding(ns).take(4) == magic_v1(),
        encoding(ns).subrange(4, 12) == le_u64(ns.len() as u64),
        encoding(ns).len() == 12 + nodes_len(ns),
{
    lemma_auto_spec_u64_to_from_le_bytes();
    lemma_nodes_bytes_len(ns);
    let b = encoding(ns);
    assert(b.take(4) =~= magic_v1());
    assert(b.subrange(4, 12) =~= le_u64(ns.len() as u64));
}

proof fn lemma_cut(a: Seq<u8>, b: Seq<u8>, k: int)
    requires
        a.len() <= k <= a.len() + b.len(),
    ensures
        (a + b).take(k) == a + b.take(k - a.len()),
{
    assert((a + b).take(k) =~= a + b.take(k - a.len()));
}

proof fn lemma_field_lens(n: NodeModel)
    ensures
        le_u64(n.id).len() == 8,
        le_i64(n.created_at).len() == 8,
        le_i64(n.last_updated).len() == 8,
        forall|x: u32| #[trigger] le_u32(x).len() == 4,
        forall|s: Seq<char>| #[trigger] str_bytes(s).len() == 4 + encode_utf8(s).len(),
{
    lemma_auto_spec_u32_to_from_le_bytes();
    lemma_auto_spec_u64_to_from_le_bytes();
}

proof fn lemma_cut_u32(x: u32, any: Seq<u8>, k: int)
    requires
        0 <= k < 4,
    ensures
        read_u32((le_u32(x) + any).take(k)) == Err::<(u32, Seq<u8>), DecodeError>(DecodeError::Truncated),
{
    lemma_auto_spec_u32_to_from_le_bytes();
}

proof fn lemma_cut_u64(x: u64, any: Seq<u8>, k: int)
    requires
        0 <= k < 8,
    ensures
        read_u64((le_u64(x) + any).take(k)) == Err::<(u64, Seq<u8>), DecodeError>(DecodeError::Truncated),
        read_i64((le_u64(x) + any).take(k)) == Err::<(i64, Seq<u8>), DecodeError>(DecodeError::Truncated),
{
    lemma_auto_spec_u64_to_from_le_bytes();
}

proof fn lemma_cut_str(s: Seq<char>, any: Seq<u8>, k: int)
    requires
        encode_utf8(s).len() <= u32::MAX,
        0 <= k < str_bytes(s).len(),
    ensures
        read_str((str_bytes(s) + any).take(k)) == Err::<(Seq<char>, Seq<u8>), DecodeError>(DecodeError::Truncated),
{
    lemma_auto_spec_u32_to_from_le_bytes();
    let e = encode_utf8(s);
    if k >= 4 {
        let l = le_u32(e.len() as u32);
        assert(str_bytes(s) + any =~= l + (e + any));
        lemma_cut(l, e + any, k);
        lemma_read_u32(e.len() as u32, (e + any).take(k - 4));
    }
}

proof fn lemma_strs_cons(ss: Seq<Seq<char>>, any: Seq<u8>)
    requires
        ss.len() > 0,
    ensures
        strs_bytes(ss) + any == str_bytes(ss[0]) + (strs_bytes(ss.drop_first()) + any),
        strs_bytes(ss).len() == str_bytes(ss[0]).len() + strs_bytes(ss.drop_first()).len(),
{
    let parts = Seq::new(ss.len(), |i: int| str_bytes(ss[i]));
    lemma_concat_all_cons(parts);
    let tl = ss.drop_first();
    assert(parts.drop_first() =~= Seq::new(tl.len(), |i: int| str_bytes(tl[i])));
    assert(strs_bytes(ss) + any =~= str_bytes(ss[0]) + (strs_bytes(tl) + any));
}

proof fn lemma_words_cons(ws: Seq<u32>, any: Seq<u8>)
    requires
        ws.len() > 0,
    ensures
        words_bytes(ws) + any == le_u32(ws[0]) + (words_bytes(ws.drop_first()) + any),
        words_bytes(ws).len() == le_u32(ws[0]).len() + words_bytes(ws.drop_first()).len(),
{
    let parts = Seq::new(ws.len(), |i: int| le_u32(ws[i]));
    lemma_concat_all_cons(parts);
    let tl = ws.drop_first();
    assert(parts.drop_first() =~= Seq::new(tl.len(), |i: int| le_u32(tl[i])));
    assert(words_bytes(ws) + any =~= le_u32(ws[0]) + (words_bytes(tl) + any));
}

proof fn lemma_cut_strs(ss: Seq<Seq<char>>, any: Seq<u8>, k: int)
    requires
        forall|i: int| 0 <= i < ss.len() ==> encode_utf8(#[trigger] ss[i]).len() <= u32::MAX,
        0 <= k < strs_bytes(ss).len(),
    ensures
        read_strs((strs_bytes(ss) + any).take(k), ss.len()) == Err::<(Seq<Seq<char>>, Seq<u8>), DecodeError>(
            DecodeError::Truncated,
        ),
    decreases ss.len(),
{
    if ss.len() == 0 {
        assert(Seq::new(ss.len(), |i: int| str_bytes(ss[i])) =~= Seq::<Seq<u8>>::empty());
    } else {
        let tl = ss.drop_first();
        lemma_strs_cons(ss, any);
        let first = str_bytes(ss[0]);
        let more = strs_bytes(tl) + any;
        if k < first.len() {
            lemma_cut_str(ss[0], more, k);
        } else {
            lemma_cut(first, more, k);
            lemma_read_str(ss[0], more.take(k - first.len()));
            lemma_cut_strs(tl, any, k - first.len());
        }
    }
}

proof fn lemma_cut_words(ws: Seq<u32>, any: Seq<u8>, k: int)
    requires
        0 <= k < words_bytes(ws).len(),
    ensures
        read_words((words_bytes(ws) + any).take(k), ws.len()) == Err::<(Seq<u32>, Seq<u8>), DecodeError>(
            DecodeError::Truncated,
        ),
    decreases ws.len(),
{
    lemma_auto_spec_u32_to_from_le_bytes();
    if ws.len() == 0 {
        assert(Seq::new(ws.len(), |i: int| le_u32(ws[i])) =~= Seq::<Seq<u8>>::empty());
    } else {
        let tl = ws.drop_first();
        lemma_words_cons(ws, any);
        let first = le_u32(ws[0]);
        let more = words_bytes(tl) + any;
        if k < 4 {
            lemma_cut_u32(ws[0], more, k);
        } else {
            lemma_cut(first, more, k);
            lemma_read_u32(ws[0], more.take(k - 4));
            lemma_cut_words(tl, any, k - 4);
        }
    }
}

proof fn lemma_cut_head(n: NodeModel, any: Seq<u8>, k: int)
    requires
        node_encodable(n),
        0 <= k < head_bytes(n).len(),
    ensures
        read_head((head_bytes(n) + any).take(k), true) is Err,
        read_head((head_bytes(n) + any).take(k), true)->Err_0 == DecodeError::Truncated,
{
    lemma_field_lens(n);
    let f = str_bytes(n.fact) + any;
    let o = str_bytes(n.owner) + f;
    let t = str_bytes(n.tenant) + o;
    let id = le_u64(n.id);
    assert(head_bytes(n) + any =~= id + t);
    if k < 8 {
        lemma_cut_u64(n.id, t, k);
    } else {
        lemma_cut(id, t, k);
        let k1 = k - 8;
        lemma_read_u64(n.id, t.take(k1));
        let lt = str_bytes(n.tenant).len() as int;
        if k1 < lt {
            lemma_cut_str(n.tenant, o, k1);
        } else {
            lemma_cut(str_bytes(n.tenant), o, k1);
            let k2 = k1 - lt;
            lemma_read_str(n.tenant, o.take(k2));
            let lo = str_bytes(n.owner).len() as int;
            if k2 < lo {
                lemma_cut_str(n.owner, f, k2);
            } else {
                lemma_cut(str_bytes(n.owner), f, k2);
                let k3 = k2 - lo;
                lemma_read_str(n.owner, f.take(k3));
                lemma_cut_str(n.fact, any, k3);
            }
        }
    }
}

proof fn lemma_cut_middle(n: NodeModel, any: Seq<u8>, k: int)
    requires
        node_encodable(n),
        0 <= k < middle_bytes(n).len(),
    ensures
        read_middle((middle_bytes(n) + any).take(k)) is Err,
        read_middle((middle_bytes(n) + any).take(k))->Err_0 == DecodeError::Truncated,
{
    lemma_field_lens(n);
    let rs = strs_bytes(n.relations) + any;
    let rc = le_u32(n.relations.len() as u32) + rs;
    let d = le_u32(n.decay) + rc;
    let cr = le_i64(n.created_at) + d;
    let it = le_u32(n.intensity) + cr;
    assert(middle_bytes(n) + any =~= le_u32(n.valence) + it);
    if k < 4 {
        lemma_cut_u32(n.valence, it, k);
    } else {
        lemma_cut(le_u32(n.valence), it, k);
        lemma_read_u32(n.valence, it.take(k - 4));
        if k < 8 {
            lemma_cut_u32(n.intensity, cr, k - 4);
        } else {
            lemma_cut(le_u32(n.intensity), cr, k - 4);
            lemma_read_u32(n.intensity, cr.take(k - 8));
            if k < 16 {
                lemma_cut_u64(n.created_at as u64, d, k - 8);
            } else {
                lemma_cut(le_i64(n.created_at), d, k - 8);
                lemma_read_i64(n.created_at, d.take(k - 16));
                if k < 20 {
                    lemma_cut_u32(n.decay, rc, k - 16);
                } else {
                    lemma_cut(le_u32(n.decay), rc, k - 16);
                    lemma_read_u32(n.decay, rc.take(k - 20));
                    if k < 24 {
                        lemma_cut_u32(n.relations.len() as u32, rs, k - 20);
                    } else {
                        lemma_cut(le_u32(n.relations.len() as u32), rs, k - 20);
                        lemma_read_u32(n.relations.len() as u32, rs.take(k - 24));
                        lemma_cut_strs(n.relations, any, k - 24);
                    }
                }
            }
        }
    }
}

proof fn lemma_cut_tail(n: NodeModel, any: Seq<u8>, k: int)
    requires
        node_encodable(n),
        0 <= k < tail_bytes(n).len(),
    ensures
        read_tail((tail_bytes(n) + any).take(k)) is Err,
        read_tail((tail_bytes(n) + any).take(k))->Err_0 == DecodeError::Truncated,
{
    lemma_field_lens(n);
    let w = words_bytes(n.embedding) + any;
    let e = le_u32(n.embedding.len() as u32) + w;
    let l = le_i64(n.last_updated) + e;
    let b = le_u32(n.baseline) + l;
    let m = le_u32(n.mentions) + b;
    assert(tail_bytes(n) + any =~= le_u32(n.confidence) + m);
    if k < 4 {
        lemma_cut_u32(n.confidence, m, k);
    } else {
        lemma_cut(le_u32(n.confidence), m, k);
        lemma_read_u32(n.confidence, m.take(k - 4));
        if k < 8 {
            lemma_cut_u32(n.mentions, b, k - 4);
        } else {
            lemma_cut(le_u32(n.mentions), b, k - 4);
            lemma_read_u32(n.mentions, b.take(k - 8));
            if k < 12 {
                lemma_cut_u32(n.baseline, l, k - 8);
            } else {
                lemma_cut(le_u32(n.baseline), l, k - 8);
                lemma_read_u32(n.baseline, l.take(k - 12));
                if k < 20 {
                    lemma_cut_u64(n.last_updated as u64, e, k - 12);
                } else {
                    lemma_cut(le_i64(n.last_updated), e, k - 12);
                    lemma_read_i64(n.last_updated, e.take(k - 20));
                    if k < 24 {
                        lemma_cut_u32(n.embedding.len() as u32, w, k - 20);
                    } else {
                        lemma_cut(le_u32(n.embedding.len() as u32), w, k - 20);
                        lemma_read_u32(n.embedding.len() as u32, w.take(k - 24));
                        lemma_cut_words(n.embedding, any, k - 24);
                    }
                }
            }
        }
    }
}

proof fn lemma_cut_node(n: NodeModel, any: Seq<u8>, k: int)
    requires
        node_encodable(n),
        0 <= k < node_bytes(n).len(),
    ensures
        read_node((node_bytes(n) + any).take(k), true) == Err::<(NodeModel, Seq<u8>), DecodeError>(DecodeError::Truncated),
{
    reveal(read_node);
    let t = tail_bytes(n) + any;
    let m = middle_bytes(n) + t;
    let h = head_bytes(n);
    assert(node_bytes(n) + any =~= h + m);
    if k < h.len() {
        lemma_cut_head(n, m, k);
    } else {
        lemma_cut(h, m, k);
        lemma_read_head(n, m.take(k - h.len()));
        let k1 = k - h.len();
        let mb = middle_bytes(n);
        if k1 < mb.len() {
            lemma_cut_middle(n, t, k1);
        } else {
            lemma_cut(mb, t, k1);
            lemma_read_middle(n, t.take(k1 - mb.len()));
            lemma_cut_tail(n, any, k1 - mb.len());
        }
    }
}

proof fn lemma_cut_nodes(ns: Seq<NodeModel>, any: Seq<u8>, k: int)
    requires
        forall|i: int| 0 <= i < ns.len() ==> node_encodable(#[trigger] ns[i]),
        0 <= k < nodes_bytes(ns).len(),
    ensures
        read_nodes((nodes_bytes(ns) + any).take(k), true, ns.len()) == Err::<Seq<NodeModel>, DecodeError>(
            DecodeError::Truncated,
        ),
    decreases ns.len(),
{
    let parts = Seq::new(ns.len(), |i: int| node_bytes(ns[i]));
    if ns.len() == 0 {
        assert(parts =~= Seq::<Seq<u8>>::empty());
    } else {
        lemma_concat_all_cons(parts);
        let tl = ns.drop_first();
        assert(parts.drop_first() =~= Seq::new(tl.len(), |i: int| node_bytes(tl[i])));
        let first = node_bytes(ns[0]);
        let more = nodes_bytes(tl) + any;
        assert(nodes_bytes(ns) + any =~= first + more);
        if k < first.len() {
            lemma_cut_node(ns[0], more, k);
        } else {
            lemma_cut(first, more, k);
            lemma_read_node(ns[0], more.take(k - first.len()));
            lemma_cut_nodes(tl, any, k - first.len());
        }
    }
}

/// A strict prefix of an encoding decodes to `Truncated`: a stream cut
/// short anywhere is refused as truncated, never read as other nodes, bad
/// magic or bad UTF-8.
pub proof fn lemma_prefix_is_truncated(ns: Seq<NodeModel>, k: int)
    requires
        ns.len() <= u64::MAX,
        forall|i: int| 0 <= i < ns.len() ==> node_encodable(#[trigger] ns[i]),
        0 <= k < encoding(ns).len(),
    ensures
        decoding(encoding(ns).take(k)) == Err::<Seq<NodeModel>, DecodeError>(DecodeError::Truncated),
{
    lemma_auto_spec_u64_to_from_le_bytes();
    let body = nodes_bytes(ns);
    let cnt = le_u64(ns.len() as u64);
    let b = encoding(ns);
    assert(b =~= magic_v1() + (cnt + body));
    let p = b.take(k);
    if k >= 4 {
        lemma_cut(magic_v1(), cnt + body, k);
        assert(p.take(4) =~= magic_v1());
        assert(p.skip(4) =~= (cnt + body).take(k - 4));
        if k < 12 {
            lemma_cut_u64(ns.len() as u64, body, k - 4);
        } else {
            lemma_cut(cnt, body, k - 4);
            assert(body + Seq::<u8>::empty() =~= body);
            assert(body.take(k - 12) =~= (body + Seq::<u8>::empty()).take(k - 12));
            lemma_read_u64(ns.len() as u64, body.take(k - 12));
            lemma_cut_nodes(ns, Seq::empty(), k - 12);
        }
    }
}

// ---------------------------------------------------------------------------
// Executable encoder.
// ---------------------------------------------------------------------------

/// Magic of the v0 format ("NYL0", no tenant field; decoded only).
pub const MAGIC: [u8; 4] = [0x4e, 0x59, 0x4c, 0x30];

/// Magic of the v1 format ("NYL1", with tenant field).
pub const MAGIC_V1: [u8; 4] = [0x4e, 0x59, 0x4c, 0x31];

fn push_u32(buf: &mut Vec<u8>, v: u32)
    ensures
        final(buf)@ == old(buf)@ + le_u32(v),
{
    let b = u32_to_le_bytes(v);
    buf.extend_from_slice(b.as_slice());
    assert(buf@ =~= old(buf)@ + le_u32(v));
}

fn push_u64(buf: &mut Vec<u8>, v: u64)
    ensures
        final(buf)@ == old(buf)@ + le_u64(v),
{
    let b = u64_to_le_bytes(v);
    buf.extend_from_slice(b.as_slice());
    assert(buf@ =~= old(buf)@ + le_u64(v));
}

fn push_i64(buf: &mut Vec<u8>, v: i64)
    ensures
        final(buf)@ == old(buf)@ + le_i64(v),
{
    push_u64(buf, v as u64);
}

fn push_str(buf: &mut Vec<u8>, s: &str)
    ensures
        final(buf)@ == old(buf)@ + str_bytes(s@),
{
    let bytes = s.as_bytes();
    push_u32(buf, bytes.len() as u32);
    buf.extend_from_slice(bytes);
    assert(buf@ =~= old(buf)@ + str_bytes(s@));
}

fn push_strs(buf: &mut Vec<u8>, ss: &Vec<String>)
    ensures
        final(buf)@ == old(buf)@ + strs_bytes(strings_view(ss@)),
{
    let ghost view = strings_view(ss@);
    let mut i: usize = 0;
    while i < ss.len()
        invariant
            i <= ss.len(),
            view == strings_view(ss@),
            buf@ == old(buf)@ + concat_all(Seq::new(i as nat, |j: int| str_bytes(view[j]))),
        decreases ss.len() - i,
    {
        let ghost before = buf@;
        push_str(buf, ss[i].as_str());
        proof {
            let parts = Seq::new(i as nat, |j: int| str_bytes(view[j]));
            lemma_concat_all_push(parts, str_bytes(view[i as int]));
            assert(parts.push(str_bytes(view[i as int])) =~= Seq::new(
                (i + 1) as nat,
                |j: int| str_bytes(view[j]),
            ));
        }
        i = i + 1;
    }
    assert(Seq::new(i as nat, |j: int| str_bytes(view[j])) =~= Seq::new(
        view.len(),
        |j: int| str_bytes(view[j]),
    ));
}

fn push_words(buf: &mut Vec<u8>, ws: &Vec<u32>)
    ensures
        final(buf)@ == old(buf)@ + words_bytes(ws@),
{
    let mut i: usize = 0;
    while i < ws.len()
        invariant
            i <= ws.len(),
            buf@ == old(buf)@ + concat_all(Seq::new(i as nat, |j: int| le_u32(ws@[j]))),
        decreases ws.len() - i,
    {
        push_u32(buf, ws[i]);
        proof {
            let parts = Seq::new(i as nat, |j: int| le_u32(ws@[j]));
            lemma_concat_all_push(parts, le_u32(ws@[i as int]));
            assert(parts.push(le_u32(ws@[i as int])) =~= Seq::new(
                (i + 1) as nat,
                |j: int| le_u32(ws@[j]),
            ));
        }
        i = i + 1;
    }
    assert(Seq::new(i as nat, |j: int| le_u32(ws@[j])) =~= Seq::new(
        ws@.len(),
        |j: int| le_u32(ws@[j]),
    ));
}

fn push_head(buf: &mut Vec<u8>, n: &MemoryNode)
    ensures
        final(buf)@ == old(buf)@ + head_bytes(n@),
{
    push_u64(buf, n.id);
    push_str(buf, n.tenant_id.as_str());
    push_str(buf, n.owner_id.as_str());
    push_str(buf, n.filaments.fact.as_str());
    assert(buf@ =~= old(buf)@ + head_bytes(n@));
}

fn push_middle(buf: &mut Vec<u8>, n: &MemoryNode)
    ensures
        final(buf)@ == old(buf)@ + middle_bytes(n@),
{
    let f = &n.filaments;
    push_u32(buf, f.emotion_valence);
    push_u32(buf, f.emotion_intensity);
    push_i64(buf, f.created_at);
    push_u32(buf, f.decay_rate);
    push_u32(buf, f.relations.len() as u32);
    push_strs(buf, &f.relations);
    assert(buf@ =~= old(buf)@ + middle_bytes(n@));
}

fn push_tail(buf: &mut Vec<u8>, n: &MemoryNode)
    ensures
        final(buf)@ == old(buf)@ + tail_bytes(n@),
{
    push_u32(buf, n.filaments.confidence);
    push_u32(buf, n.filaments.mentions_7d);
    push_u32(buf, n.tension.baseline);
    push_i64(buf, n.tension.last_updated);
    push_u32(buf, n.embedding.len() as u32);
    push_words(buf, &n.embedding);
    assert(buf@ =~= old(buf)@ + tail_bytes(n@));
}

fn push_node(buf: &mut Vec<u8>, n: &MemoryNode)
    ensures
        final(buf)@ == old(buf)@ + node_bytes(n@),
{
    push_head(buf, n);
    push_middle(buf, n);
    push_tail(buf, n);
    assert(buf@ =~= old(buf)@ + node_bytes(n@));
}

/// Encodes nodes as a `.nylon` byte stream (always the v1 format).
pub fn encode_nodes(nodes: &[MemoryNode]) -> (buf: Vec<u8>)
    ensures
        buf@ == encoding(nodes_view(nodes@)),
{
    let ghost ns = nodes_view(nodes@);
    let mut buf: Vec<u8> = Vec::new();
    buf.extend_from_slice(&MAGIC_V1);
    assert(buf@ =~= magic_v1());
    push_u64(&mut buf, nodes.len() as u64);
    let ghost header = buf@;
    let mut i: usize = 0;
    while i < nodes.len()
        invariant
            i <= nodes.len(),
            ns == nodes_view(nodes@),
            header == magic_v1() + le_u64(ns.len() as u64),
            buf@ == header + concat_all(Seq::new(i as nat, |j: int| node_bytes(ns[j]))),
        decreases nodes.len() - i,
    {
        push_node(&mut buf, &nodes[i]);
        proof {
            let parts = Seq::new(i as nat, |j: int| node_bytes(ns[j]));
            lemma_concat_all_push(parts, node_bytes(ns[i as int]));
            assert(parts.push(node_bytes(ns[i as int])) =~= Seq::new(
                (i + 1) as nat,
                |j: int| node_bytes(ns[j]),
            ));
        }
        i = i + 1;
    }
    assert(Seq::new(i as nat, |j: int| node_bytes(ns[j])) =~= Seq::new(
        ns.len(),
        |j: int| node_bytes(ns[j]),
    ));
    buf
}

/// Encodes a single node as a one-node `.nylon` byte stream.
pub fn encode_node(node: &MemoryNode) -> (buf: Vec<u8>)
    ensures
        buf@ == encoding(seq![node@]),
{
    let mut buf: Vec<u8> = Vec::new();
    buf.extend_from_slice(&MAGIC_V1);
    push_u64(&mut buf, 1);
    push_node(&mut buf, node);
    proof {
        let ns = seq![node@];
        let parts = Seq::new(ns.len(), |i: int| node_bytes(ns[i]));
        assert(parts.drop_last() =~= Seq::<Seq<u8>>::empty());
        assert(concat_all(parts.drop_last()) == Seq::<u8>::empty());
        assert(parts.last() == node_bytes(node@));
        assert(concat_all(parts) =~= node_bytes(node@));
        assert(buf@ =~= encoding(ns));
    }
    buf
}

// ---------------------------------------------------------------------------
// Executable decoder.
// ---------------------------------------------------------------------------


/// A read of `r` (in the executable reader) agrees with the read `spec`
/// of the bytes that remained, leaving `rest` to be read.
pub open spec fn read_agrees<T>(
    r: Result<T, DecodeError>,
    rest: Seq<u8>,
    spec: Result<(T, Seq<u8>), DecodeError>,
) -> bool {
    match spec {
        Ok((v, after)) => r == Ok::<T, DecodeError>(v) && rest == after,
        Err(e) => r == Err::<T, DecodeError>(e),
    }
}

struct Reader<'a> {
    buf: &'a [u8],
    pos: usize,
}

impl<'a> Reader<'a> {
    spec fn rest(&self) -> Seq<u8> {
        self.buf@.skip(self.pos as int)
    }

    spec fn wf(&self) -> bool {
        self.pos <= self.buf@.len()
    }

    fn take(&mut self, n: usize) -> (r: Result<&'a [u8], DecodeError>)
        requires
            old(self).wf(),
        ensures
            final(self).wf(),
            final(self).buf == old(self).buf,
            match read_bytes(old(self).rest(), n as int) {
                Ok((v, after)) => r matches Ok(x) && x@ == v && final(self).rest() == after,
                Err(e) => r == Err::<&'a [u8], DecodeError>(e),
            },
    {
        if n > self.buf.len() - self.pos {
            return Err(DecodeError::Truncated);
        }
        let s = slice_subrange(self.buf, self.pos, self.pos + n);
        let ghost old_rest = self.rest();
        self.pos = self.pos + n;
        assert(s@ =~= old_rest.take(n as int));
        assert(self.rest() =~= old_rest.skip(n as int));
        Ok(s)
    }

    fn read_u32(&mut self) -> (r: Result<u32, DecodeError>)
        requires
            old(self).wf(),
        ensures
            final(self).wf(),
            final(self).buf == old(self).buf,
            read_agrees(r, final(self).rest(), read_u32(old(self).rest())),
    {
        let b = self.take(4)?;
        Ok(u32_from_le_bytes(b))
    }

    fn read_u64(&mut self) -> (r: Result<u64, DecodeError>)
        requires
            old(self).wf(),
        ensures
            final(self).wf(),
            final(self).buf == old(self).buf,
            read_agrees(r, final(self).rest(), read_u64(old(self).rest())),
    {
        let b = self.take(8)?;
        Ok(u64_from_le_bytes(b))
    }

    fn read_i64(&mut self) -> (r: Result<i64, DecodeError>)
        requires
            old(self).wf(),
        ensures
            final(self).wf(),
            final(self).buf == old(self).buf,
            read_agrees(r, final(self).rest(), read_i64(old(self).rest())),
    {
        let v = self.read_u64()?;
        Ok(v as i64)
    }

    fn read_str(&mut self) -> (r: Result<String, DecodeError>)
        requires
            old(self).wf(),
        ensures
            final(self).wf(),
            final(self).buf == old(self).buf,
            match read_str(old(self).rest()) {
                Ok((v, after)) => r matches Ok(x) && x@ == v && final(self).rest() == after,
                Err(e) => r == Err::<String, DecodeError>(e),
            },
    {
        let len = self.read_u32()?;
        let bytes = self.take(len as usize)?;
        match string_from_utf8(slice_to_vec(bytes)) {
            Some(s) => Ok(s),
            None => Err(DecodeError::InvalidUtf8),
        }
    }

    fn read_strs(&mut self, k: u32) -> (r: Result<Vec<String>, DecodeError>)
        requires
            old(self).wf(),
        ensures
            final(self).wf(),
            final(self).buf == old(self).buf,
            match read_strs(old(self).rest(), k as nat) {
                Ok((v, after)) => r matches Ok(x) && strings_view(x@) == v && final(self).rest()
                    == after,
                Err(e) => r matches Err(e2) && e2 == e,
            },
    {
        let ghost start = self.rest();
        let mut out: Vec<String> = Vec::new();
        let mut i: u32 = 0;
        while i < k
            invariant
                self.wf(),
                self.buf == old(self).buf,
                i <= k,
                start == old(self).rest(),
                read_strs(start, k as nat) == match read_strs(self.rest(), (k - i) as nat) {
                    Ok((v, after)) => Ok((strings_view(out@) + v, after)),
                    Err(e) => Err(e),
                },
            decreases k - i,
        {
            let ghost before = self.rest();
            let ghost prev = out@;
            let x = self.read_str()?;
            out.push(x);
            proof {
                assert(strings_view(out@) =~= strings_view(prev) + seq![x@]);
                match read_strs(self.rest(), (k - i - 1) as nat) {
                    Ok((v, after)) => {
                        assert(strings_view(prev) + (seq![x@] + v) =~= strings_view(out@) + v);
                    },
                    Err(e) => {},
                }
            }
            i = i + 1;
        }
        assert(strings_view(out@) + Seq::<Seq<char>>::empty() =~= strings_view(out@));
        Ok(out)
    }

    fn read_words(&mut self, k: u32) -> (r: Result<Vec<u32>, DecodeError>)
        requires
            old(self).wf(),
        ensures
            final(self).wf(),
            final(self).buf == old(self).buf,
            match read_words(old(self).rest(), k as nat) {
                Ok((v, after)) => r matches Ok(x) && x@ == v && final(self).rest() == after,
                Err(e) => r matches Err(e2) && e2 == e,
            },
    {
        let ghost start = self.rest();
        let mut out: Vec<u32> = Vec::new();
        let mut i: u32 = 0;
        while i < k
            invariant
                self.wf(),
                self.buf == old(self).buf,
                i <= k,
                start == old(self).rest(),
                read_words(start, k as nat) == match read_words(self.rest(), (k - i) as nat) {
                    Ok((v, after)) => Ok((out@ + v, after)),
                    Err(e) => Err(e),
                },
            decreases k - i,
        {
            let ghost prev = out@;
            let x = self.read_u32()?;
            out.push(x);
            proof {
                match read_words(self.rest(), (k - i - 1) as nat) {
                    Ok((v, after)) => {
                        assert(prev + (seq![x] + v) =~= out@ + v);
                    },
                    Err(e) => {},
                }
            }
            i = i + 1;
        }
        assert(out@ + Seq::<u32>::empty() =~= out@);
        Ok(out)
    }
}

fn decode_node(r: &mut Reader, has_tenant: bool) -> (res: Result<MemoryNode, DecodeError>)
    requires
        old(r).wf(),
    ensures
        final(r).wf(),
        final(r).buf == old(r).buf,
        match read_node(old(r).rest(), has_tenant) {
            Ok((v, after)) => res matches Ok(x) && x@ == v && final(r).rest() == after,
            Err(e) => res matches Err(e2) && e2 == e,
        },
{
    reveal(read_node);
    let id = r.read_u64()?;
    let tenant_id = if has_tenant {
        r.read_str()?
    } else {
        proof {
            reveal_strlit("default");
        }
        DEFAULT_TENANT.to_owned()
    };
    let owner_id = r.read_str()?;
    let fact = r.read_str()?;
    let emotion_valence = r.read_u32()?;
    let emotion_intensity = r.read_u32()?;
    let created_at = r.read_i64()?;
    let decay_rate = r.read_u32()?;
    let rel_count = r.read_u32()?;
    let relations = r.read_strs(rel_count)?;
    let confidence = r.read_u32()?;
    let mentions_7d = r.read_u32()?;
    let baseline = r.read_u32()?;
    let last_updated = r.read_i64()?;
    let dim = r.read_u32()?;
    let embedding = r.read_words(dim)?;
    Ok(
        MemoryNode {
            id,
            tenant_id,
            owner_id,
            filaments: Filaments {
                fact,
                emotion_valence,
                emotion_intensity,
                created_at,
                decay_rate,
                relations,
                confidence,
                mentions_7d,
            },
            tension: Tension { baseline, last_updated },
            embedding,
        },
    )
}

/// Decodes a `.nylon` byte stream (v1, or v0 with the default tenant).
/// Bytes after the last counted record are ignored.
pub fn decode_nodes(buf: &[u8]) -> (r: Result<Vec<MemoryNode>, DecodeError>)
    ensures
        match decoding(buf@) {
            Ok(ns) => r matches Ok(v) && nodes_view(v@) == ns,
            Err(e) => r matches Err(e2) && e2 == e,
        },
{
    let mut r = Reader { buf, pos: 0 };
    assert(r.rest() =~= buf@);
    let magic = r.take(4)?;
    let has_tenant = if magic[0] == 0x4e && magic[1] == 0x59 && magic[2] == 0x4c && magic[3] == 0x31 {
        true
    } else if magic[0] == 0x4e && magic[1] == 0x59 && magic[2] == 0x4c && magic[3] == 0x30 {
        false
    } else {
        assert(buf@.take(4) != magic_v1());
        assert(buf@.take(4) != magic_v0());
        return Err(DecodeError::BadMagic);
    };
    assert(has_tenant ==> buf@.take(4) =~= magic_v1());
    assert(!has_tenant ==> buf@.take(4) =~= magic_v0());
    assert(r.rest() =~= buf@.skip(4));
    let count = r.read_u64()?;
    let ghost start = r.rest();
    let mut nodes: Vec<MemoryNode> = Vec::new();
    let mut i: u64 = 0;
    while i < count
        invariant
            r.wf(),
            r.buf == buf,
            i <= count,
            decoding(buf@) == match read_nodes(r.rest(), has_tenant, (count - i) as nat) {
                Ok(ns) => Ok(nodes_view(nodes@) + ns),
                Err(e) => Err(e),
            },
        decreases count - i,
    {
        let ghost prev = nodes@;
        let n = decode_node(&mut r, has_tenant)?;
        nodes.push(n);
        proof {
            assert(nodes_view(nodes@) =~= nodes_view(prev) + seq![n@]);
            match read_nodes(r.rest(), has_tenant, (count - i - 1) as nat) {
                Ok(ns) => {
                    assert(nodes_view(prev) + (seq![n@] + ns) =~= nodes_view(nodes@) + ns);
                },
                Err(e) => {},
            }
        }
        i = i + 1;
    }
    assert(nodes_view(nodes@) + Seq::<NodeModel>::empty() =~= nodes_view(nodes@));
    Ok(nodes)
}

} // verus!
