use nylon::model::{Filaments, MemoryNode, Tension, DEFAULT_TENANT};
use nylon::wire::{decode_nodes, encode_node, encode_nodes, DecodeError, MAGIC, MAGIC_V1};

fn bits(v: f32) -> u32 {
    v.to_bits()
}

fn sample(fact: &str, relations: &[&str], embedding: Vec<f32>) -> MemoryNode {
    MemoryNode {
        id: 42,
        tenant_id: "acme".into(),
        owner_id: "alice".into(),
        filaments: Filaments {
            fact: fact.into(),
            emotion_valence: bits(0.75),
            emotion_intensity: bits(0.5),
            created_at: 1_754_400_000,
            decay_rate: bits(0.01),
            relations: relations.iter().map(|s| s.to_string()).collect(),
            confidence: bits(0.9),
            mentions_7d: 7,
        },
        tension: Tension { baseline: bits(0.8), last_updated: 1_754_400_000 },
        embedding: embedding.into_iter().map(bits).collect(),
    }
}

fn push_u32(buf: &mut Vec<u8>, v: u32) {
    buf.extend_from_slice(&v.to_le_bytes());
}

fn push_u64(buf: &mut Vec<u8>, v: u64) {
    buf.extend_from_slice(&v.to_le_bytes());
}

fn push_i64(buf: &mut Vec<u8>, v: i64) {
    buf.extend_from_slice(&v.to_le_bytes());
}

fn push_f32(buf: &mut Vec<u8>, v: f32) {
    buf.extend_from_slice(&v.to_le_bytes());
}

fn push_str(buf: &mut Vec<u8>, s: &str) {
    push_u32(buf, s.len() as u32);
    buf.extend_from_slice(s.as_bytes());
}

#[test]
fn roundtrip_preserves_all_filaments() {
    let nodes = vec![
        sample("用户喜欢 Python", &["编程", "工作"], vec![0.1, 0.2, 0.3]),
        sample("上次出差：上海，住了哪家酒店来着？", &["出差"], vec![]),
        sample("空关系丝", &[], (0..768).map(|i| i as f32 * 0.001).collect()),
    ];
    let bytes = encode_nodes(&nodes);
    let back = decode_nodes(&bytes).unwrap();
    assert_eq!(back, nodes, "roundtrip 应完全保真");
}

#[test]
fn empty_set_roundtrip() {
    let bytes = encode_nodes(&[]);
    assert_eq!(decode_nodes(&bytes).unwrap(), vec![]);
}

#[test]
fn rejects_bad_magic() {
    assert_eq!(decode_nodes(b"XXXX1234"), Err(DecodeError::BadMagic));
}

#[test]
fn decodes_v0_with_default_tenant() {
    let mut buf = Vec::new();
    buf.extend_from_slice(&MAGIC);
    push_u64(&mut buf, 1);
    push_u64(&mut buf, 7);
    push_str(&mut buf, "bob");
    push_str(&mut buf, "旧数据");
    push_f32(&mut buf, 0.1);
    push_f32(&mut buf, 0.2);
    push_i64(&mut buf, 1000);
    push_f32(&mut buf, 0.01);
    push_u32(&mut buf, 1);
    push_str(&mut buf, "旧标签");
    push_f32(&mut buf, 0.9);
    push_u32(&mut buf, 3);
    push_f32(&mut buf, 0.8);
    push_i64(&mut buf, 1000);
    push_u32(&mut buf, 0);
    let nodes = decode_nodes(&buf).unwrap();
    assert_eq!(nodes.len(), 1);
    assert_eq!(nodes[0].tenant_id, DEFAULT_TENANT);
    assert_eq!(nodes[0].owner_id, "bob");
    assert_eq!(nodes[0].filaments.fact, "旧数据");
}

#[test]
fn v1_roundtrip_preserves_tenant() {
    let nodes = vec![sample("跨租户数据", &["隔离"], vec![0.5])];
    let bytes = encode_nodes(&nodes);
    assert_eq!(&bytes[..4], MAGIC_V1);
    let back = decode_nodes(&bytes).unwrap();
    assert_eq!(back[0].tenant_id, "acme");
}

#[test]
fn rejects_truncated() {
    let bytes = encode_nodes(&[sample("截断测试", &["a"], vec![1.0])]);
    let cut = &bytes[..bytes.len() - 3];
    assert_eq!(decode_nodes(cut), Err(DecodeError::Truncated));
}

#[test]
fn rejects_invalid_utf8() {
    let mut buf = Vec::new();
    buf.extend_from_slice(&MAGIC_V1);
    push_u64(&mut buf, 1);
    push_u64(&mut buf, 7);
    push_u32(&mut buf, 2);
    buf.extend_from_slice(&[0xff, 0xfe]);
    assert_eq!(decode_nodes(&buf), Err(DecodeError::InvalidUtf8));
}

#[test]
fn header_layout_is_exact() {
    let bytes = encode_nodes(&[]);
    assert_eq!(bytes, vec![0x4e, 0x59, 0x4c, 0x31, 0, 0, 0, 0, 0, 0, 0, 0]);
    let one = encode_node(&sample("x", &[], vec![]));
    assert_eq!(one, encode_nodes(&[sample("x", &[], vec![])]));
}

#[test]
fn error_descriptions() {
    assert_eq!(DecodeError::BadMagic.describe(), "bad magic header");
    assert_eq!(DecodeError::Truncated.describe(), "truncated data");
}

#[test]
fn every_strict_prefix_is_truncated() {
    let nodes = vec![sample("事实 A", &["x", "yy"], vec![1.0, 2.0]), sample("b", &[], vec![])];
    let bytes = encode_nodes(&nodes);
    for k in 0..bytes.len() {
        assert_eq!(decode_nodes(&bytes[..k]), Err(DecodeError::Truncated), "prefix {k}");
    }
    assert!(decode_nodes(&bytes).is_ok());
}

#[test]
fn encoding_length_formula() {
    let nodes = vec![sample("事实 A", &["x", "yy"], vec![1.0, 2.0]), sample("b", &[], vec![])];
    let bytes = encode_nodes(&nodes);
    assert_eq!(&bytes[..4], &MAGIC_V1);
    assert_eq!(&bytes[4..12], &2u64.to_le_bytes());
    let expected: usize = 12
        + nodes
            .iter()
            .map(|n| {
                68 + n.tenant_id.len()
                    + n.owner_id.len()
                    + n.filaments.fact.len()
                    + n.filaments.relations.iter().map(|r| 4 + r.len()).sum::<usize>()
                    + 4 * n.embedding.len()
            })
            .sum::<usize>();
    assert_eq!(bytes.len(), expected);
}
