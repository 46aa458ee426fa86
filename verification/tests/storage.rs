use nylon::crc32::crc32;
use nylon::engine::engine_stats;
use nylon::graph::MemoryGraph;
use nylon::model::{Filaments, MemoryNode, Tension};
use nylon::storage::{apply, encode_snapshot, load_snapshot, SnapshotError};
use nylon::wal::{decode_op, encode_op, frame, replay_log, WalOp};

fn bits(v: f32) -> u32 {
    v.to_bits()
}

fn node(id: u64, fact: &str) -> MemoryNode {
    MemoryNode {
        id,
        tenant_id: "default".into(),
        owner_id: "test".into(),
        filaments: Filaments {
            fact: fact.into(),
            emotion_valence: bits(0.5),
            emotion_intensity: bits(0.5),
            created_at: 1000 + id as i64,
            decay_rate: bits(0.01),
            relations: vec!["测试".into()],
            confidence: bits(0.9),
            mentions_7d: 1,
        },
        tension: Tension { baseline: bits(0.8), last_updated: 0 },
        embedding: vec![bits(1.0), bits(2.0), bits(3.0)],
    }
}

/// A data directory held in memory: the log file and the snapshot file.
#[derive(Default)]
struct Dir {
    wal: Vec<u8>,
    snapshot: Option<Vec<u8>>,
}

/// The write path: log first, then the graph.
struct Store<'a> {
    graph: MemoryGraph,
    dir: &'a mut Dir,
}

impl<'a> Store<'a> {
    fn open(dir: &'a mut Dir) -> Store<'a> {
        let mut graph = match &dir.snapshot {
            Some(b) => load_snapshot(b).unwrap(),
            None => MemoryGraph::new(),
        };
        let (ops, end) = replay_log(&dir.wal);
        dir.wal.truncate(end);
        for op in ops {
            apply(&mut graph, op);
        }
        Store { graph, dir }
    }

    fn log(&mut self, op: WalOp) {
        self.dir.wal.extend_from_slice(&frame(&op));
        apply(&mut self.graph, op);
    }

    fn add_node(&mut self, n: MemoryNode) -> u32 {
        let local = self.graph.peek_next_local_id();
        self.log(WalOp::PutNode { id: local, node: n });
        local
    }

    fn checkpoint(&mut self) {
        self.dir.snapshot = Some(encode_snapshot(&self.graph));
        self.dir.wal.clear();
    }
}

#[test]
fn reopen_after_checkpoint() {
    let mut dir = Dir::default();
    {
        let mut pg = Store::open(&mut dir);
        let a = pg.add_node(node(1, "甲"));
        let b = pg.add_node(node(2, "乙"));
        pg.log(WalOp::PutEdge { from: a, to: b, weight: bits(0.9) });
        pg.checkpoint();
    }
    let mut pg = Store::open(&mut dir);
    assert_eq!(pg.graph.node_count(), 2);
    assert_eq!(pg.graph.get_node(0).unwrap().filaments.fact, "甲");
    assert_eq!(pg.graph.live_edges(), vec![(0, 1, bits(0.9))]);
    let c = pg.add_node(node(3, "丙"));
    assert_eq!(c, 2);
}

#[test]
fn crash_recovery_without_checkpoint() {
    let mut dir = Dir::default();
    {
        let mut pg = Store::open(&mut dir);
        for i in 0..3u64 {
            pg.add_node(node(i, &format!("节点{i}")));
        }
        pg.log(WalOp::PutEdge { from: 0, to: 1, weight: bits(0.5) });
        pg.log(WalOp::PutEdge { from: 1, to: 2, weight: bits(0.6) });
    }
    let pg = Store::open(&mut dir);
    assert_eq!(pg.graph.node_count(), 3);
    assert_eq!(pg.graph.live_edges().len(), 2);
    assert_eq!(pg.graph.get_node(2).unwrap().filaments.fact, "节点2");
}

#[test]
fn wal_tail_corruption_truncated() {
    let mut dir = Dir::default();
    {
        let mut pg = Store::open(&mut dir);
        pg.add_node(node(1, "完好的"));
        pg.add_node(node(2, "也在"));
    }
    dir.wal.extend_from_slice(&[0xDE, 0xAD, 0xBE]);
    {
        let pg = Store::open(&mut dir);
        assert_eq!(pg.graph.node_count(), 2);
    }
    {
        let mut pg = Store::open(&mut dir);
        pg.add_node(node(3, "截断后再写"));
    }
    let pg = Store::open(&mut dir);
    assert_eq!(pg.graph.node_count(), 3);
}

#[test]
fn removals_persist() {
    let mut dir = Dir::default();
    {
        let mut pg = Store::open(&mut dir);
        pg.add_node(node(1, "留"));
        pg.add_node(node(2, "删"));
        pg.add_node(node(3, "也留"));
        pg.log(WalOp::PutEdge { from: 0, to: 1, weight: bits(0.5) });
        pg.log(WalOp::PutEdge { from: 0, to: 2, weight: bits(0.7) });
        assert!(pg.graph.contains_node(1));
        pg.log(WalOp::RemoveNode { id: 1 });
        pg.log(WalOp::RemoveEdge { from: 0, to: 2 });
        pg.checkpoint();
    }
    let pg = Store::open(&mut dir);
    assert_eq!(pg.graph.node_count(), 2);
    assert!(pg.graph.get_node(1).is_none());
    assert!(pg.graph.live_edges().is_empty());
}

#[test]
fn updates_persist() {
    let mut dir = Dir::default();
    {
        let mut pg = Store::open(&mut dir);
        pg.add_node(node(1, "旧事实"));
        pg.add_node(node(2, "目标"));
        pg.log(WalOp::PutEdge { from: 0, to: 1, weight: bits(0.3) });
        let mut updated = node(1, "新事实");
        updated.filaments.confidence = bits(0.5);
        pg.log(WalOp::UpdateNode { id: 0, node: updated });
        pg.log(WalOp::PutEdge { from: 0, to: 1, weight: bits(0.95) });
        pg.checkpoint();
    }
    let pg = Store::open(&mut dir);
    let n = pg.graph.get_node(0).unwrap();
    assert_eq!(n.filaments.fact, "新事实");
    assert_eq!(f32::from_bits(n.filaments.confidence), 0.5);
    assert_eq!(pg.graph.live_edges(), vec![(0, 1, bits(0.95))]);
}

#[test]
fn crc32_check_value() {
    assert_eq!(crc32(b"123456789"), 0xCBF4_3926);
    assert_eq!(crc32(b""), 0);
}

#[test]
fn op_payloads_roundtrip() {
    let ops = vec![
        WalOp::PutNode { id: 3, node: node(3, "x") },
        WalOp::RemoveNode { id: 4 },
        WalOp::PutEdge { from: 1, to: 2, weight: bits(0.25) },
        WalOp::RemoveEdge { from: 5, to: 6 },
        WalOp::UpdateNode { id: 7, node: node(7, "y") },
    ];
    for op in ops {
        assert_eq!(decode_op(&encode_op(&op)), Some(op.clone()));
    }
    assert_eq!(encode_op(&WalOp::RemoveNode { id: 0x0102_0304 }), vec![2, 4, 3, 2, 1]);
    assert_eq!(decode_op(&[9, 0, 0, 0, 0]), None);
    assert_eq!(decode_op(&[3, 1, 0, 0]), None);
}

#[test]
fn replay_stops_at_bad_crc() {
    let mut log = frame(&WalOp::RemoveNode { id: 1 });
    let good = log.len();
    let mut bad = frame(&WalOp::RemoveNode { id: 2 });
    bad[4] ^= 0xff;
    log.extend_from_slice(&bad);
    log.extend_from_slice(&frame(&WalOp::RemoveNode { id: 3 }));
    let (ops, end) = replay_log(&log);
    assert_eq!(ops, vec![WalOp::RemoveNode { id: 1 }]);
    assert_eq!(end, good);
}

#[test]
fn snapshot_errors() {
    assert_eq!(load_snapshot(b"SNP0").err(), Some(SnapshotError::BadHeader));
    assert_eq!(load_snapshot(b"XXXX\0\0\0\0\0\0\0\0").err(), Some(SnapshotError::BadHeader));
    let mut b = b"SNP0".to_vec();
    b.extend_from_slice(&5u32.to_le_bytes());
    b.extend_from_slice(&1u32.to_le_bytes());
    assert_eq!(load_snapshot(&b).err(), Some(SnapshotError::TruncatedNode));
    let mut b = b"SNP0".to_vec();
    b.extend_from_slice(&5u32.to_le_bytes());
    b.extend_from_slice(&0u32.to_le_bytes());
    assert_eq!(load_snapshot(&b).err(), Some(SnapshotError::TruncatedEdges));
    b.extend_from_slice(&0u32.to_le_bytes());
    let g = load_snapshot(&b).unwrap();
    assert_eq!(g.peek_next_local_id(), 5);
    assert_eq!(g.node_count(), 0);
}

#[test]
fn restore_keeps_node_and_edge_counts() {
    let mut g = MemoryGraph::new();
    let a = g.add_node(node(1, "a"));
    let b = g.add_node(node(2, "b"));
    let c = g.add_node(node(3, "c"));
    g.add_edge(a, b, bits(0.5));
    g.add_edge(b, c, bits(0.25));
    g.add_edge(c, a, bits(0.75));
    g.add_edge(a, b, bits(0.9));
    assert!(g.remove_node(c));
    let before = engine_stats(&g, 4, false, false);
    let restored = load_snapshot(&encode_snapshot(&g)).unwrap();
    let after = engine_stats(&restored, 4, false, false);
    assert_eq!((before.nodes, before.edges), (2, 1));
    assert_eq!((after.nodes, after.edges), (before.nodes, before.edges));
    assert_eq!(restored.neighbors(a), vec![(b, bits(0.9))]);
}

#[test]
fn replaying_an_operation_twice_changes_nothing_more() {
    let mut base = MemoryGraph::new();
    let a = base.add_node(node(1, "a"));
    let b = base.add_node(node(2, "b"));
    base.add_edge(a, b, bits(0.5));
    let ops = vec![
        WalOp::PutNode { id: 5, node: node(5, "e") },
        WalOp::UpdateNode { id: a, node: node(1, "a2") },
        WalOp::PutEdge { from: b, to: a, weight: bits(0.3) },
        WalOp::RemoveEdge { from: a, to: b },
        WalOp::RemoveNode { id: b },
    ];
    for op in ops {
        let mut once = load_snapshot(&encode_snapshot(&base)).unwrap();
        apply(&mut once, op.clone());
        let mut twice = load_snapshot(&encode_snapshot(&base)).unwrap();
        apply(&mut twice, op.clone());
        apply(&mut twice, op);
        assert_eq!(encode_snapshot(&once), encode_snapshot(&twice));
    }
}
