use nylon::csr::CsrGraph;
use nylon::graph::MemoryGraph;
use nylon::model::{Filaments, MemoryNode, Tension};

fn bits(v: f32) -> u32 {
    v.to_bits()
}

fn node(fact: &str, relations: &[&str]) -> MemoryNode {
    MemoryNode {
        id: 0,
        tenant_id: "default".into(),
        owner_id: "alice".into(),
        filaments: Filaments {
            fact: fact.into(),
            emotion_valence: bits(0.5),
            emotion_intensity: bits(0.5),
            created_at: 0,
            decay_rate: bits(0.01),
            relations: relations.iter().map(|s| s.to_string()).collect(),
            confidence: bits(0.9),
            mentions_7d: 0,
        },
        tension: Tension { baseline: bits(0.8), last_updated: 0 },
        embedding: vec![],
    }
}

fn node_at(fact: &str, relations: &[&str], created_at: i64) -> MemoryNode {
    let mut n = node(fact, relations);
    n.filaments.created_at = created_at;
    n
}

#[test]
fn csr_neighbors_roundtrip() {
    let g = CsrGraph::from_edges(3, &[(0, 1, bits(0.9)), (0, 2, bits(0.5)), (2, 0, bits(0.3))]);
    let mut ns = g.neighbors(0);
    ns.sort_by_key(|&(t, _)| t);
    assert_eq!(ns, vec![(1, bits(0.9)), (2, bits(0.5))]);
}

#[test]
fn update_node_rewrites_filaments() {
    let mut g = MemoryGraph::new();
    let a = g.add_node(node("旧事实", &["工作"]));
    let mut updated = node("新事实", &["生活"]);
    updated.filaments.emotion_valence = bits(-0.5);
    assert!(g.update_node(a, updated));
    let n = g.get_node(a).unwrap();
    assert_eq!(n.filaments.fact, "新事实");
    assert_eq!(n.filaments.relations, vec!["生活".to_string()]);
    assert_eq!(f32::from_bits(n.filaments.emotion_valence), -0.5);
    assert!(!g.update_node(999, node("幽灵", &[])), "不存在的节点应返回 false");
}

#[test]
fn remove_node_excludes_from_resonance_and_lookup() {
    let mut g = MemoryGraph::new();
    let a = g.add_node(node("a", &[]));
    let b = g.add_node(node("b", &[]));
    let c = g.add_node(node("c", &[]));
    g.add_edge(a, b, bits(0.9));
    g.add_edge(b, c, bits(0.9));
    assert!(g.remove_node(b));
    assert!(g.get_node(b).is_none(), "墓碑节点对外不可见");
    assert_eq!(g.node_count(), 2);
    assert!(!g.remove_node(b), "重复删除应返回 false");
    assert!(!g.delta_has_source(b), "b 的 Delta 出边应被清理");
    // What resonance may reach from a: live edges only.
    let reach: Vec<u32> = g.live_edges().into_iter().filter(|e| e.0 == a).map(|e| e.1).collect();
    assert!(!reach.contains(&b), "删除的节点不参与共振结果");
    assert!(!reach.contains(&c), "b 删除后 c 应不可达");
    assert!(g.neighbors(b).is_empty());
}

#[test]
fn remove_node_tombstones_csr_outgoing_edges() {
    let mut g = MemoryGraph::new();
    let a = g.add_node(node("a", &[]));
    let b = g.add_node(node("b", &[]));
    g.add_edge(a, b, bits(0.9));
    assert!(g.can_compact());
    g.compact();
    assert!(g.remove_node(a));
    assert!(g.neighbors(a).is_empty(), "CSR 出边应被边墓碑屏蔽");
    assert!(g.has_edge_tombstone(a, b));
}

#[test]
fn remove_edge_works_in_delta_and_csr() {
    let mut g = MemoryGraph::new();
    let a = g.add_node(node("a", &[]));
    let b = g.add_node(node("b", &[]));
    let c = g.add_node(node("c", &[]));
    g.add_edge(a, b, bits(0.9));
    assert!(g.remove_edge(a, b), "Delta 中的边应直接移除");
    assert!(!g.remove_edge(a, b), "重复删除应返回 false");
    assert_eq!(g.delta_edge_count(), 0);
    g.add_edge(a, b, bits(0.9));
    g.add_edge(b, c, bits(0.9));
    g.compact();
    assert!(g.remove_edge(a, b), "CSR 中的边应加墓碑");
    assert!(g.has_edge_tombstone(a, b));
    // b and c are out of reach from a: a has no live out-edge left.
    assert!(g.neighbors(a).is_empty(), "删边后 b/c 不可达");
}

#[test]
fn update_edge_changes_weight_in_delta_and_csr() {
    let mut g = MemoryGraph::new();
    let a = g.add_node(node("a", &[]));
    let b = g.add_node(node("b", &[]));
    g.add_edge(a, b, bits(0.5));
    assert!(g.update_edge(a, b, bits(0.9)), "Delta 中的边应可更新");
    assert!(g.neighbors(a).contains(&(b, bits(0.9))));
    g.compact();
    assert!(g.update_edge(a, b, bits(0.3)), "CSR 中的边应可更新");
    assert!(g.neighbors(a).contains(&(b, bits(0.3))));
    assert!(!g.neighbors(a).contains(&(b, bits(0.9))), "旧权重不应残留");
    assert!(!g.update_edge(a, 999, bits(0.1)), "不存在的边应返回 false");
    assert!(g.remove_edge(a, b));
    assert!(!g.update_edge(a, b, bits(1.0)), "墓碑边不应被更新复活");
}

#[test]
fn find_by_relation_filters_live_nodes() {
    let mut g = MemoryGraph::new();
    let a = g.add_node(node("靠窗座位", &["出差", "住宿"]));
    let b = g.add_node(node("科幻小说", &["阅读"]));
    let _c = g.add_node(node("无标签", &[]));
    assert_eq!(g.find_by_relation("出差"), vec![a]);
    assert_eq!(g.find_by_relation("阅读"), vec![b]);
    assert!(g.find_by_relation("不存在").is_empty());
    g.remove_node(a);
    assert!(g.find_by_relation("出差").is_empty(), "已删除节点不应命中");
}

#[test]
fn find_by_time_range_filters_inclusive_bounds() {
    let mut g = MemoryGraph::new();
    let a = g.add_node(node_at("早", &[], 100));
    let b = g.add_node(node_at("中", &[], 200));
    let c = g.add_node(node_at("晚", &[], 300));
    assert_eq!(g.find_by_time_range(150, 250), vec![b]);
    assert_eq!(g.find_by_time_range(100, 300), vec![a, b, c], "闭区间边界应包含端点");
    assert_eq!(g.find_by_time_range(100, 100), vec![a]);
    assert!(g.find_by_time_range(400, 500).is_empty());
    g.remove_node(b);
    assert_eq!(g.find_by_time_range(100, 300), vec![a, c], "已删除节点不应命中");
}

#[test]
fn compact_merges_delta_and_applies_tombstones() {
    let mut g = MemoryGraph::new();
    let a = g.add_node(node("a", &[]));
    let b = g.add_node(node("b", &[]));
    let c = g.add_node(node("c", &[]));
    let d = g.add_node(node("d", &[]));
    g.add_edge(a, b, bits(0.9));
    g.add_edge(a, c, bits(0.5));
    g.compact();
    assert!(!g.needs_compaction());
    assert_eq!(g.delta_edge_count(), 0);
    g.add_edge(b, d, bits(0.9));
    g.remove_edge(a, c);
    g.remove_node(b);
    g.compact();
    assert_eq!(g.node_count(), 3, "b 应被物理删除");
    assert!(g.get_node(b).is_none());
    assert_eq!(g.delta_edge_count(), 0);
    assert!(g.tombstone_count() == 0 && g.edge_tombstone_count() == 0, "墓碑应被清空");
    assert!(g.neighbors(a).is_empty(), "a→b/a→c 都应被物理清除");
    assert!(g.live_edges().is_empty(), "compact 后只剩 a 可达");
    g.add_edge(a, d, bits(0.7));
    assert_eq!(g.neighbors(a), vec![(d, bits(0.7))], "compact 后新增边应立即可达");
}

#[test]
fn duplicate_edges_dedup_with_delta_winning() {
    let mut g = MemoryGraph::new();
    let a = g.add_node(node("A", &[]));
    let b = g.add_node(node("B", &[]));
    g.add_edge(a, b, bits(0.5));
    g.compact();
    g.add_edge(a, b, bits(0.9));
    let ns = g.neighbors(a);
    assert_eq!(ns.len(), 1, "合并视图不应有重复边: {ns:?}");
    assert_eq!(ns[0].1, bits(0.9), "Delta 应覆盖 CSR");
    g.compact();
    let ns = g.neighbors(a);
    assert_eq!(ns.len(), 1, "compact 后不应有重复边: {ns:?}");
    assert_eq!(ns[0].1, bits(0.9));
    g.add_edge(a, b, bits(0.3));
    g.add_edge(a, b, bits(0.7));
    let ns = g.neighbors(a);
    assert_eq!(ns.len(), 1, "Delta 内重复边应合并: {ns:?}");
    assert_eq!(ns[0].1, bits(0.7));
}

#[test]
fn ids_are_monotonic_and_restorable() {
    let mut g = MemoryGraph::new();
    assert_eq!(g.peek_next_local_id(), 0);
    g.add_node_with_id(5, node("x", &[]));
    assert_eq!(g.peek_next_local_id(), 6);
    g.restore_next_local_id(3);
    assert_eq!(g.peek_next_local_id(), 6);
    g.restore_next_local_id(10);
    assert_eq!(g.add_node(node("y", &[])), 10);
    assert_eq!(g.live_ids(), vec![5, 10]);
}

#[test]
fn live_edges_skip_dead_targets() {
    let mut g = MemoryGraph::new();
    let a = g.add_node(node("a", &[]));
    let b = g.add_node(node("b", &[]));
    let c = g.add_node(node("c", &[]));
    g.add_edge(a, b, 1);
    g.add_edge(a, c, 2);
    g.add_edge(c, a, 3);
    g.remove_node(b);
    let mut es = g.live_edges();
    es.sort();
    assert_eq!(es, vec![(a, c, 2), (c, a, 3)]);
    assert_eq!(g.csr_edge_count(), 0);
}

#[test]
fn csr_edge_queries() {
    let mut g = CsrGraph::from_edges(3, &[(0, 1, 7), (1, 2, 8)]);
    assert_eq!(g.edge_count(), 2);
    assert_eq!(g.slot_count(), 4);
    assert!(g.has_edge(0, 1));
    assert!(!g.has_edge(0, 2));
    assert!(g.update_weight(1, 2, 9));
    assert_eq!(g.neighbors(1), vec![(2, 9)]);
    assert!(!g.update_weight(2, 0, 1));
    assert_eq!(CsrGraph::empty().edge_count(), 0);
}
