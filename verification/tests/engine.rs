use nylon::engine::{
    align_query, audit_limit, fuse_seeds, heuristic_weave, auto_link_targets, conflict_prompt, page_limit, bridge_node, conflict_candidates, conflict_ids, check_scope_args, check_weave_args,
    decompose_reply, derived_edges, engine_stats, join_lines, list_page, lookup_node, recent_seeds, resonate_budget,
    search_k, select_scoped_hits, session_facts_reply, session_leaf_text, session_line, task_seeds, visible_activations,
    bridges_reply, weave_node, ServiceError, WORLD_KNOWLEDGE_TAG,
};
use nylon::graph::MemoryGraph;
use nylon::llm::parse_json_loose;
use nylon::model::{Filaments, MemoryNode, Tension};

fn bits(v: f32) -> u32 {
    v.to_bits()
}

fn node(tenant: &str, owner: &str, fact: &str, relations: &[&str], created_at: i64) -> MemoryNode {
    MemoryNode {
        id: 0,
        tenant_id: tenant.into(),
        owner_id: owner.into(),
        filaments: Filaments {
            fact: fact.into(),
            emotion_valence: 0,
            emotion_intensity: bits(0.5),
            created_at,
            decay_rate: bits(0.01),
            relations: relations.iter().map(|s| s.to_string()).collect(),
            confidence: bits(0.8),
            mentions_7d: 1,
        },
        tension: Tension { baseline: bits(1.0), last_updated: created_at },
        embedding: vec![],
    }
}

#[test]
fn auto_link_never_crosses_tenant() {
    let mut g = MemoryGraph::new();
    let a = g.add_node(node("tenant-a", "alice", "手冲咖啡笔记", &["咖啡"], 1));
    let _b = g.add_node(node("tenant-b", "alice", "手冲咖啡笔记", &["咖啡"], 2));
    let c = g.add_node(node("tenant-a", "alice", "再来一条咖啡记录", &["咖啡"], 3));
    let links = auto_link_targets(&g, c, "tenant-a", "alice", &vec!["咖啡".to_string()]);
    assert_eq!(links, vec![a], "跨租户节点不得被自动建边: {links:?}");
}

#[test]
fn auto_links_stop_at_three_and_skip_self() {
    let mut g = MemoryGraph::new();
    let mut ids = Vec::new();
    for i in 0..6 {
        ids.push(g.add_node(node("t", "o", "x", &["tag", "more"], i)));
    }
    let other_owner = g.add_node(node("t", "p", "x", &["tag"], 9));
    let links = auto_link_targets(&g, ids[0], "t", "o", &vec!["tag".to_string(), "more".to_string()]);
    assert_eq!(links, vec![ids[1], ids[2], ids[3]]);
    assert!(!links.contains(&other_owner));
    assert!(auto_link_targets(&g, ids[0], "t", "o", &vec![]).is_empty());
}

#[test]
fn get_node_cross_tenant_not_found() {
    let mut g = MemoryGraph::new();
    let a = g.add_node(node("tenant-a", "alice", "只有 tenant-a 可见", &[], 1));
    let err = lookup_node(&g, "tenant-b", a as u64).unwrap_err();
    assert_eq!(err, ServiceError::NodeNotFound(a as u64));
    assert_eq!(err, lookup_node(&g, "tenant-b", 77).unwrap_err().clone_with_id(a as u64));
    assert!(lookup_node(&g, "tenant-a", a as u64).is_ok());
    assert_eq!(lookup_node(&g, "", a as u64).unwrap_err(), ServiceError::EmptyTenant);
    assert_eq!(lookup_node(&g, "tenant-a", 1 << 40).unwrap_err(), ServiceError::NodeIdOutOfRange);
}

trait WithId {
    fn clone_with_id(&self, id: u64) -> ServiceError;
}

impl WithId for ServiceError {
    fn clone_with_id(&self, id: u64) -> ServiceError {
        match self {
            ServiceError::NodeNotFound(_) => ServiceError::NodeNotFound(id),
            other => *other,
        }
    }
}

#[test]
fn search_isolated_across_tenants() {
    let mut g = MemoryGraph::new();
    let a = g.add_node(node("tenant-a", "alice", "节点 A 的内容", &[], 1));
    let b = g.add_node(node("tenant-b", "alice", "节点 B 的内容", &[], 2));
    let hits = vec![b, a, b, a];
    let kept = select_scoped_hits(&g, &hits, "tenant-a", "alice", 10);
    assert_eq!(kept, vec![1, 3]);
    assert!(kept.iter().all(|&i| hits[i] == a), "Search 结果必须全部属于 tenant-a");
    assert_eq!(select_scoped_hits(&g, &hits, "tenant-a", "alice", 1), vec![1]);
}

#[test]
fn resonate_isolated_across_tenants() {
    let mut g = MemoryGraph::new();
    let a = g.add_node(node("tenant-a", "alice", "喜欢手冲咖啡和浅烘豆", &[], 1));
    let b = g.add_node(node("tenant-b", "alice", "喜欢手冲咖啡和深烘豆", &[], 2));
    let w = g.add_node(node("tenant-a", "alice", "咖啡豆需要烘焙", &[WORLD_KNOWLEDGE_TAG], 3));
    let kept = visible_activations(&g, &vec![a, b, w, 99], "tenant-a");
    assert_eq!(kept, vec![0]);
    assert_eq!(recent_seeds(&g, "tenant-b", "alice"), vec![b], "兜底种子也不得跨租户");
    assert_eq!(recent_seeds(&g, "tenant-a", "alice"), vec![w, a]);
}

#[test]
fn weave_validation() {
    assert!(check_weave_args("t", "o", "e").is_ok());
    assert_eq!(check_weave_args("t", "", "e"), Err(ServiceError::EmptyWeaveField));
    assert_eq!(check_weave_args("", "o", "e"), Err(ServiceError::EmptyWeaveField));
    assert_eq!(check_weave_args("t", "o", ""), Err(ServiceError::EmptyWeaveField));
    assert_eq!(check_scope_args("t", ""), Err(ServiceError::EmptyScope));
    assert!(check_scope_args("t", "o").is_ok());
}

#[test]
fn defaults_of_k_and_budget() {
    assert_eq!(search_k(0), 10);
    assert_eq!(search_k(3), 3);
    assert_eq!(resonate_budget(0), 64);
    assert_eq!(resonate_budget(7), 7);
}

#[test]
fn query_alignment_cuts_and_pads() {
    let mut bytes = Vec::new();
    for v in [1.0f32, 2.0, 3.0] {
        bytes.extend_from_slice(&v.to_le_bytes());
    }
    assert_eq!(align_query(&bytes, 2).unwrap(), vec![bits(1.0), bits(2.0)]);
    assert_eq!(align_query(&bytes, 5).unwrap(), vec![bits(1.0), bits(2.0), bits(3.0), 0, 0]);
    assert_eq!(align_query(&bytes[..5], 2), Err(ServiceError::BadEmbeddingLength));
}

#[test]
fn conflict_candidates_and_reply() {
    let mut g = MemoryGraph::new();
    let a = g.add_node(node("t", "o", "likes coffee", &[], 1));
    let b = g.add_node(node("t", "x", "other owner", &[], 2));
    let c = g.add_node(node("t", "o", "prefers tea", &[], 3));
    let new = g.add_node(node("t", "o", "now", &[], 4));
    let cands = conflict_candidates(&g, new, "t", "o", &vec![new, a, b, c]);
    assert_eq!(cands, vec![(a, "likes coffee".to_string()), (c, "prefers tea".to_string())]);
    let reply = parse_json_loose(r#"{"conflicts": [2, 0, 3, "1", 1.0, 1]}"#).unwrap();
    assert_eq!(conflict_ids(&reply, &cands), vec![c as u64, a as u64]);
    let none = parse_json_loose(r#"[1, 2]"#).unwrap();
    assert!(conflict_ids(&none, &cands).is_empty());
}

#[test]
fn decomposition_reply_fields() {
    let reply = parse_json_loose(r#"{"fact": "Alice flew to Paris", "relations": ["travel", 3, "paris"]}"#).unwrap();
    let (fact, rels) = decompose_reply(&reply, "raw");
    assert_eq!(fact, "Alice flew to Paris");
    assert_eq!(rels, vec!["travel".to_string(), "paris".to_string()]);
    let (fact, rels) = decompose_reply(&parse_json_loose("{}").unwrap(), "raw");
    assert_eq!(fact, "raw");
    assert!(rels.is_empty());
}

#[test]
fn session_reply_fields() {
    let reply = parse_json_loose(
        r#"{"facts": [{"fact": "  Bob moved to Oslo ", "source": ["e1", "e9"]}, {"fact": "   "}, {"source": ["e2"]}, {"fact": "Ann likes tea"}]}"#,
    )
    .unwrap();
    let facts = session_facts_reply(&reply);
    assert_eq!(
        facts,
        vec![
            ("Bob moved to Oslo".to_string(), vec!["e1".to_string(), "e9".to_string()]),
            ("Ann likes tea".to_string(), vec![]),
        ]
    );
    let bridges = parse_json_loose(r#"{"bridges": [" Oslo is in Norway ", "", 5]}"#).unwrap();
    assert_eq!(bridges_reply(&bridges), vec!["Oslo is in Norway".to_string()]);
}

#[test]
fn session_text_and_derived_edges() {
    assert_eq!(session_leaf_text("Bob", "hi"), "Bob: hi");
    assert_eq!(session_line("", "Bob", "hi"), "Bob: hi");
    assert_eq!(session_line("e1", "Bob", "hi"), "e1 Bob: hi");
    assert_eq!(join_lines(&vec!["a".into(), "b".into(), "c".into()]), "a\nb\nc");
    assert_eq!(join_lines(&vec![]), "");
    let leaves = vec![("e1".to_string(), 4), ("e2".to_string(), 5), ("e1".to_string(), 6)];
    assert_eq!(
        derived_edges(9, &vec!["e1".into(), "zz".into(), "e2".into()], &leaves),
        vec![(9, 6), (9, 5)]
    );
}

#[test]
fn new_nodes_carry_their_constants() {
    let n = weave_node("t", "o", "fact".into(), vec!["r".into()], 0, bits(0.5), bits(0.8), 100);
    assert_eq!(f32::from_bits(n.filaments.decay_rate), 0.01);
    assert_eq!(f32::from_bits(n.tension.baseline), 1.0);
    assert_eq!(f32::from_bits(n.filaments.confidence), 0.8);
    assert_eq!(n.filaments.mentions_7d, 1);
    assert_eq!(n.filaments.created_at, 100);
    let b = bridge_node("t", "o", "bridge".into(), vec![1, 2], 7);
    assert_eq!(b.filaments.relations, vec![WORLD_KNOWLEDGE_TAG.to_string()]);
    assert_eq!(f32::from_bits(b.filaments.confidence), 0.6);
    assert_eq!(f32::from_bits(b.tension.baseline), 0.6);
    assert_eq!(b.filaments.mentions_7d, 0);
    assert_eq!(b.embedding, vec![1, 2]);
}

#[test]
fn listing_pages_most_recent_first() {
    let mut g = MemoryGraph::new();
    let a = g.add_node(node("t", "alice", "a", &[], 10));
    let b = g.add_node(node("t", "bob", "b", &[], 30));
    let c = g.add_node(node("t", "alice", "c", &[], 20));
    let d = g.add_node(node("t", "alice", "d", &[], 20));
    let _e = g.add_node(node("u", "alice", "e", &[], 40));
    assert_eq!(list_page(&g, "t", None, 0, 10), (4, vec![b, d, c, a]));
    assert_eq!(list_page(&g, "t", Some("alice"), 1, 2), (3, vec![c, a]));
    assert_eq!(list_page(&g, "t", Some("alice"), 5, 2), (3, vec![]));
    assert_eq!(list_page(&g, "t", Some("bob"), 0, 0), (1, vec![]));
}

#[test]
fn task_seeds_filter_scope() {
    let mut g = MemoryGraph::new();
    let a = g.add_node(node("t", "o", "a", &["travel"], 1));
    let _b = g.add_node(node("u", "o", "b", &["travel"], 2));
    let c = g.add_node(node("t", "o", "c", &["travel", "food"], 3));
    let _d = g.add_node(node("t", "o", "d", &["food"], 4));
    assert_eq!(task_seeds(&g, "travel", "t", "o"), vec![a, c]);
}

#[test]
fn stats_count_live_nodes_and_edges() {
    let mut g = MemoryGraph::new();
    let a = g.add_node(node("t", "o", "a", &[], 1));
    let b = g.add_node(node("t", "o", "b", &[], 2));
    g.add_edge(a, b, 1);
    let s = engine_stats(&g, 384, true, false);
    assert_eq!((s.nodes, s.edges, s.embed_dims, s.embedder, s.llm), (2, 1, 384, true, false));
}

#[test]
fn stats_skip_edges_of_deleted_nodes() {
    let mut g = MemoryGraph::new();
    let a = g.add_node(node("t", "o", "a", &[], 1));
    let b = g.add_node(node("t", "o", "b", &[], 2));
    let c = g.add_node(node("t", "o", "c", &[], 3));
    g.add_edge(a, b, 1);
    g.add_edge(b, c, 2);
    g.add_edge(a, c, 3);
    g.add_edge(a, b, 4);
    assert_eq!(engine_stats(&g, 8, false, false).edges, 3);
    assert!(g.remove_node(c));
    let s = engine_stats(&g, 8, false, true);
    assert_eq!((s.nodes, s.edges, s.llm), (2, 1, true));
}

#[test]
fn weave_with_stub_llm_no_candidates() {
    let reply = parse_json_loose(r#"{"conflicts": [1]}"#).unwrap();
    let mut g = MemoryGraph::new();
    let first = weave_node("test", "alice", "I like coffee".into(), vec![], 0, bits(0.5), bits(0.8), 1);
    let a = g.add_node(first);
    let hits = vec![a];
    let candidates = conflict_candidates(&g, a, "test", "alice", &hits);
    assert!(candidates.is_empty());
    assert!(conflict_ids(&reply, &candidates).is_empty());
    assert!(auto_link_targets(&g, a, "test", "alice", &vec![]).is_empty());
    let second = weave_node("test", "alice", "I prefer tea over coffee".into(), vec![], 0, bits(0.5), bits(0.8), 2);
    let b = g.add_node(second);
    assert!(b > 0);
    let candidates = conflict_candidates(&g, b, "test", "alice", &vec![b, a]);
    assert_eq!(candidates, vec![(a, "I like coffee".to_string())]);
    assert_eq!(conflict_ids(&reply, &candidates), vec![a as u64]);
}

#[test]
fn conflict_prompt_numbers_candidates_from_one() {
    let cands = vec![(7u32, "Alice lives in Oslo".to_string()), (9u32, "Alice has a cat".to_string())];
    assert_eq!(
        conflict_prompt("Alice lives in Bergen", &cands),
        "New memory:\nAlice lives in Bergen\n\nCandidate existing memories:\n1. Alice lives in Oslo\n2. Alice has a cat\n"
    );
    assert_eq!(conflict_prompt("x", &vec![]), "New memory:\nx\n\nCandidate existing memories:\n");
    let many: Vec<(u32, String)> = (0..12u32).map(|i| (i, format!("f{i}"))).collect();
    assert!(conflict_prompt("y", &many).ends_with("11. f10\n12. f11\n"));
}

#[test]
fn listing_and_audit_sizes_are_capped() {
    assert_eq!(page_limit(None), 50);
    assert_eq!(page_limit(Some(7)), 7);
    assert_eq!(page_limit(Some(5000)), 500);
    assert_eq!(audit_limit(None), 200);
    assert_eq!(audit_limit(Some(0)), 0);
    assert_eq!(audit_limit(Some(1001)), 1000);
}

#[test]
fn heuristic_weave_defaults() {
    let (fact, rels, v, i, c) = heuristic_weave(None, "Met Bob in Paris", None);
    assert_eq!(fact, "Met Bob in Paris");
    assert_eq!(rels, vec!["paris".to_string(), "bob".to_string()]);
    assert_eq!((v, i, c), (0, 0.5f32.to_bits(), 0.8f32.to_bits()));
    let (_, rels, v, _, _) = heuristic_weave(Some("travel"), "Met Bob in Paris", Some((-0.5f32).to_bits()));
    assert_eq!(rels, vec!["travel".to_string()]);
    assert_eq!(v, (-0.5f32).to_bits());
}

#[test]
fn seed_fusion_by_id() {
    let vec: Vec<u32> = (100..110).collect();
    let (ids, marks) = fuse_seeds(&vec, &vec![101, 7, 8, 100, 9], 11);
    assert_eq!(ids, vec![100, 101, 102, 103, 104, 105, 106, 107, 7, 8, 9]);
    assert_eq!(marks, vec![Some(1), None, None, Some(0), None]);
    let (ids, marks) = fuse_seeds(&vec, &vec![1, 2, 3], 9);
    assert_eq!(ids.len(), 9);
    assert_eq!(marks, vec![None]);
    let (ids, marks) = fuse_seeds(&vec![], &vec![5, 5, 6], 20);
    assert_eq!((ids, marks), (vec![5, 6], vec![None, Some(0), None]));
}
