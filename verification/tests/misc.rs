use nylon::audit::{audit_tenant, preload, AuditEvent, AuditRing};
use nylon::auth::{KeyGrant, Scope};
use nylon::embed::{check_reply_shape, ReplyShapeError, StubEmbedder};
use nylon::json::Json;
use nylon::llm::parse_json_loose;
use nylon::mcp::{GetArgs, NylonMcp, ResonateArgs, WeaveArgs};
use nylon::vector::{hnsw_config, HnswParams, HnswParamsError, XorShift64};

fn ev(action: &str, tenant: &str, owner: &str, detail: &str) -> AuditEvent {
    AuditEvent { ts: 0, action: action.into(), tenant: tenant.into(), owner: owner.into(), detail: detail.into() }
}

#[test]
fn emit_and_query_roundtrip() {
    let mut ring = AuditRing::new(5000);
    ring.push(ev("weave", "t1", "alice", "node=3 linked=2"));
    ring.push(ev("resonate", "t1", "bob", "hits=5"));
    ring.push(ev("weave", "t2", "carol", "node=1"));
    let all = ring.query(None, None, None, 10);
    assert_eq!(all.len(), 3);
    assert_eq!(all[0].action, "weave");
    assert_eq!(all[0].tenant, "t2");
    let t1 = ring.query(Some("t1"), None, None, 10);
    assert_eq!(t1.len(), 2);
    let alice_weaves = ring.query(Some("t1"), Some("alice"), Some("weave"), 10);
    assert_eq!(alice_weaves.len(), 1);
    assert_eq!(alice_weaves[0].detail, "node=3 linked=2");
}

#[test]
fn ring_drops_oldest_and_limits() {
    let mut ring = AuditRing::new(2);
    ring.push(ev("a", "t", "o", "1"));
    ring.push(ev("b", "t", "o", "2"));
    ring.push(ev("c", "t", "o", "3"));
    assert_eq!(ring.len(), 2);
    let all = ring.query(None, None, None, 10);
    assert_eq!(all.iter().map(|e| e.detail.as_str()).collect::<Vec<_>>(), vec!["3", "2"]);
    assert_eq!(ring.query(None, None, None, 1).len(), 1);
    assert!(ring.query(None, None, None, 0).is_empty());
}

#[test]
fn preload_restores_recent_events() {
    let lines = vec![Some(ev("cut", "t", "o", "partial")), None, Some(ev("weave", "t1", "alice", "第一次运行"))];
    let ring = preload(lines, true, 10);
    let all = ring.query(None, None, None, 10);
    assert_eq!(all.len(), 1, "重启后应从 JSONL 预载历史事件");
    assert_eq!(all[0].detail, "第一次运行");
    let ring = preload(vec![Some(ev("a", "t", "o", "1")), Some(ev("b", "t", "o", "2"))], false, 1);
    assert_eq!(ring.query(None, None, None, 10)[0].detail, "2");
}

#[test]
fn stub_dims_respected() {
    let emb = StubEmbedder::new(8);
    assert_eq!(emb.dims(), 8);
}

#[test]
fn reply_shape_checks() {
    assert_eq!(check_reply_shape(&vec![4, 4], 2, 4), Ok(()));
    assert_eq!(check_reply_shape(&vec![4], 2, 4), Err(ReplyShapeError::Count { got: 1, expected: 2 }));
    assert_eq!(check_reply_shape(&vec![4, 3, 2], 3, 4), Err(ReplyShapeError::Dims { got: 3, expected: 4 }));
}

#[test]
fn hnsw_params_and_config() {
    let p = HnswParams::default();
    assert_eq!((p.m, p.ef_construction, p.ef_search, p.seed), (16, 200, 50, 0x9E37_79B9_7F4A_7C15));
    let c = hnsw_config(8, p).unwrap();
    assert_eq!(c.m_max0, 32);
    assert_eq!(hnsw_config(0, p), Err(HnswParamsError::ZeroDims));
    assert_eq!(hnsw_config(8, HnswParams { m: 1, ..p }), Err(HnswParamsError::SmallM));
    assert_eq!(hnsw_config(8, HnswParams { seed: 0, ..p }), Err(HnswParamsError::ZeroSeed));
    let c = hnsw_config(8, HnswParams { ef_search: 0, ef_construction: 0, ..p }).unwrap();
    assert_eq!((c.ef_search, c.ef_construction), (1, 1));
}

#[test]
fn same_seed_is_deterministic() {
    let mut a = XorShift64(42);
    let mut b = XorShift64(42);
    let xs: Vec<u64> = (0..5).map(|_| a.next()).collect();
    let ys: Vec<u64> = (0..5).map(|_| b.next()).collect();
    assert_eq!(xs, ys);
    let mut x: u64 = 42;
    x ^= x << 13;
    x ^= x >> 7;
    x ^= x << 17;
    assert_eq!(xs[0], x.wrapping_mul(0x2545_F491_4F6C_DD1D));
}

#[test]
fn mcp_calls_fill_defaults() {
    let mcp = NylonMcp::new(None, Some("proj".into()));
    assert_eq!(mcp.tenant, "default");
    let w = mcp.weave_call(WeaveArgs { fact: "f".into(), owner: None, task: Some("t".into()) });
    assert_eq!((w.tenant_id.as_str(), w.owner_id.as_str(), w.raw_event.as_str()), ("default", "proj", "f"));
    let r = mcp.resonate_call(ResonateArgs { query: "q".into(), owner: Some("me".into()), budget: None, max_hops: Some(0) });
    assert_eq!((r.owner_id.as_str(), r.budget, r.max_hops), ("me", 8, Some(0)));
    assert_eq!(mcp.get_call(GetArgs { node_id: 5 }), ("default".to_string(), 5));
}

#[test]
fn json_model_of_text() {
    match parse_json_loose(r#"{"a": [1, "x", null, true]}"#).unwrap() {
        Json::Object(fields) => {
            assert_eq!(fields.len(), 1);
            assert_eq!(fields[0].0, "a");
            match &fields[0].1 {
                Json::Array(items) => assert_eq!(items.len(), 4),
                other => panic!("not an array: {other:?}"),
            }
        },
        other => panic!("not an object: {other:?}"),
    }
    assert!(parse_json_loose("{").is_err());
}

#[test]
fn tenant_keys_see_their_own_audit_events() {
    let mut ring = AuditRing::new(10);
    ring.push(ev("weave", "t1", "alice", "a"));
    ring.push(ev("weave", "t2", "bob", "b"));
    ring.push(ev("resonate", "t1", "carol", "c"));
    let tenant_key = KeyGrant { tenant: "t1".into(), scope: Scope::Read };
    let held = audit_tenant(Some(&tenant_key), Some("t2"));
    assert_eq!(held.as_deref(), Some("t1"));
    let seen = ring.query(held.as_deref(), None, None, 10);
    assert_eq!(seen.len(), 2);
    assert!(seen.iter().all(|e| e.tenant == "t1"));
    let admin = KeyGrant { tenant: "*".into(), scope: Scope::Admin };
    assert_eq!(audit_tenant(Some(&admin), Some("t2")).as_deref(), Some("t2"));
    assert_eq!(audit_tenant(Some(&admin), None), None);
    assert_eq!(audit_tenant(None, Some("t1")).as_deref(), Some("t1"));
    assert_eq!(ring.query(audit_tenant(None, None).as_deref(), None, None, 10).len(), 3);
}
