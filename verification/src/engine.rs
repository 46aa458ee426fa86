//! Memory engine decisions: what a weave links to, which memories a
//! conflict check compares, what a read may see of other tenants, and the
//! request checks of the engine's calls.
//!
//! Tenant isolation is the rule that runs through all of it: a node of
//! another tenant is never linked, never a candidate, never returned by a
//! search or a resonance, and reads as missing.

use vstd::prelude::*;

use crate::graph::{has_relation, MemoryGraph};
use crate::json::{get_member, lemma_array_view, lemma_object_view, member, Json, JsonModel};
use crate::model::{MemoryNode, NodeModel};
use crate::text::{all_ascii, ascii_chars, concat_str, str_equal, string_from_ascii, trim_str, trimmed};

use crate::tagging::{fallback_relations, heuristic_tags};

verus! {

/// Most auto-links that one weave creates.
pub const MAX_AUTO_LINKS: usize = 3;

/// Most conflict candidates compared with a new memory.
pub const MAX_CONFLICT_CANDIDATES: usize = 4;

/// Default embedding dimension (bge-small class models).
pub const DEFAULT_EMBED_DIMS: usize = 384;

/// Default number of search results.
pub const DEFAULT_TOP_K: usize = 10;

/// Guaranteed vector seed slots in a resonance.
pub const VEC_SEED_QUOTA: usize = 8;

/// Default size of the seed pool.
pub const DEFAULT_MAX_SEEDS: usize = 20;

/// Relation tag of commonsense bridge nodes: an intermediate layer of the
/// spreading, never part of a result.
pub const WORLD_KNOWLEDGE_TAG: &'static str = "__world_knowledge__";

/// Why a call was refused.
#[derive(Debug, Clone, Copy, PartialEq, Eq, Structural)]
pub enum ServiceError {
    /// A weave needs a tenant, an owner and a raw event.
    EmptyWeaveField,
    /// The call needs a tenant and an owner.
    EmptyScope,
    /// The call needs a tenant.
    EmptyTenant,
    /// A query embedding must be little-endian `f32` values (length a
    /// multiple of 4).
    BadEmbeddingLength,
    /// A node id above the local id range.
    NodeIdOutOfRange,
    /// No live node of the tenant has this id.
    NodeNotFound(u64),
}

/// How a weave uses the chat model: decomposition and conflict checks, or
/// the heuristic path only.
#[derive(Debug, Clone, Copy, PartialEq, Eq, Structural)]
pub enum WeaveLlmMode {
    Full,
    Off,
}

/// Engine statistics (console header).
#[derive(Debug, Clone, Copy, PartialEq, Eq, Structural)]
pub struct EngineStats {
    pub nodes: usize,
    pub edges: usize,
    pub embed_dims: usize,
    pub embedder: bool,
    pub llm: bool,
}

/// The statistics of a graph and the configured channels.
pub fn engine_stats(g: &MemoryGraph, embed_dims: usize, embedder: bool, llm: bool) -> (r: EngineStats)
    requires
        g.wf(),
    ensures
        r.nodes == g.live().dom().len(),
        r.edges == g.live_edge_count(),
        r.embed_dims == embed_dims,
        r.embedder == embedder,
        r.llm == llm,
{
    let edges = g.live_edges();
    EngineStats { nodes: g.node_count(), edges: edges.len(), embed_dims, embedder, llm }
}

// ---------------------------------------------------------------------------
// Request checks.
// ---------------------------------------------------------------------------

/// A weave needs a tenant, an owner and a raw event.
pub fn check_weave_args(tenant: &str, owner: &str, raw_event: &str) -> (r: Result<(), ServiceError>)
    ensures
        r is Ok <==> tenant@.len() > 0 && owner@.len() > 0 && raw_event@.len() > 0,
        r is Err ==> r == Err::<(), ServiceError>(ServiceError::EmptyWeaveField),
{
    if tenant.is_empty() || owner.is_empty() || raw_event.is_empty() {
        Err(ServiceError::EmptyWeaveField)
    } else {
        Ok(())
    }
}

/// Resonance, search and session weaving need a tenant and an owner.
pub fn check_scope_args(tenant: &str, owner: &str) -> (r: Result<(), ServiceError>)
    ensures
        r is Ok <==> tenant@.len() > 0 && owner@.len() > 0,
        r is Err ==> r == Err::<(), ServiceError>(ServiceError::EmptyScope),
{
    if tenant.is_empty() || owner.is_empty() {
        Err(ServiceError::EmptyScope)
    } else {
        Ok(())
    }
}

/// The number of results of a search: `top_k`, or 10 for 0.
pub fn search_k(top_k: u32) -> (r: usize)
    ensures
        r == if top_k == 0 {
            DEFAULT_TOP_K
        } else {
            top_k as usize
        },
{
    if top_k == 0 {
        DEFAULT_TOP_K
    } else {
        top_k as usize
    }
}

/// Default page of a node listing.
pub const DEFAULT_PAGE: usize = 50;

/// Largest page of a node listing.
pub const MAX_PAGE: usize = 500;

/// Default size of an audit answer.
pub const DEFAULT_AUDIT_LIMIT: usize = 200;

/// Largest audit answer.
pub const MAX_AUDIT_LIMIT: usize = 1000;

/// A requested size held to a default and a cap.
pub open spec fn capped(requested: Option<usize>, default: usize, cap: usize) -> usize {
    let n = match requested {
        Some(n) => n,
        None => default,
    };
    if n < cap {
        n
    } else {
        cap
    }
}

/// The page size of a node listing: the request, 50 by default, at most 500.
pub fn page_limit(requested: Option<usize>) -> (r: usize)
    ensures
        r == capped(requested, DEFAULT_PAGE, MAX_PAGE),
{
    let n = match requested {
        Some(n) => n,
        None => DEFAULT_PAGE,
    };
    if n < MAX_PAGE {
        n
    } else {
        MAX_PAGE
    }
}

/// The size of an audit answer: the request, 200 by default, at most 1000.
pub fn audit_limit(requested: Option<usize>) -> (r: usize)
    ensures
        r == capped(requested, DEFAULT_AUDIT_LIMIT, MAX_AUDIT_LIMIT),
{
    let n = match requested {
        Some(n) => n,
        None => DEFAULT_AUDIT_LIMIT,
    };
    if n < MAX_AUDIT_LIMIT {
        n
    } else {
        MAX_AUDIT_LIMIT
    }
}

/// The activation budget of a resonance: `budget`, or the graph default
/// for 0.
pub fn resonate_budget(budget: u32) -> (r: usize)
    ensures
        r == if budget == 0 {
            crate::graph::DEFAULT_BUDGET
        } else {
            budget as usize
        },
{
    if budget == 0 {
        crate::graph::DEFAULT_BUDGET
    } else {
        budget as usize
    }
}

/// A query embedding (little-endian `f32` values) aligned to the index
/// dimension: cut, or padded with zeros, to `dims` components. Components
/// are `f32` bit patterns.
pub open spec fn aligned_query(bytes: Seq<u8>, dims: nat) -> Seq<u32> {
    Seq::new(
        dims,
        |i: int|
            if 4 * i + 4 <= bytes.len() {
                vstd::bytes::spec_u32_from_le_bytes(bytes.subrange(4 * i, 4 * i + 4))
            } else {
                0u32
            },
    )
}

/// Checks and aligns a query embedding.
pub fn align_query(bytes: &[u8], dims: usize) -> (r: Result<Vec<u32>, ServiceError>)
    ensures
        bytes@.len() % 4 != 0 ==> r == Err::<Vec<u32>, ServiceError>(ServiceError::BadEmbeddingLength),
        bytes@.len() % 4 == 0 ==> (r matches Ok(v) && v@ == aligned_query(bytes@, dims as nat)),
{
    if bytes.len() % 4 != 0 {
        return Err(ServiceError::BadEmbeddingLength);
    }
    let mut out: Vec<u32> = Vec::new();
    let mut i: usize = 0;
    while i < dims
        invariant
            i <= dims,
            bytes@.len() % 4 == 0,
            out@ == aligned_query(bytes@, dims as nat).take(i as int),
        decreases dims - i,
    {
        let ghost want = aligned_query(bytes@, dims as nat)[i as int];
        if i < bytes.len() / 4 {
            let b = vstd::slice::slice_subrange(bytes, 4 * i, 4 * i + 4);
            out.push(vstd::bytes::u32_from_le_bytes(b));
        } else {
            out.push(0);
        }
        assert(out@ =~= aligned_query(bytes@, dims as nat).take(i + 1));
        i = i + 1;
    }
    assert(aligned_query(bytes@, dims as nat).take(dims as int) =~= aligned_query(bytes@, dims as nat));
    Ok(out)
}

// ---------------------------------------------------------------------------
// Tenant isolation.
// ---------------------------------------------------------------------------

/// A live node of the given tenant and owner.
pub open spec fn in_scope(g: MemoryGraph, id: u32, tenant: Seq<char>, owner: Seq<char>) -> bool {
    g.live().contains_key(id) && g.live()[id].tenant == tenant && g.live()[id].owner == owner
}

fn in_scope_exec(g: &MemoryGraph, id: u32, tenant: &str, owner: &str) -> (r: bool)
    requires
        g.wf(),
    ensures
        r == in_scope(*g, id, tenant@, owner@),
{
    match g.get_node(id) {
        Some(n) => str_equal(n.tenant_id.as_str(), tenant) && str_equal(n.owner_id.as_str(), owner),
        None => false,
    }
}

/// The positions of the hits that belong to the tenant and owner, in hit
/// order, at most `k` of them.
pub open spec fn scoped_hits(g: MemoryGraph, hits: Seq<u32>, tenant: Seq<char>, owner: Seq<char>, k: nat) -> Seq<usize>
    decreases hits.len(),
{
    if hits.len() == 0 {
        Seq::empty()
    } else {
        let before = scoped_hits(g, hits.drop_last(), tenant, owner, k);
        if before.len() < k && in_scope(g, hits.last(), tenant, owner) {
            before.push((hits.len() - 1) as usize)
        } else {
            before
        }
    }
}

/// Filters the hits of the global vector index to the tenant and owner
/// (search results, vector seeds): positions of the kept hits, in order,
/// at most `k`.
pub fn select_scoped_hits(g: &MemoryGraph, hits: &Vec<u32>, tenant: &str, owner: &str, k: usize) -> (r: Vec<usize>)
    requires
        g.wf(),
    ensures
        r@ == scoped_hits(*g, hits@, tenant@, owner@, k as nat),
        r@.len() <= k,
        forall|i: int| 0 <= i < r@.len() ==> #[trigger] r@[i] < hits@.len() && in_scope(*g, hits@[r@[i] as int], tenant@, owner@),
{
    let mut out: Vec<usize> = Vec::new();
    let mut i: usize = 0;
    while i < hits.len()
        invariant
            g.wf(),
            i <= hits@.len(),
            out@ == scoped_hits(*g, hits@.take(i as int), tenant@, owner@, k as nat),
            out@.len() <= k,
            forall|j: int| 0 <= j < out@.len() ==> #[trigger] out@[j] < i && in_scope(*g, hits@[out@[j] as int], tenant@, owner@),
        decreases hits@.len() - i,
    {
        assert(hits@.take(i + 1).drop_last() =~= hits@.take(i as int));
        assert(hits@.take(i + 1).last() == hits@[i as int]);
        if out.len() < k && in_scope_exec(g, hits[i], tenant, owner) {
            out.push(i);
            assert(out@[out@.len() - 1] == i);
        }
        i = i + 1;
    }
    assert(hits@.take(hits@.len() as int) =~= hits@);
    out
}

/// A resonance result may show a node only if it is live, of the caller's
/// tenant, and not a commonsense bridge.
pub open spec fn visible_result(g: MemoryGraph, id: u32, tenant: Seq<char>) -> bool {
    g.live().contains_key(id) && g.live()[id].tenant == tenant && !g.live()[id].relations.contains(WORLD_KNOWLEDGE_TAG@)
}

/// The positions of the activated nodes that a resonance may show, in
/// order.
pub open spec fn visible_positions(g: MemoryGraph, ids: Seq<u32>, tenant: Seq<char>) -> Seq<usize>
    decreases ids.len(),
{
    if ids.len() == 0 {
        Seq::empty()
    } else {
        let before = visible_positions(g, ids.drop_last(), tenant);
        if visible_result(g, ids.last(), tenant) {
            before.push((ids.len() - 1) as usize)
        } else {
            before
        }
    }
}

/// The last filter of a resonance: drops nodes of other tenants, deleted
/// nodes and commonsense bridges; returns the positions kept, in order.
pub fn visible_activations(g: &MemoryGraph, ids: &Vec<u32>, tenant: &str) -> (r: Vec<usize>)
    requires
        g.wf(),
    ensures
        r@ == visible_positions(*g, ids@, tenant@),
        forall|i: int| 0 <= i < r@.len() ==> #[trigger] r@[i] < ids@.len() && visible_result(*g, ids@[r@[i] as int], tenant@),
{
    let mut out: Vec<usize> = Vec::new();
    let mut i: usize = 0;
    while i < ids.len()
        invariant
            g.wf(),
            i <= ids@.len(),
            out@ == visible_positions(*g, ids@.take(i as int), tenant@),
            forall|j: int| 0 <= j < out@.len() ==> #[trigger] out@[j] < i && visible_result(*g, ids@[out@[j] as int], tenant@),
        decreases ids@.len() - i,
    {
        assert(ids@.take(i + 1).drop_last() =~= ids@.take(i as int));
        assert(ids@.take(i + 1).last() == ids@[i as int]);
        let keep = match g.get_node(ids[i]) {
            Some(n) => str_equal(n.tenant_id.as_str(), tenant) && !has_relation(&n.filaments.relations, WORLD_KNOWLEDGE_TAG),
            None => false,
        };
        if keep {
            out.push(i);
            assert(out@[out@.len() - 1] == i);
        }
        i = i + 1;
    }
    assert(ids@.take(ids@.len() as int) =~= ids@);
    out
}

/// A read of node `node_id` by `tenant`: the node, when it is live and of
/// that tenant.
pub open spec fn node_lookup(g: MemoryGraph, tenant: Seq<char>, node_id: u64) -> Result<NodeModel, ServiceError> {
    if tenant.len() == 0 {
        Err(ServiceError::EmptyTenant)
    } else if node_id > u32::MAX {
        Err(ServiceError::NodeIdOutOfRange)
    } else if !g.live().contains_key(node_id as u32) || g.live()[node_id as u32].tenant != tenant {
        Err(ServiceError::NodeNotFound(node_id))
    } else {
        Ok(g.live()[node_id as u32])
    }
}

/// Reads a node for a tenant. A node of another tenant reads exactly as a
/// missing one: its existence is not disclosed.
pub fn lookup_node<'a>(g: &'a MemoryGraph, tenant: &str, node_id: u64) -> (r: Result<&'a MemoryNode, ServiceError>)
    requires
        g.wf(),
    ensures
        match node_lookup(*g, tenant@, node_id) {
            Ok(n) => r matches Ok(x) && x@ == n,
            Err(e) => r == Err::<&MemoryNode, ServiceError>(e),
        },
{
    if tenant.is_empty() {
        return Err(ServiceError::EmptyTenant);
    }
    if node_id > u32::MAX as u64 {
        return Err(ServiceError::NodeIdOutOfRange);
    }
    let local = node_id as u32;
    match g.get_node(local) {
        Some(n) => {
            if str_equal(n.tenant_id.as_str(), tenant) {
                Ok(n)
            } else {
                Err(ServiceError::NodeNotFound(node_id))
            }
        },
        None => Err(ServiceError::NodeNotFound(node_id)),
    }
}

/// Cross-tenant reads: whatever the graph holds under an id, a tenant that
/// does not own it gets the same answer as for an id that holds nothing.
pub proof fn lemma_cross_tenant_read_is_missing(g: MemoryGraph, tenant: Seq<char>, node_id: u64)
    requires
        tenant.len() > 0,
        node_id <= u32::MAX,
        g.live().contains_key(node_id as u32),
        g.live()[node_id as u32].tenant != tenant,
    ensures
        node_lookup(g, tenant, node_id) == Err::<NodeModel, ServiceError>(ServiceError::NodeNotFound(node_id)),
        forall|g2: MemoryGraph| !g2.live().contains_key(node_id as u32) ==> #[trigger] node_lookup(g2, tenant, node_id)
            == node_lookup(g, tenant, node_id),
{
}

// ---------------------------------------------------------------------------
// Weave: auto-links and conflict candidates.
// ---------------------------------------------------------------------------

/// Links picked from candidates in order, continuing `picks`: a candidate
/// counts when it is not the new node, not picked already and of the same
/// tenant and owner; picking stops at three.
pub open spec fn pick_links(
    g: MemoryGraph,
    local: u32,
    tenant: Seq<char>,
    owner: Seq<char>,
    cands: Seq<u32>,
    picks: Seq<u32>,
) -> Seq<u32>
    decreases cands.len(),
{
    if cands.len() == 0 || picks.len() >= MAX_AUTO_LINKS {
        picks
    } else {
        let c = cands[0];
        let next = if c != local && !picks.contains(c) && in_scope(g, c, tenant, owner) {
            picks.push(c)
        } else {
            picks
        };
        pick_links(g, local, tenant, owner, cands.drop_first(), next)
    }
}

/// Links picked over the relation tags in order; each tag offers the live
/// nodes that hold it, ascending.
pub open spec fn pick_over_tags(
    g: MemoryGraph,
    local: u32,
    tenant: Seq<char>,
    owner: Seq<char>,
    tags: Seq<Seq<char>>,
    picks: Seq<u32>,
) -> Seq<u32>
    decreases tags.len(),
{
    if tags.len() == 0 {
        picks
    } else {
        pick_over_tags(
            g,
            local,
            tenant,
            owner,
            tags.drop_first(),
            pick_links(g, local, tenant, owner, g.tagged_below(tags[0], g.next_id() as nat), picks),
        )
    }
}

/// What picked links always are: distinct nodes of the tenant and owner,
/// never the new node, at most three.
pub open spec fn links_sound(g: MemoryGraph, local: u32, tenant: Seq<char>, owner: Seq<char>, picks: Seq<u32>) -> bool {
    &&& picks.len() <= MAX_AUTO_LINKS
    &&& picks.no_duplicates()
    &&& forall|i: int| 0 <= i < picks.len() ==> #[trigger] picks[i] != local && in_scope(g, picks[i], tenant, owner)
}

/// Auto-links never cross a tenant or an owner, never point back at the
/// new node, never repeat, and are at most three.
pub proof fn lemma_pick_links_sound(
    g: MemoryGraph,
    local: u32,
    tenant: Seq<char>,
    owner: Seq<char>,
    cands: Seq<u32>,
    picks: Seq<u32>,
)
    requires
        links_sound(g, local, tenant, owner, picks),
    ensures
        links_sound(g, local, tenant, owner, pick_links(g, local, tenant, owner, cands, picks)),
        picks.is_prefix_of(pick_links(g, local, tenant, owner, cands, picks)),
    decreases cands.len(),
{
    if cands.len() == 0 || picks.len() >= MAX_AUTO_LINKS {
        assert(picks.is_prefix_of(picks)) by {
            assert(picks.take(picks.len() as int) =~= picks);
        }
    } else {
        let c = cands[0];
        if c != local && !picks.contains(c) && in_scope(g, c, tenant, owner) {
            let next = picks.push(c);
            assert(links_sound(g, local, tenant, owner, next)) by {
                assert forall|i: int, j: int| 0 <= i < next.len() && 0 <= j < next.len() && i != j implies next[i] != next[j] by {
                    if i == picks.len() as int {
                        assert(next[j] == picks[j]);
                    } else if j == picks.len() as int {
                        assert(next[i] == picks[i]);
                    }
                }
            }
            lemma_pick_links_sound(g, local, tenant, owner, cands.drop_first(), next);
            let out = pick_links(g, local, tenant, owner, cands.drop_first(), next);
            assert(picks.is_prefix_of(out)) by {
                assert(out.take(next.len() as int) == next);
                assert(out.take(picks.len() as int) =~= next.take(picks.len() as int));
                assert(next.take(picks.len() as int) =~= picks);
            }
        } else {
            lemma_pick_links_sound(g, local, tenant, owner, cands.drop_first(), picks);
        }
    }
}

/// Auto-links picked tag by tag are sound links (see `links_sound`).
pub proof fn lemma_pick_over_tags_sound(
    g: MemoryGraph,
    local: u32,
    tenant: Seq<char>,
    owner: Seq<char>,
    tags: Seq<Seq<char>>,
    picks: Seq<u32>,
)
    requires
        links_sound(g, local, tenant, owner, picks),
    ensures
        links_sound(g, local, tenant, owner, pick_over_tags(g, local, tenant, owner, tags, picks)),
    decreases tags.len(),
{
    if tags.len() > 0 {
        let cands = g.tagged_below(tags[0], g.next_id() as nat);
        lemma_pick_links_sound(g, local, tenant, owner, cands, picks);
        lemma_pick_over_tags_sound(
            g,
            local,
            tenant,
            owner,
            tags.drop_first(),
            pick_links(g, local, tenant, owner, cands, picks),
        );
    }
}

/// The live nodes holding a tag below `n` are exactly those, ascending.
proof fn lemma_tagged_below(g: MemoryGraph, tag: Seq<char>, n: nat)
    requires
        n <= 0x1_0000_0000,
    ensures
        forall|x: u32| #[trigger]
            g.tagged_below(tag, n).contains(x) <==> (x < n && g.live().contains_key(x)
                && g.live()[x].relations.contains(tag)),
        forall|i: int, j: int|
            0 <= i < j < g.tagged_below(tag, n).len() ==> g.tagged_below(tag, n)[i] < g.tagged_below(tag, n)[j],
        forall|i: int| 0 <= i < g.tagged_below(tag, n).len() ==> g.tagged_below(tag, n)[i] < n,
    decreases n,
{
    if n > 0 {
        let id = (n - 1) as u32;
        let before = g.tagged_below(tag, (n - 1) as nat);
        lemma_tagged_below(g, tag, (n - 1) as nat);
        if g.live().contains_key(id) && g.live()[id].relations.contains(tag) {
            let out = before.push(id);
            assert forall|x: u32| out.contains(x) <==> (before.contains(x) || x == id) by {
                if out.contains(x) {
                    let k = choose|k: int| 0 <= k < out.len() && out[k] == x;
                    if k < before.len() {
                        assert(before[k] == x);
                    }
                }
                if x == id {
                    assert(out[before.len() as int] == x);
                }
                if before.contains(x) {
                    let k = choose|k: int| 0 <= k < before.len() && before[k] == x;
                    assert(out[k] == x);
                }
            }
        }
    }
}

/// The ids of `ids` in the scope, in their order: exactly those in scope.
proof fn lemma_scoped_ids(g: MemoryGraph, ids: Seq<u32>, tenant: Seq<char>, owner: Seq<char>)
    ensures
        forall|x: u32| #[trigger]
            scoped_ids(g, ids, tenant, owner).contains(x) <==> (ids.contains(x) && in_scope(g, x, tenant, owner)),
        (forall|i: int, j: int| 0 <= i < j < ids.len() ==> ids[i] < ids[j]) ==> forall|i: int, j: int|
            0 <= i < j < scoped_ids(g, ids, tenant, owner).len() ==> scoped_ids(g, ids, tenant, owner)[i]
                < scoped_ids(g, ids, tenant, owner)[j],
    decreases ids.len(),
{
    if ids.len() > 0 {
        let d = ids.drop_last();
        let before = scoped_ids(g, d, tenant, owner);
        lemma_scoped_ids(g, d, tenant, owner);
        assert forall|x: u32| ids.contains(x) <==> (d.contains(x) || x == ids.last()) by {
            if ids.contains(x) {
                let k = choose|k: int| 0 <= k < ids.len() && ids[k] == x;
                if k < d.len() {
                    assert(d[k] == x);
                }
            }
            if d.contains(x) {
                let k = choose|k: int| 0 <= k < d.len() && d[k] == x;
                assert(ids[k] == x);
            }
            if x == ids.last() {
                assert(ids[ids.len() - 1] == x);
            }
        }
        if in_scope(g, ids.last(), tenant, owner) {
            let out = before.push(ids.last());
            assert forall|x: u32| out.contains(x) <==> (before.contains(x) || x == ids.last()) by {
                if out.contains(x) {
                    let k = choose|k: int| 0 <= k < out.len() && out[k] == x;
                    if k < before.len() {
                        assert(before[k] == x);
                    }
                }
                if x == ids.last() {
                    assert(out[before.len() as int] == x);
                }
                if before.contains(x) {
                    let k = choose|k: int| 0 <= k < before.len() && before[k] == x;
                    assert(out[k] == x);
                }
            }
            if forall|i: int, j: int| 0 <= i < j < ids.len() ==> ids[i] < ids[j] {
                assert forall|i: int, j: int| 0 <= i < j < d.len() implies d[i] < d[j] by {
                    assert(d[i] == ids[i] && d[j] == ids[j]);
                }
                assert forall|i: int, j: int| 0 <= i < j < out.len() implies out[i] < out[j] by {
                    if j == before.len() {
                        assert(before.contains(before[i]));
                        let k = choose|k: int| 0 <= k < d.len() && d[k] == before[i];
                        assert(ids[k] == before[i]);
                    } else {
                        assert(out[i] == before[i] && out[j] == before[j]);
                    }
                }
            }
        } else {
            if forall|i: int, j: int| 0 <= i < j < ids.len() ==> ids[i] < ids[j] {
                assert forall|i: int, j: int| 0 <= i < j < d.len() implies d[i] < d[j] by {
                    assert(d[i] == ids[i] && d[j] == ids[j]);
                }
            }
        }
    }
}

proof fn lemma_prefix_contains(p: Seq<u32>, r: Seq<u32>, x: u32)
    requires
        p.is_prefix_of(r),
        p.contains(x),
    ensures
        r.contains(x),
{
    let k = choose|k: int| 0 <= k < p.len() && p[k] == x;
    assert(r.subrange(0, p.len() as int)[k] == r[k]);
}

proof fn lemma_prefix_trans(a: Seq<u32>, b: Seq<u32>, c: Seq<u32>)
    requires
        a.is_prefix_of(b),
        b.is_prefix_of(c),
    ensures
        a.is_prefix_of(c),
{
    assert(c.subrange(0, a.len() as int) =~= a) by {
        assert forall|k: int| 0 <= k < a.len() implies c.subrange(0, a.len() as int)[k] == a[k] by {
            assert(c.subrange(0, b.len() as int)[k] == c[k]);
            assert(b.subrange(0, a.len() as int)[k] == b[k]);
        }
    }
}

/// Picking only ever adds links after those picked before.
proof fn lemma_pick_links_grows(
    g: MemoryGraph,
    local: u32,
    tenant: Seq<char>,
    owner: Seq<char>,
    cands: Seq<u32>,
    picks: Seq<u32>,
)
    ensures
        picks.is_prefix_of(pick_links(g, local, tenant, owner, cands, picks)),
    decreases cands.len(),
{
    if cands.len() == 0 || picks.len() >= MAX_AUTO_LINKS {
        assert(picks.subrange(0, picks.len() as int) =~= picks);
    } else {
        let c = cands[0];
        let next = if c != local && !picks.contains(c) && in_scope(g, c, tenant, owner) {
            picks.push(c)
        } else {
            picks
        };
        lemma_pick_links_grows(g, local, tenant, owner, cands.drop_first(), next);
        assert(picks.is_prefix_of(next)) by {
            assert(next.subrange(0, picks.len() as int) =~= picks);
        }
        lemma_prefix_trans(picks, next, pick_links(g, local, tenant, owner, cands.drop_first(), next));
    }
}

proof fn lemma_pick_over_tags_grows(
    g: MemoryGraph,
    local: u32,
    tenant: Seq<char>,
    owner: Seq<char>,
    tags: Seq<Seq<char>>,
    picks: Seq<u32>,
)
    ensures
        picks.is_prefix_of(pick_over_tags(g, local, tenant, owner, tags, picks)),
    decreases tags.len(),
{
    if tags.len() == 0 {
        assert(picks.subrange(0, picks.len() as int) =~= picks);
    } else {
        let p1 = pick_links(g, local, tenant, owner, g.tagged_below(tags[0], g.next_id() as nat), picks);
        lemma_pick_links_grows(g, local, tenant, owner, g.tagged_below(tags[0], g.next_id() as nat), picks);
        lemma_pick_over_tags_grows(g, local, tenant, owner, tags.drop_first(), p1);
        lemma_prefix_trans(picks, p1, pick_over_tags(g, local, tenant, owner, tags.drop_first(), p1));
    }
}

proof fn lemma_pick_links_complete(
    g: MemoryGraph,
    local: u32,
    tenant: Seq<char>,
    owner: Seq<char>,
    cands: Seq<u32>,
    picks: Seq<u32>,
)
    requires
        pick_links(g, local, tenant, owner, cands, picks).len() < MAX_AUTO_LINKS,
    ensures
        forall|x: u32|
            cands.contains(x) && x != local && in_scope(g, x, tenant, owner) ==> #[trigger] pick_links(
                g,
                local,
                tenant,
                owner,
                cands,
                picks,
            ).contains(x),
    decreases cands.len(),
{
    let res = pick_links(g, local, tenant, owner, cands, picks);
    if cands.len() > 0 {
        if picks.len() >= MAX_AUTO_LINKS {
            assert(res == picks);
            assert(false);
        }
        let c = cands[0];
        let rest = cands.drop_first();
        let next = if c != local && !picks.contains(c) && in_scope(g, c, tenant, owner) {
            picks.push(c)
        } else {
            picks
        };
        assert(res == pick_links(g, local, tenant, owner, rest, next));
        lemma_pick_links_complete(g, local, tenant, owner, rest, next);
        lemma_pick_links_grows(g, local, tenant, owner, rest, next);
        assert forall|x: u32| cands.contains(x) && x != local && in_scope(g, x, tenant, owner) implies res.contains(x) by {
            let k = choose|k: int| 0 <= k < cands.len() && cands[k] == x;
            if k > 0 {
                assert(rest[k - 1] == x);
                assert(rest.contains(x));
            } else {
                if picks.contains(c) {
                    assert(picks.is_prefix_of(next)) by {
                        assert(next.subrange(0, picks.len() as int) =~= picks);
                    }
                    lemma_prefix_contains(picks, next, c);
                } else {
                    assert(next[picks.len() as int] == c);
                }
                lemma_prefix_contains(next, res, c);
            }
        }
    }
}

proof fn lemma_pick_over_tags_complete(
    g: MemoryGraph,
    local: u32,
    tenant: Seq<char>,
    owner: Seq<char>,
    tags: Seq<Seq<char>>,
    picks: Seq<u32>,
)
    requires
        pick_over_tags(g, local, tenant, owner, tags, picks).len() < MAX_AUTO_LINKS,
    ensures
        forall|k: int, x: u32|
            0 <= k < tags.len() && #[trigger] g.tagged_below(tags[k], g.next_id() as nat).contains(x) && x != local
                && in_scope(g, x, tenant, owner) ==> pick_over_tags(g, local, tenant, owner, tags, picks).contains(x),
    decreases tags.len(),
{
    if tags.len() > 0 {
        let res = pick_over_tags(g, local, tenant, owner, tags, picks);
        let cands = g.tagged_below(tags[0], g.next_id() as nat);
        let p1 = pick_links(g, local, tenant, owner, cands, picks);
        let rest = tags.drop_first();
        assert(res == pick_over_tags(g, local, tenant, owner, rest, p1));
        lemma_pick_over_tags_grows(g, local, tenant, owner, rest, p1);
        lemma_pick_links_complete(g, local, tenant, owner, cands, picks);
        lemma_pick_over_tags_complete(g, local, tenant, owner, rest, p1);
        assert forall|k: int, x: u32|
            0 <= k < tags.len() && #[trigger] g.tagged_below(tags[k], g.next_id() as nat).contains(x) && x != local
                && in_scope(g, x, tenant, owner) implies res.contains(x) by {
            if k == 0 {
                assert(p1.contains(x));
                lemma_prefix_contains(p1, res, x);
            } else {
                assert(rest[k - 1] == tags[k]);
                assert(g.tagged_below(rest[k - 1], g.next_id() as nat).contains(x));
            }
        }
    }
}

/// Auto-linking looks at every relation tag, not just the first: unless
/// three links were made, every other live memory of the same tenant and
/// owner that holds any of the tags is linked.
pub proof fn lemma_auto_links_complete(
    g: MemoryGraph,
    local: u32,
    tenant: Seq<char>,
    owner: Seq<char>,
    tags: Seq<Seq<char>>,
)
    requires
        g.wf(),
        pick_over_tags(g, local, tenant, owner, tags, Seq::empty()).len() < MAX_AUTO_LINKS,
    ensures
        forall|k: int, x: u32|
            0 <= k < tags.len() && x != local && g.live().contains_key(x) && g.live()[x].tenant == tenant
                && g.live()[x].owner == owner && #[trigger] g.live()[x].relations.contains(tags[k])
                ==> pick_over_tags(g, local, tenant, owner, tags, Seq::empty()).contains(x),
{
    g.lemma_live_below_next();
    lemma_pick_over_tags_complete(g, local, tenant, owner, tags, Seq::empty());
    assert forall|k: int, x: u32|
        0 <= k < tags.len() && x != local && g.live().contains_key(x) && g.live()[x].tenant == tenant
            && g.live()[x].owner == owner && #[trigger] g.live()[x].relations.contains(tags[k]) implies pick_over_tags(
        g,
        local,
        tenant,
        owner,
        tags,
        Seq::empty(),
    ).contains(x) by {
        lemma_tagged_below(g, tags[k], g.next_id() as nat);
        assert(g.tagged_below(tags[k], g.next_id() as nat).contains(x));
    }
}

fn contains_id(v: &Vec<u32>, x: u32) -> (r: bool)
    ensures
        r == v@.contains(x),
{
    let mut i: usize = 0;
    while i < v.len()
        invariant
            i <= v@.len(),
            forall|j: int| 0 <= j < i ==> v@[j] != x,
        decreases v@.len() - i,
    {
        if v[i] == x {
            assert(v@[i as int] == x);
            return true;
        }
        i = i + 1;
    }
    false
}

/// The nodes that a new node `local` links to: over its relation tags in
/// order, the live nodes holding the tag (ascending id) that share its
/// tenant and owner, at most three.
pub fn auto_link_targets(g: &MemoryGraph, local: u32, tenant: &str, owner: &str, relations: &Vec<String>) -> (r: Vec<u32>)
    requires
        g.wf(),
    ensures
        r@ == pick_over_tags(*g, local, tenant@, owner@, crate::model::strings_view(relations@), Seq::empty()),
        links_sound(*g, local, tenant@, owner@, r@),
{
    let ghost tags = crate::model::strings_view(relations@);
    let mut picks: Vec<u32> = Vec::new();
    let mut t: usize = 0;
    assert(tags.skip(0) =~= tags);
    while t < relations.len()
        invariant
            g.wf(),
            t <= relations@.len(),
            tags == crate::model::strings_view(relations@),
            pick_over_tags(*g, local, tenant@, owner@, tags, Seq::empty()) == pick_over_tags(
                *g,
                local,
                tenant@,
                owner@,
                tags.skip(t as int),
                picks@,
            ),
        decreases relations@.len() - t,
    {
        let cands = g.find_by_relation(relations[t].as_str());
        proof {
            assert(tags.skip(t as int)[0] == relations@[t as int]@);
            assert(tags.skip(t as int).drop_first() =~= tags.skip(t + 1));
        }
        let ghost goal = pick_links(*g, local, tenant@, owner@, cands@, picks@);
        let mut k: usize = 0;
        assert(cands@.skip(0) =~= cands@);
        while k < cands.len()
            invariant
                g.wf(),
                k <= cands@.len(),
                goal == pick_links(*g, local, tenant@, owner@, cands@.skip(k as int), picks@),
            ensures
                goal == picks@,
            decreases cands@.len() - k,
        {
            if picks.len() >= MAX_AUTO_LINKS {
                break;
            }
            proof {
                if k + 1 == cands@.len() {
                    assert(cands@.skip(k + 1).len() == 0);
                }
            }
            let c = cands[k];
            let ghost rest = cands@.skip(k as int);
            assert(rest[0] == c);
            assert(rest.drop_first() =~= cands@.skip(k + 1));
            if c != local && !contains_id(&picks, c) && in_scope_exec(g, c, tenant, owner) {
                picks.push(c);
            }
            k = k + 1;
        }
        assert(picks@ == goal);
        t = t + 1;
    }
    proof {
        assert(tags.skip(t as int).len() == 0);
        lemma_pick_over_tags_sound(*g, local, tenant@, owner@, tags, Seq::empty());
    }
    picks
}

/// Conflict candidates picked from vector hits in order: the new node is
/// skipped, picking stops at four, and only nodes of the same tenant and
/// owner count, each with its fact.
pub open spec fn pick_candidates(
    g: MemoryGraph,
    local: u32,
    tenant: Seq<char>,
    owner: Seq<char>,
    hits: Seq<u32>,
    acc: Seq<(u32, Seq<char>)>,
) -> Seq<(u32, Seq<char>)>
    decreases hits.len(),
{
    if hits.len() == 0 {
        acc
    } else if hits[0] == local {
        pick_candidates(g, local, tenant, owner, hits.drop_first(), acc)
    } else if acc.len() >= MAX_CONFLICT_CANDIDATES {
        acc
    } else {
        let next = if in_scope(g, hits[0], tenant, owner) {
            acc.push((hits[0], g.live()[hits[0]].fact))
        } else {
            acc
        };
        pick_candidates(g, local, tenant, owner, hits.drop_first(), next)
    }
}

pub open spec fn candidates_view(v: Seq<(u32, String)>) -> Seq<(u32, Seq<char>)> {
    Seq::new(v.len(), |i: int| (v[i].0, v[i].1@))
}

/// The memories that a new memory is checked against for contradictions.
pub fn conflict_candidates(g: &MemoryGraph, local: u32, tenant: &str, owner: &str, hits: &Vec<u32>) -> (r: Vec<(u32, String)>)
    requires
        g.wf(),
    ensures
        candidates_view(r@) == pick_candidates(*g, local, tenant@, owner@, hits@, Seq::empty()),
{
    let mut out: Vec<(u32, String)> = Vec::new();
    let ghost goal = pick_candidates(*g, local, tenant@, owner@, hits@, Seq::empty());
    let mut i: usize = 0;
    assert(hits@.skip(0) =~= hits@);
    assert(candidates_view(out@) =~= Seq::<(u32, Seq<char>)>::empty());
    while i < hits.len()
        invariant
            g.wf(),
            i <= hits@.len(),
            goal == pick_candidates(*g, local, tenant@, owner@, hits@.skip(i as int), candidates_view(out@)),
        ensures
            goal == candidates_view(out@),
        decreases hits@.len() - i,
    {
        proof {
            if i + 1 == hits@.len() {
                assert(hits@.skip(i + 1).len() == 0);
            }
        }
        let c = hits[i];
        let ghost rest = hits@.skip(i as int);
        assert(rest[0] == c);
        assert(rest.drop_first() =~= hits@.skip(i + 1));
        if c != local {
            if out.len() >= MAX_CONFLICT_CANDIDATES {
                break;
            }
            match g.get_node(c) {
                Some(n) => {
                    if str_equal(n.tenant_id.as_str(), tenant) && str_equal(n.owner_id.as_str(), owner) {
                        let ghost prev = out@;
                        out.push((c, n.filaments.fact.clone()));
                        assert(candidates_view(out@) =~= candidates_view(prev).push((c, g.live()[c].fact)));
                    }
                },
                None => {},
            }
        }
        i = i + 1;
    }
    out
}

// ---------------------------------------------------------------------------
// Chat-model replies.
// ---------------------------------------------------------------------------

/// The member `k` of a reply object (`None` for a reply that is not an
/// object).
pub open spec fn reply_member(doc: JsonModel, k: Seq<char>) -> Option<JsonModel> {
    match doc {
        JsonModel::Object(fs) => member(fs, k),
        _ => None,
    }
}

fn reply_get<'a>(doc: &'a Json, k: &str) -> (r: Option<&'a Json>)
    ensures
        match reply_member(doc@, k@) {
            None => r is None,
            Some(m) => r matches Some(j) && j@ == m,
        },
{
    match doc {
        Json::Object(fs) => {
            proof {
                lemma_object_view(*fs);
            }
            get_member(fs, k)
        },
        _ => None,
    }
}

/// The value of a decimal digit character.
pub open spec fn digit_value(c: char) -> int {
    c as int - '0' as int
}

pub open spec fn is_digit(c: char) -> bool {
    '0' <= c && c <= '9'
}

/// The value of a string of decimal digits.
pub open spec fn decimal_value(t: Seq<char>) -> int
    decreases t.len(),
{
    if t.len() == 0 {
        0
    } else {
        decimal_value(t.drop_last()) * 10 + digit_value(t.last())
    }
}

/// A JSON number as an unsigned 64-bit integer: the text is decimal digits
/// whose value fits (integers in JSON have no leading zeros; fractions,
/// exponents and signs do not qualify).
pub open spec fn number_u64(t: Seq<char>) -> Option<u64> {
    if t.len() > 0 && (forall|i: int| 0 <= i < t.len() ==> is_digit(#[trigger] t[i])) && decimal_value(t) <= u64::MAX {
        Some(decimal_value(t) as u64)
    } else {
        None
    }
}

proof fn lemma_decimal_nonneg(t: Seq<char>)
    requires
        forall|i: int| 0 <= i < t.len() ==> is_digit(#[trigger] t[i]),
    ensures
        decimal_value(t) >= 0,
    decreases t.len(),
{
    if t.len() > 0 {
        let init = t.drop_last();
        assert forall|i: int| 0 <= i < init.len() implies is_digit(#[trigger] init[i]) by {
            assert(init[i] == t[i]);
        }
        lemma_decimal_nonneg(init);
        assert(is_digit(t[t.len() - 1]));
    }
}

/// Parses the text of a JSON number as a `u64`.
fn parse_u64(t: &str) -> (r: Option<u64>)
    ensures
        r == number_u64(t@),
{
    let n = t.unicode_len();
    if n == 0 {
        return None;
    }
    let mut v: u64 = 0;
    let mut i: usize = 0;
    while i < n
        invariant
            n == t@.len(),
            i <= n,
            forall|j: int| 0 <= j < i ==> is_digit(#[trigger] t@[j]),
            v == decimal_value(t@.take(i as int)),
        decreases n - i,
    {
        let c = t.get_char(i);
        assert(t@.take(i + 1).drop_last() =~= t@.take(i as int));
        if !('0' <= c && c <= '9') {
            return None;
        }
        let d = (c as u32 - '0' as u32) as u64;
        assert(d == digit_value(c));
        proof {
            lemma_decimal_nonneg(t@.take(i + 1));
        }
        if v > (u64::MAX - d) / 10 {
            proof {
                lemma_decimal_grows(t@, i as int + 1);
            }
            return None;
        }
        v = v * 10 + d;
        i = i + 1;
    }
    assert(t@.take(n as int) =~= t@);
    Some(v)
}

/// Digits never make a number smaller: the value of a prefix is at most the
/// value of the whole.
proof fn lemma_decimal_grows(t: Seq<char>, k: int)
    requires
        0 <= k <= t.len(),
        forall|j: int| 0 <= j < k ==> is_digit(#[trigger] t[j]),
    ensures
        (forall|j: int| 0 <= j < t.len() ==> is_digit(#[trigger] t[j])) ==> decimal_value(t.take(k)) <= decimal_value(t),
    decreases t.len() - k,
{
    if forall|j: int| 0 <= j < t.len() ==> is_digit(#[trigger] t[j]) {
        if k < t.len() {
            lemma_decimal_grows(t, k + 1);
            let p = t.take(k + 1);
            assert(p.drop_last() =~= t.take(k));
            assert(is_digit(p.last()));
            lemma_decimal_nonneg(t.take(k));
        } else {
            assert(t.take(k) =~= t);
        }
    }
}

/// The candidate numbers (counting from one) that a conflict reply names:
/// the `u64` items of its `conflicts` array.
pub open spec fn conflict_numbers(doc: JsonModel) -> Seq<Option<u64>> {
    match reply_member(doc, "conflicts"@) {
        Some(JsonModel::Array(xs)) => Seq::new(
            xs.len(),
            |i: int|
                match xs[i] {
                    JsonModel::Number(t) => number_u64(t),
                    _ => None,
                },
        ),
        _ => Seq::empty(),
    }
}

/// The ASCII decimal digits of `n`, most significant first.
pub open spec fn decimal_bytes(n: nat) -> Seq<u8>
    decreases n,
{
    if n < 10 {
        seq![(n + 48) as u8]
    } else {
        decimal_bytes(n / 10).push((n % 10 + 48) as u8)
    }
}

/// `n` written in decimal.
pub open spec fn decimal_text(n: nat) -> Seq<char> {
    ascii_chars(decimal_bytes(n))
}

/// Appends the decimal digits of `n`.
fn push_decimal(n: u64, out: &mut Vec<u8>)
    requires
        all_ascii(old(out)@),
    ensures
        final(out)@ == old(out)@ + decimal_bytes(n as nat),
        all_ascii(final(out)@),
    decreases n,
{
    if n >= 10 {
        push_decimal(n / 10, out);
    }
    let d: u8 = (n % 10) as u8;
    out.push(d + 48);
}

/// The numbered candidate lines of a conflict check: `k. fact` for the
/// k-th candidate, counting from one.
pub open spec fn candidate_lines(cs: Seq<(u32, Seq<char>)>) -> Seq<char>
    decreases cs.len(),
{
    if cs.len() == 0 {
        Seq::empty()
    } else {
        candidate_lines(cs.drop_last()) + decimal_text(cs.len() as nat) + ". "@ + cs.last().1 + "\n"@
    }
}

/// The conflict-check message: the new memory, then the numbered
/// candidates that a reply names by number (see `named_candidates`).
pub open spec fn conflict_prompt_text(fact: Seq<char>, cs: Seq<(u32, Seq<char>)>) -> Seq<char> {
    "New memory:\n"@ + fact + "\n\nCandidate existing memories:\n"@ + candidate_lines(cs)
}

/// A reply that names number `k` names the candidate that the message
/// lists under `k`: the `k`-th numbered line carries that candidate's fact,
/// and `named_candidates` maps `k` to that candidate's node.
pub proof fn lemma_numbered_candidate(cs: Seq<(u32, Seq<char>)>, k: u64)
    requires
        1 <= k <= cs.len(),
    ensures
        candidate_lines(cs.take(k as int)) == candidate_lines(cs.take(k - 1)) + decimal_text(k as nat) + ". "@
            + cs[k - 1].1 + "\n"@,
        named_candidates(seq![Some(k)], cs) == seq![cs[k - 1].0 as u64],
{
    let t = cs.take(k as int);
    assert(t.drop_last() =~= cs.take(k - 1));
    let one = seq![Some(k)];
    assert(one.drop_last() =~= Seq::<Option<u64>>::empty());
    assert(named_candidates(one.drop_last(), cs) == Seq::<u64>::empty());
    assert(one.last() == Some(k));
    assert(named_candidates(one, cs) =~= seq![cs[k - 1].0 as u64]);
}

/// The conflict-check message for a new memory and its candidates.
pub fn conflict_prompt(new_fact: &str, candidates: &Vec<(u32, String)>) -> (r: String)
    ensures
        r@ == conflict_prompt_text(new_fact@, candidates_view(candidates@)),
{
    let ghost cv = candidates_view(candidates@);
    let head = concat_str("New memory:\n", new_fact);
    let mut out = concat_str(head.as_str(), "\n\nCandidate existing memories:\n");
    let ghost top = "New memory:\n"@ + new_fact@ + "\n\nCandidate existing memories:\n"@;
    assert(cv.take(0) =~= Seq::<(u32, Seq<char>)>::empty());
    let mut i: usize = 0;
    while i < candidates.len()
        invariant
            i <= candidates@.len(),
            cv == candidates_view(candidates@),
            top == "New memory:\n"@ + new_fact@ + "\n\nCandidate existing memories:\n"@,
            out@ == top + candidate_lines(cv.take(i as int)),
        decreases candidates@.len() - i,
    {
        let mut digits: Vec<u8> = Vec::new();
        push_decimal((i + 1) as u64, &mut digits);
        assert(digits@ =~= decimal_bytes((i + 1) as nat));
        let num = string_from_ascii(digits);
        let a = concat_str(out.as_str(), num.as_str());
        let b = concat_str(a.as_str(), ". ");
        let c = concat_str(b.as_str(), candidates[i].1.as_str());
        out = concat_str(c.as_str(), "\n");
        proof {
            let t = cv.take(i + 1);
            assert(t.drop_last() =~= cv.take(i as int));
            assert(t.last() == cv[i as int]);
            assert(t.len() == i + 1);
        }
        i = i + 1;
    }
    assert(cv.take(candidates@.len() as int) =~= cv);
    out
}

/// The node ids of the named candidates that exist, in reply order.
pub open spec fn named_candidates(nums: Seq<Option<u64>>, cands: Seq<(u32, Seq<char>)>) -> Seq<u64>
    decreases nums.len(),
{
    if nums.len() == 0 {
        Seq::empty()
    } else {
        let before = named_candidates(nums.drop_last(), cands);
        match nums.last() {
            Some(i) => if 1 <= i && i <= cands.len() {
                before.push(cands[i - 1].0 as u64)
            } else {
                before
            },
            None => before,
        }
    }
}

/// The conflicting nodes that a conflict reply names: numbers outside the
/// candidate list, and items that are not numbers, are ignored.
pub fn conflict_ids(doc: &Json, candidates: &Vec<(u32, String)>) -> (r: Vec<u64>)
    ensures
        r@ == named_candidates(conflict_numbers(doc@), candidates_view(candidates@)),
{
    let ghost cv = candidates_view(candidates@);
    let mut out: Vec<u64> = Vec::new();
    match reply_get(doc, "conflicts") {
        Some(Json::Array(xs)) => {
            proof {
                lemma_array_view(*xs);
            }
            let ghost nums = conflict_numbers(doc@);
            let mut i: usize = 0;
            while i < xs.len()
                invariant
                    i <= xs@.len(),
                    nums.len() == xs@.len(),
                    forall|j: int| 0 <= j < xs@.len() ==> #[trigger] nums[j] == match xs@[j]@ {
                        JsonModel::Number(t) => number_u64(t),
                        _ => None,
                    },
                    cv == candidates_view(candidates@),
                    out@ == named_candidates(nums.take(i as int), cv),
                decreases xs@.len() - i,
            {
                let n = match &xs[i] {
                    Json::Number(t) => parse_u64(t.as_str()),
                    _ => None,
                };
                assert(n == nums[i as int]);
                assert(nums.take(i + 1).drop_last() =~= nums.take(i as int));
                match n {
                    Some(k) => {
                        if 1 <= k && k <= candidates.len() as u64 {
                            out.push(candidates[(k - 1) as usize].0 as u64);
                        }
                    },
                    None => {},
                }
                i = i + 1;
            }
            assert(nums.take(xs@.len() as int) =~= nums);
        },
        _ => {},
    }
    out
}


/// The strings among JSON items, in order.
pub open spec fn string_items(xs: Seq<JsonModel>) -> Seq<Seq<char>>
    decreases xs.len(),
{
    if xs.len() == 0 {
        Seq::empty()
    } else {
        let before = string_items(xs.drop_last());
        match xs.last() {
            JsonModel::Str(s) => before.push(s),
            _ => before,
        }
    }
}

fn string_items_exec(xs: &Vec<Json>) -> (r: Vec<String>)
    ensures
        crate::model::strings_view(r@) == string_items(crate::json::items_view(xs@)),
{
    let ghost iv = crate::json::items_view(xs@);
    let mut out: Vec<String> = Vec::new();
    let mut i: usize = 0;
    while i < xs.len()
        invariant
            i <= xs@.len(),
            iv == crate::json::items_view(xs@),
            crate::model::strings_view(out@) == string_items(iv.take(i as int)),
        decreases xs@.len() - i,
    {
        assert(iv.take(i + 1).drop_last() =~= iv.take(i as int));
        assert(iv.take(i + 1).last() == xs@[i as int]@);
        match &xs[i] {
            Json::Str(s) => {
                let ghost prev = out@;
                out.push(s.clone());
                assert(crate::model::strings_view(out@) =~= crate::model::strings_view(prev).push(s@));
            },
            _ => {},
        }
        i = i + 1;
    }
    assert(iv.take(xs@.len() as int) =~= iv);
    out
}

/// The fact of a decomposition reply: its `fact` string, or the raw event.
pub open spec fn decomposed_fact(doc: JsonModel, raw: Seq<char>) -> Seq<char> {
    match reply_member(doc, "fact"@) {
        Some(JsonModel::Str(s)) => s,
        _ => raw,
    }
}

/// The relation tags of a decomposition reply: the strings of its
/// `relations` array.
pub open spec fn decomposed_relations(doc: JsonModel) -> Seq<Seq<char>> {
    match reply_member(doc, "relations"@) {
        Some(JsonModel::Array(xs)) => string_items(xs),
        _ => Seq::empty(),
    }
}

/// The fact and relation tags of a decomposition reply. (Its emotion and
/// confidence numbers are read by the caller.)
pub fn decompose_reply(doc: &Json, raw_event: &str) -> (r: (String, Vec<String>))
    ensures
        r.0@ == decomposed_fact(doc@, raw_event@),
        crate::model::strings_view(r.1@) == decomposed_relations(doc@),
{
    let fact = match reply_get(doc, "fact") {
        Some(Json::Str(s)) => s.clone(),
        _ => raw_event.to_owned(),
    };
    let relations = match reply_get(doc, "relations") {
        Some(Json::Array(xs)) => {
            proof {
                lemma_array_view(*xs);
            }
            string_items_exec(xs)
        },
        _ => {
            let v: Vec<String> = Vec::new();
            assert(crate::model::strings_view(v@) =~= Seq::<Seq<char>>::empty());
            v
        },
    };
    (fact, relations)
}

/// One fact of a session reply, when its `fact` is a non-blank string:
/// the trimmed fact and the strings of its `source` array.
pub open spec fn session_fact(item: JsonModel) -> Option<(Seq<char>, Seq<Seq<char>>)> {
    match reply_member(item, "fact"@) {
        Some(JsonModel::Str(s)) => if trimmed(s).len() > 0 {
            Some(
                (
                    trimmed(s),
                    match reply_member(item, "source"@) {
                        Some(JsonModel::Array(xs)) => string_items(xs),
                        _ => Seq::empty(),
                    },
                ),
            )
        } else {
            None
        },
        _ => None,
    }
}

pub open spec fn session_fact_list(xs: Seq<JsonModel>) -> Seq<(Seq<char>, Seq<Seq<char>>)>
    decreases xs.len(),
{
    if xs.len() == 0 {
        Seq::empty()
    } else {
        let before = session_fact_list(xs.drop_last());
        match session_fact(xs.last()) {
            Some(f) => before.push(f),
            None => before,
        }
    }
}

/// The facts of a session extraction reply (its `facts` array).
pub open spec fn session_facts(doc: JsonModel) -> Seq<(Seq<char>, Seq<Seq<char>>)> {
    match reply_member(doc, "facts"@) {
        Some(JsonModel::Array(xs)) => session_fact_list(xs),
        _ => Seq::empty(),
    }
}

pub open spec fn facts_view(v: Seq<(String, Vec<String>)>) -> Seq<(Seq<char>, Seq<Seq<char>>)> {
    Seq::new(v.len(), |i: int| (v[i].0@, crate::model::strings_view(v[i].1@)))
}

/// The atomic facts, with their source event ids, of a session extraction
/// reply; facts that are missing or blank are skipped.
pub fn session_facts_reply(doc: &Json) -> (r: Vec<(String, Vec<String>)>)
    ensures
        facts_view(r@) == session_facts(doc@),
{
    let mut out: Vec<(String, Vec<String>)> = Vec::new();
    match reply_get(doc, "facts") {
        Some(Json::Array(xs)) => {
            proof {
                lemma_array_view(*xs);
            }
            let ghost iv = crate::json::items_view(xs@);
            let mut i: usize = 0;
            while i < xs.len()
                invariant
                    i <= xs@.len(),
                    iv == crate::json::items_view(xs@),
                    facts_view(out@) == session_fact_list(iv.take(i as int)),
                decreases xs@.len() - i,
            {
                assert(iv.take(i + 1).drop_last() =~= iv.take(i as int));
                assert(iv.take(i + 1).last() == xs@[i as int]@);
                let item = &xs[i];
                match reply_get(item, "fact") {
                    Some(Json::Str(s)) => {
                        let t = trim_str(s.as_str());
                        if !t.is_empty() {
                            let sources = match reply_get(item, "source") {
                                Some(Json::Array(a)) => {
                                    proof {
                                        lemma_array_view(*a);
                                    }
                                    string_items_exec(a)
                                },
                                _ => {
                                    let v: Vec<String> = Vec::new();
                                    assert(crate::model::strings_view(v@) =~= Seq::<Seq<char>>::empty());
                                    v
                                },
                            };
                            let ghost prev = out@;
                            out.push((t.to_owned(), sources));
                            assert(facts_view(out@) =~= facts_view(prev).push(session_fact(item@)->Some_0));
                        }
                    },
                    _ => {},
                }
                i = i + 1;
            }
            assert(iv.take(xs@.len() as int) =~= iv);
        },
        _ => {
            assert(facts_view(out@) =~= Seq::<(Seq<char>, Seq<Seq<char>>)>::empty());
        },
    }
    out
}

pub open spec fn bridge_list(xs: Seq<JsonModel>) -> Seq<Seq<char>>
    decreases xs.len(),
{
    if xs.len() == 0 {
        Seq::empty()
    } else {
        let before = bridge_list(xs.drop_last());
        match xs.last() {
            JsonModel::Str(s) => if trimmed(s).len() > 0 {
                before.push(trimmed(s))
            } else {
                before
            },
            _ => before,
        }
    }
}

/// The commonsense bridges of a reply: the trimmed non-blank strings of its
/// `bridges` array.
pub open spec fn reply_bridges(doc: JsonModel) -> Seq<Seq<char>> {
    match reply_member(doc, "bridges"@) {
        Some(JsonModel::Array(xs)) => bridge_list(xs),
        _ => Seq::empty(),
    }
}

/// The commonsense bridges of a reply.
pub fn bridges_reply(doc: &Json) -> (r: Vec<String>)
    ensures
        crate::model::strings_view(r@) == reply_bridges(doc@),
{
    let mut out: Vec<String> = Vec::new();
    match reply_get(doc, "bridges") {
        Some(Json::Array(xs)) => {
            proof {
                lemma_array_view(*xs);
            }
            let ghost iv = crate::json::items_view(xs@);
            let mut i: usize = 0;
            while i < xs.len()
                invariant
                    i <= xs@.len(),
                    iv == crate::json::items_view(xs@),
                    crate::model::strings_view(out@) == bridge_list(iv.take(i as int)),
                decreases xs@.len() - i,
            {
                assert(iv.take(i + 1).drop_last() =~= iv.take(i as int));
                assert(iv.take(i + 1).last() == xs@[i as int]@);
                match &xs[i] {
                    Json::Str(s) => {
                        let t = trim_str(s.as_str());
                        if !t.is_empty() {
                            let ghost prev = out@;
                            out.push(t.to_owned());
                            assert(crate::model::strings_view(out@) =~= crate::model::strings_view(prev).push(trimmed(s@)));
                        }
                    },
                    _ => {},
                }
                i = i + 1;
            }
            assert(iv.take(xs@.len() as int) =~= iv);
        },
        _ => {
            assert(crate::model::strings_view(out@) =~= Seq::<Seq<char>>::empty());
        },
    }
    out
}

// ---------------------------------------------------------------------------
// New nodes.
// ---------------------------------------------------------------------------

/// `f32` bit patterns of the constants of new nodes.
pub const F32_ZERO: u32 = 0x0000_0000;
pub const F32_HALF: u32 = 0x3F00_0000;
pub const F32_ONE: u32 = 0x3F80_0000;
/// 0.01: the default forgetting rate.
pub const F32_DECAY: u32 = 0x3C23_D70A;
/// 0.8: the confidence of a heuristic decomposition.
pub const F32_HEURISTIC_CONFIDENCE: u32 = 0x3F4C_CCCD;
/// 0.6: confidence and base tension of a commonsense bridge.
pub const F32_BRIDGE: u32 = 0x3F19_999A;

/// The filaments of a weave without a chat model, or when its decomposition
/// failed: the raw event as the fact, the task as the only relation (the
/// heuristic tags when there is no task), the context valence (0 when
/// none), intensity 0.5 and confidence 0.8. Real values are `f32` bits:
/// `(fact, relations, valence, intensity, confidence)`.
pub fn heuristic_weave(task: Option<&str>, raw_event: &str, valence: Option<u32>) -> (r: (
    String,
    Vec<String>,
    u32,
    u32,
    u32,
))
    ensures
        r.0@ == raw_event@,
        crate::model::strings_view(r.1@) == match task {
            Some(t) => seq![t@],
            None => heuristic_tags(raw_event@),
        },
        r.2 == match valence {
            Some(v) => v,
            None => F32_ZERO,
        },
        r.3 == F32_HALF,
        r.4 == F32_HEURISTIC_CONFIDENCE,
{
    let v = match valence {
        Some(v) => v,
        None => F32_ZERO,
    };
    (raw_event.to_owned(), fallback_relations(task, raw_event), v, F32_HALF, F32_HEURISTIC_CONFIDENCE)
}

/// The node of a weave, created at `now`: tension starts at 1, the
/// forgetting rate is 0.01, the mention count 1; the embedding is filled in
/// later.
pub fn weave_node(
    tenant: &str,
    owner: &str,
    fact: String,
    relations: Vec<String>,
    valence: u32,
    intensity: u32,
    confidence: u32,
    now: i64,
) -> (r: MemoryNode)
    ensures
        r@ == (NodeModel {
            id: 0,
            tenant: tenant@,
            owner: owner@,
            fact: fact@,
            valence,
            intensity,
            created_at: now,
            decay: F32_DECAY,
            relations: crate::model::strings_view(relations@),
            confidence,
            mentions: 1,
            baseline: F32_ONE,
            last_updated: now,
            embedding: Seq::empty(),
        }),
{
    let r = MemoryNode {
        id: 0,
        tenant_id: tenant.to_owned(),
        owner_id: owner.to_owned(),
        filaments: crate::model::Filaments {
            fact,
            emotion_valence: valence,
            emotion_intensity: intensity,
            created_at: now,
            decay_rate: F32_DECAY,
            relations,
            confidence,
            mentions_7d: 1,
        },
        tension: crate::model::Tension { baseline: F32_ONE, last_updated: now },
        embedding: Vec::new(),
    };
    assert(r@.embedding =~= Seq::<u32>::empty());
    r
}

/// A commonsense bridge node, created at `now`: neutral emotion, confidence
/// and base tension 0.6, no mentions, tagged as world knowledge.
pub fn bridge_node(tenant: &str, owner: &str, bridge: String, embedding: Vec<u32>, now: i64) -> (r: MemoryNode)
    ensures
        r@ == (NodeModel {
            id: 0,
            tenant: tenant@,
            owner: owner@,
            fact: bridge@,
            valence: F32_ZERO,
            intensity: F32_ZERO,
            created_at: now,
            decay: F32_DECAY,
            relations: seq![WORLD_KNOWLEDGE_TAG@],
            confidence: F32_BRIDGE,
            mentions: 0,
            baseline: F32_BRIDGE,
            last_updated: now,
            embedding: embedding@,
        }),
{
    let mut relations: Vec<String> = Vec::new();
    relations.push(WORLD_KNOWLEDGE_TAG.to_owned());
    let r = MemoryNode {
        id: 0,
        tenant_id: tenant.to_owned(),
        owner_id: owner.to_owned(),
        filaments: crate::model::Filaments {
            fact: bridge,
            emotion_valence: F32_ZERO,
            emotion_intensity: F32_ZERO,
            created_at: now,
            decay_rate: F32_DECAY,
            relations,
            confidence: F32_BRIDGE,
            mentions_7d: 0,
        },
        tension: crate::model::Tension { baseline: F32_BRIDGE, last_updated: now },
        embedding,
    };
    assert(r@.relations =~= seq![WORLD_KNOWLEDGE_TAG@]);
    r
}

// ---------------------------------------------------------------------------
// Session weaving.
// ---------------------------------------------------------------------------

/// The raw event of a session turn: `"{speaker}: {text}"`.
pub open spec fn turn_text(speaker: Seq<char>, text: Seq<char>) -> Seq<char> {
    speaker + ": "@ + text
}

/// The leaf text of a session turn.
pub fn session_leaf_text(speaker: &str, text: &str) -> (r: String)
    ensures
        r@ == turn_text(speaker@, text@),
{
    let head = concat_str(speaker, ": ");
    concat_str(head.as_str(), text)
}

/// A turn as a line of the session transcript: prefixed with its event id
/// when it has one.
pub open spec fn turn_line(event_id: Seq<char>, speaker: Seq<char>, text: Seq<char>) -> Seq<char> {
    if event_id.len() == 0 {
        turn_text(speaker, text)
    } else {
        event_id + " "@ + turn_text(speaker, text)
    }
}

/// The transcript line of a turn.
pub fn session_line(event_id: &str, speaker: &str, text: &str) -> (r: String)
    ensures
        r@ == turn_line(event_id@, speaker@, text@),
{
    let t = session_leaf_text(speaker, text);
    if event_id.is_empty() {
        t
    } else {
        let head = concat_str(event_id, " ");
        let r = concat_str(head.as_str(), t.as_str());
        assert(r@ =~= event_id@ + " "@ + turn_text(speaker@, text@));
        r
    }
}

/// Lines joined with newlines.
pub open spec fn joined(lines: Seq<Seq<char>>) -> Seq<char>
    decreases lines.len(),
{
    if lines.len() == 0 {
        Seq::empty()
    } else if lines.len() == 1 {
        lines[0]
    } else {
        joined(lines.drop_last()) + "\n"@ + lines.last()
    }
}

/// The transcript: lines joined with newlines.
pub fn join_lines(lines: &Vec<String>) -> (r: String)
    ensures
        r@ == joined(crate::model::strings_view(lines@)),
{
    let ghost lv = crate::model::strings_view(lines@);
    if lines.len() == 0 {
        return String::new();
    }
    let mut out = lines[0].clone();
    let mut i: usize = 1;
    assert(lv.take(1).drop_last() =~= Seq::<Seq<char>>::empty());
    while i < lines.len()
        invariant
            1 <= i <= lines@.len(),
            lv == crate::model::strings_view(lines@),
            out@ == joined(lv.take(i as int)),
        decreases lines@.len() - i,
    {
        let head = concat_str(out.as_str(), "\n");
        out = concat_str(head.as_str(), lines[i].as_str());
        assert(lv.take(i + 1).drop_last() =~= lv.take(i as int));
        assert(lv.take(i + 1).last() == lines@[i as int]@);
        i = i + 1;
    }
    assert(lv.take(lines@.len() as int) =~= lv);
    out
}

/// The node that the last leaf with event id `id` became.
pub open spec fn leaf_of(leaves: Seq<(Seq<char>, u32)>, id: Seq<char>) -> Option<u32>
    decreases leaves.len(),
{
    if leaves.len() == 0 {
        None
    } else if leaves.last().0 == id {
        Some(leaves.last().1)
    } else {
        leaf_of(leaves.drop_last(), id)
    }
}

pub open spec fn leaves_view(v: Seq<(String, u32)>) -> Seq<(Seq<char>, u32)> {
    Seq::new(v.len(), |i: int| (v[i].0@, v[i].1))
}

fn find_leaf(leaves: &Vec<(String, u32)>, id: &str) -> (r: Option<u32>)
    ensures
        r == leaf_of(leaves_view(leaves@), id@),
{
    let ghost lv = leaves_view(leaves@);
    let mut i: usize = leaves.len();
    assert(lv.take(i as int) =~= lv);
    while i > 0
        invariant
            i <= leaves@.len(),
            lv == leaves_view(leaves@),
            leaf_of(lv, id@) == leaf_of(lv.take(i as int), id@),
        decreases i,
    {
        assert(lv.take(i as int).drop_last() =~= lv.take(i - 1));
        assert(lv.take(i as int).last() == lv[i - 1]);
        if str_equal(leaves[i - 1].0.as_str(), id) {
            return Some(leaves[i - 1].1);
        }
        i = i - 1;
    }
    None
}

/// Derived edges from a fact node to the leaves it was drawn from, in the
/// order of its sources; unknown sources are skipped.
pub open spec fn derived_from(fact: u32, sources: Seq<Seq<char>>, leaves: Seq<(Seq<char>, u32)>) -> Seq<(u32, u32)>
    decreases sources.len(),
{
    if sources.len() == 0 {
        Seq::empty()
    } else {
        let before = derived_from(fact, sources.drop_last(), leaves);
        match leaf_of(leaves, sources.last()) {
            Some(l) => before.push((fact, l)),
            None => before,
        }
    }
}

/// The derived edges of a fact node.
pub fn derived_edges(fact: u32, sources: &Vec<String>, leaves: &Vec<(String, u32)>) -> (r: Vec<(u32, u32)>)
    ensures
        r@ == derived_from(fact, crate::model::strings_view(sources@), leaves_view(leaves@)),
{
    let ghost sv = crate::model::strings_view(sources@);
    let mut out: Vec<(u32, u32)> = Vec::new();
    let mut i: usize = 0;
    while i < sources.len()
        invariant
            i <= sources@.len(),
            sv == crate::model::strings_view(sources@),
            out@ == derived_from(fact, sv.take(i as int), leaves_view(leaves@)),
        decreases sources@.len() - i,
    {
        assert(sv.take(i + 1).drop_last() =~= sv.take(i as int));
        assert(sv.take(i + 1).last() == sources@[i as int]@);
        match find_leaf(leaves, sources[i].as_str()) {
            Some(l) => out.push((fact, l)),
            None => {},
        }
        i = i + 1;
    }
    assert(sv.take(sources@.len() as int) =~= sv);
    out
}

// ---------------------------------------------------------------------------
// Listing and fallback seeds: most recent first.
// ---------------------------------------------------------------------------

/// `a` comes before `b` in recency order: created later, or at the same
/// time with the larger id.
pub open spec fn more_recent(g: MemoryGraph, a: u32, b: u32) -> bool {
    let ca = g.live()[a].created_at;
    let cb = g.live()[b].created_at;
    ca > cb || (ca == cb && a > b)
}

pub open spec fn recency_sorted(g: MemoryGraph, s: Seq<u32>) -> bool {
    forall|i: int, j: int| 0 <= i < j < s.len() ==> more_recent(g, s[i], s[j])
}

fn created_at_of(g: &MemoryGraph, id: u32) -> (r: i64)
    requires
        g.wf(),
        g.live().contains_key(id),
    ensures
        r == g.live()[id].created_at,
{
    match g.get_node(id) {
        Some(n) => n.filaments.created_at,
        None => {
            assert(false);
            0
        },
    }
}

fn more_recent_exec(g: &MemoryGraph, a: u32, b: u32) -> (r: bool)
    requires
        g.wf(),
        g.live().contains_key(a),
        g.live().contains_key(b),
    ensures
        r == more_recent(*g, a, b),
{
    let ca = created_at_of(g, a);
    let cb = created_at_of(g, b);
    ca > cb || (ca == cb && a > b)
}

proof fn lemma_push_contains(s: Seq<u32>, x: u32, y: u32)
    ensures
        s.push(x).contains(y) <==> (s.contains(y) || y == x),
{
    let t = s.push(x);
    if t.contains(y) {
        let k = choose|k: int| 0 <= k < t.len() && t[k] == y;
        if k < s.len() {
            assert(s[k] == y);
        }
    }
    if s.contains(y) {
        let k = choose|k: int| 0 <= k < s.len() && s[k] == y;
        assert(t[k] == y);
    }
    if y == x {
        assert(t[s.len() as int] == x);
    }
}

/// Orders live nodes most recent first (creation time, then id, both
/// descending).
pub fn order_by_recency(g: &MemoryGraph, ids: &Vec<u32>) -> (r: Vec<u32>)
    requires
        g.wf(),
        ids@.no_duplicates(),
        forall|i: int| 0 <= i < ids@.len() ==> g.live().contains_key(#[trigger] ids@[i]),
    ensures
        r@.len() == ids@.len(),
        r@.no_duplicates(),
        forall|x: u32| r@.contains(x) <==> ids@.contains(x),
        recency_sorted(*g, r@),
{
    let mut out: Vec<u32> = Vec::new();
    let mut i: usize = 0;
    while i < ids.len()
        invariant
            g.wf(),
            i <= ids@.len(),
            ids@.no_duplicates(),
            forall|k: int| 0 <= k < ids@.len() ==> g.live().contains_key(#[trigger] ids@[k]),
            out@.len() == i,
            out@.no_duplicates(),
            forall|x: u32| out@.contains(x) <==> ids@.take(i as int).contains(x),
            recency_sorted(*g, out@),
        decreases ids@.len() - i,
    {
        let x = ids[i];
        assert(!out@.contains(x)) by {
            if out@.contains(x) {
                let k = choose|k: int| 0 <= k < i && ids@.take(i as int)[k] == x;
                assert(ids@[k] == ids@[i as int]);
            }
        }
        proof {
            assert forall|k: int| 0 <= k < out@.len() implies g.live().contains_key(#[trigger] out@[k]) by {
                let y = out@[k];
                assert(out@.contains(y));
                let m = choose|m: int| 0 <= m < i && ids@.take(i as int)[m] == y;
                assert(ids@[m] == y);
            }
        }
        let mut p: usize = 0;
        while p < out.len()
            invariant
                g.wf(),
                p <= out@.len(),
                g.live().contains_key(x),
                forall|k: int| 0 <= k < out@.len() ==> g.live().contains_key(#[trigger] out@[k]),
                forall|k: int| 0 <= k < p ==> !more_recent(*g, x, #[trigger] out@[k]),
            ensures
                p <= out@.len(),
                forall|k: int| 0 <= k < p ==> !more_recent(*g, x, #[trigger] out@[k]),
                p < out@.len() ==> more_recent(*g, x, out@[p as int]),
            decreases out@.len() - p,
        {
            if more_recent_exec(g, x, out[p]) {
                break;
            }
            p = p + 1;
        }
        let ghost before = out@;
        out.insert(p, x);
        proof {
            assert(out@ == before.insert(p as int, x));
            assert forall|a: int, b: int| 0 <= a < b < out@.len() implies more_recent(*g, out@[a], out@[b]) by {
                let ya = out@[a];
                let yb = out@[b];
                if a < p && b < p {
                    assert(ya == before[a] && yb == before[b]);
                } else if a < p && b == p {
                    assert(ya == before[a]);
                    assert(!more_recent(*g, x, before[a]));
                    assert(ya != x);
                } else if a < p && b > p {
                    assert(ya == before[a] && yb == before[b - 1]);
                } else if a == p {
                    assert(yb == before[b - 1]);
                    assert(p < before.len());
                    assert(more_recent(*g, x, before[p as int]));
                    if b - 1 > p {
                        assert(more_recent(*g, before[p as int], before[b - 1]));
                    }
                } else {
                    assert(ya == before[a - 1] && yb == before[b - 1]);
                }
            }
            assert forall|y: u32| out@.contains(y) <==> ids@.take(i + 1).contains(y) by {
                assert(ids@.take(i + 1) =~= ids@.take(i as int).push(x));
                lemma_push_contains(ids@.take(i as int), x, y);
                assert(before.contains(y) <==> ids@.take(i as int).contains(y));
                assert(out@[p as int] == x);
                if out@.contains(y) {
                    let k = choose|k: int| 0 <= k < out@.len() && out@[k] == y;
                    if k < p {
                        assert(before[k] == y);
                    } else if k > p {
                        assert(before[k - 1] == y);
                    }
                }
                if before.contains(y) {
                    let k = choose|k: int| 0 <= k < before.len() && before[k] == y;
                    if k < p {
                        assert(out@[k] == y);
                    } else {
                        assert(out@[k + 1] == y);
                    }
                }
            }
            assert forall|a: int, b: int| 0 <= a < out@.len() && 0 <= b < out@.len() && a != b implies out@[a] != out@[b] by {
                if a < b {
                    assert(more_recent(*g, out@[a], out@[b]));
                } else {
                    assert(more_recent(*g, out@[b], out@[a]));
                }
            }
        }
        i = i + 1;
    }
    assert(ids@.take(ids@.len() as int) =~= ids@);
    out
}

/// The live nodes of a tenant, and of an owner when one is given.
pub open spec fn listed(g: MemoryGraph, id: u32, tenant: Seq<char>, owner: Option<Seq<char>>) -> bool {
    g.live().contains_key(id) && g.live()[id].tenant == tenant && match owner {
        Some(o) => g.live()[id].owner == o,
        None => true,
    }
}

fn listed_ids(g: &MemoryGraph, tenant: &str, owner: Option<&str>) -> (r: Vec<u32>)
    requires
        g.wf(),
    ensures
        r@.no_duplicates(),
        forall|x: u32| r@.contains(x) <==> listed(*g, x, tenant@, crate::audit::opt_str(owner)),
{
    let ids = g.live_ids();
    let mut out: Vec<u32> = Vec::new();
    let mut i: usize = 0;
    while i < ids.len()
        invariant
            g.wf(),
            i <= ids@.len(),
            forall|a: int, b: int| 0 <= a < b < ids@.len() ==> ids@[a] < ids@[b],
            forall|x: u32| ids@.contains(x) <==> g.live().contains_key(x),
            forall|k: int| 0 <= k < out@.len() ==> exists|m: int| 0 <= m < i && #[trigger] out@[k] == ids@[m],
            forall|a: int, b: int| 0 <= a < b < out@.len() ==> out@[a] < out@[b],
            forall|x: u32| out@.contains(x) <==> (ids@.take(i as int).contains(x) && listed(*g, x, tenant@, crate::audit::opt_str(owner))),
        decreases ids@.len() - i,
    {
        let x = ids[i];
        assert(ids@.contains(x));
        assert(ids@.take(i + 1) =~= ids@.take(i as int).push(x));
        let keep = match g.get_node(x) {
            Some(n) => str_equal(n.tenant_id.as_str(), tenant) && match owner {
                Some(o) => str_equal(n.owner_id.as_str(), o),
                None => true,
            },
            None => false,
        };
        assert(keep == listed(*g, x, tenant@, crate::audit::opt_str(owner)));
        let ghost before = out@;
        if keep {
            out.push(x);
            proof {
                assert forall|a: int, b: int| 0 <= a < b < out@.len() implies out@[a] < out@[b] by {
                    if b == out@.len() - 1 {
                        let m = choose|m: int| 0 <= m < i && before[a] == ids@[m];
                        assert(out@[a] == before[a]);
                    } else {
                        assert(out@[a] == before[a] && out@[b] == before[b]);
                    }
                }
                assert forall|k: int| 0 <= k < out@.len() implies exists|m: int| 0 <= m < i + 1 && #[trigger] out@[k] == ids@[m] by {
                    if k == out@.len() - 1 {
                        assert(out@[k] == ids@[i as int]);
                    } else {
                        assert(out@[k] == before[k]);
                        let m = choose|m: int| 0 <= m < i && before[k] == ids@[m];
                        assert(out@[k] == ids@[m]);
                    }
                }
            }
        }
        proof {
            assert forall|y: u32| out@.contains(y) <==> (ids@.take(i + 1).contains(y) && listed(*g, y, tenant@, crate::audit::opt_str(owner))) by {
                lemma_push_contains(ids@.take(i as int), x, y);
                if keep {
                    lemma_push_contains(before, x, y);
                    assert(out@ == before.push(x));
                    if out@.contains(y) && y != x {
                        let k = choose|k: int| 0 <= k < out@.len() && out@[k] == y;
                        assert(before[k] == y);
                    }
                    if before.contains(y) {
                        let k = choose|k: int| 0 <= k < before.len() && before[k] == y;
                        assert(out@[k] == y);
                    }
                    if y == x {
                        assert(out@[before.len() as int] == x);
                    }
                }
            }
        }
        i = i + 1;
    }
    proof {
        assert(ids@.take(ids@.len() as int) =~= ids@);
        assert forall|a: int, b: int| 0 <= a < out@.len() && 0 <= b < out@.len() && a != b implies out@[a] != out@[b] by {
            if a < b {
                assert(out@[a] < out@[b]);
            } else {
                assert(out@[b] < out@[a]);
            }
        }
    }
    out
}

/// The page `[offset, offset + limit)` of the nodes that a listing shows,
/// most recent first, and the number of such nodes.
pub open spec fn list_page_of(sorted: Seq<u32>, offset: nat, limit: nat) -> Seq<u32> {
    let start: int = if offset < sorted.len() {
        offset as int
    } else {
        sorted.len() as int
    };
    let end: int = if limit < sorted.len() - start {
        start + limit
    } else {
        sorted.len() as int
    };
    sorted.subrange(start, end)
}

/// Lists the nodes of a tenant (and owner, when given), most recent first:
/// their number and one page of them.
pub fn list_page(g: &MemoryGraph, tenant: &str, owner: Option<&str>, offset: usize, limit: usize) -> (r: (usize, Vec<u32>))
    requires
        g.wf(),
    ensures
        exists|sorted: Seq<u32>|
            {
                &&& sorted.no_duplicates()
                &&& forall|x: u32| sorted.contains(x) <==> listed(*g, x, tenant@, crate::audit::opt_str(owner))
                &&& recency_sorted(*g, sorted)
                &&& r.0 == sorted.len()
                &&& r.1@ == list_page_of(sorted, offset as nat, limit as nat)
            },
{
    let ids = listed_ids(g, tenant, owner);
    proof {
        assert forall|i: int| 0 <= i < ids@.len() implies g.live().contains_key(#[trigger] ids@[i]) by {
            assert(ids@.contains(ids@[i]));
        }
    }
    let sorted = order_by_recency(g, &ids);
    let total = sorted.len();
    let start = if offset < total {
        offset
    } else {
        total
    };
    let end = if limit < total - start {
        start + limit
    } else {
        total
    };
    let page = vstd::slice::slice_to_vec(vstd::slice::slice_subrange(sorted.as_slice(), start, end));
    assert(page@ =~= list_page_of(sorted@, offset as nat, limit as nat));
    (total, page)
}

/// The first position of `x` in `s` (its length when absent).
pub open spec fn first_position(s: Seq<u32>, x: u32) -> int
    decreases s.len(),
{
    if s.len() == 0 || s[0] == x {
        0
    } else {
        1 + first_position(s.drop_first(), x)
    }
}

/// Lexical seeds joining the seeds chosen so far, until there are `max`:
/// a lexical seed already chosen is marked with the position it matched
/// (its weight is raised), a new one joins and is marked `None`. The
/// result is the seeds and one mark per lexical seed looked at.
pub open spec fn fuse_from(seeds: Seq<u32>, lex: Seq<u32>, max: nat) -> (Seq<u32>, Seq<Option<int>>)
    decreases lex.len(),
{
    if lex.len() == 0 || seeds.len() >= max {
        (seeds, Seq::empty())
    } else if seeds.contains(lex[0]) {
        let (s, m) = fuse_from(seeds, lex.drop_first(), max);
        (s, seq![Some(first_position(seeds, lex[0]))] + m)
    } else {
        let (s, m) = fuse_from(seeds.push(lex[0]), lex.drop_first(), max);
        (s, seq![None::<int>] + m)
    }
}

/// The seed plan of a resonance over ids: the first vector seeds (at most
/// `VEC_SEED_QUOTA`), then the lexical seeds that are new, until there are
/// `max` seeds.
pub open spec fn seed_plan(vec: Seq<u32>, lex: Seq<u32>, max: nat) -> (Seq<u32>, Seq<Option<int>>) {
    fuse_from(vec.take(if vec.len() < VEC_SEED_QUOTA { vec.len() as int } else { VEC_SEED_QUOTA as int }), lex, max)
}

/// The view of an optional position.
pub open spec fn opt_int(o: Option<usize>) -> Option<int> {
    match o {
        Some(j) => Some(j as int),
        None => None,
    }
}

proof fn lemma_fuse_from_distinct(seeds: Seq<u32>, lex: Seq<u32>, max: nat)
    requires
        seeds.no_duplicates(),
    ensures
        fuse_from(seeds, lex, max).0.no_duplicates(),
        forall|x: u32| #[trigger] fuse_from(seeds, lex, max).0.contains(x) ==> seeds.contains(x) || lex.contains(x),
    decreases lex.len(),
{
    if lex.len() > 0 && seeds.len() < max {
        let rest = lex.drop_first();
        let next = if seeds.contains(lex[0]) { seeds } else { seeds.push(lex[0]) };
        assert(next.no_duplicates()) by {
            if !seeds.contains(lex[0]) {
                assert forall|a: int, b: int| 0 <= a < next.len() && 0 <= b < next.len() && a != b implies next[a] != next[b] by {
                    if a < seeds.len() && b < seeds.len() {
                    } else if a < seeds.len() {
                        assert(seeds.contains(seeds[a]));
                    } else {
                        assert(seeds.contains(seeds[b]));
                    }
                }
            }
        }
        lemma_fuse_from_distinct(next, rest, max);
        assert forall|x: u32| #[trigger] fuse_from(seeds, lex, max).0.contains(x) implies seeds.contains(x) || lex.contains(x) by {
            if next.contains(x) && !seeds.contains(x) {
                assert(x == lex[0]);
            }
            if rest.contains(x) {
                let j = choose|j: int| 0 <= j < rest.len() && rest[j] == x;
                assert(lex[j + 1] == x);
            }
        }
    }
}

/// Resonance seeds never repeat: when the vector seeds are distinct, the
/// fused seeds are distinct, and each is a vector or a lexical seed.
pub proof fn lemma_seed_plan_distinct(vec: Seq<u32>, lex: Seq<u32>, max: nat)
    requires
        vec.no_duplicates(),
    ensures
        seed_plan(vec, lex, max).0.no_duplicates(),
        forall|x: u32| #[trigger] seed_plan(vec, lex, max).0.contains(x) ==> vec.contains(x) || lex.contains(x),
{
    let q = if vec.len() < VEC_SEED_QUOTA { vec.len() as int } else { VEC_SEED_QUOTA as int };
    let head = vec.take(q);
    assert(head.no_duplicates()) by {
        assert forall|a: int, b: int| 0 <= a < head.len() && 0 <= b < head.len() && a != b implies head[a] != head[b] by {
            assert(head[a] == vec[a] && head[b] == vec[b]);
        }
    }
    lemma_fuse_from_distinct(head, lex, max);
    assert forall|x: u32| #[trigger] seed_plan(vec, lex, max).0.contains(x) implies vec.contains(x) || lex.contains(x) by {
        if head.contains(x) {
            let j = choose|j: int| 0 <= j < head.len() && head[j] == x;
            assert(vec[j] == x);
        }
    }
}

proof fn lemma_first_position(s: Seq<u32>, x: u32)
    ensures
        0 <= first_position(s, x) <= s.len(),
        s.contains(x) ==> first_position(s, x) < s.len() && s[first_position(s, x)] == x,
        forall|j: int| 0 <= j < first_position(s, x) ==> s[j] != x,
    decreases s.len(),
{
    if s.len() > 0 && s[0] != x {
        lemma_first_position(s.drop_first(), x);
        if s.contains(x) {
            let j = choose|j: int| 0 <= j < s.len() && s[j] == x;
            assert(s.drop_first()[j - 1] == x);
        }
        assert forall|j: int| 0 <= j < first_position(s, x) implies s[j] != x by {
            if j > 0 {
                assert(s[j] == s.drop_first()[j - 1]);
            }
        }
    }
}

fn position_of(s: &Vec<u32>, x: u32) -> (r: Option<usize>)
    ensures
        match r {
            Some(j) => s@.contains(x) && j == first_position(s@, x),
            None => !s@.contains(x),
        },
{
    proof {
        lemma_first_position(s@, x);
    }
    let mut j: usize = 0;
    while j < s.len()
        invariant
            j <= s@.len(),
            forall|k: int| 0 <= k < j ==> s@[k] != x,
            0 <= first_position(s@, x) <= s@.len(),
            s@.contains(x) ==> first_position(s@, x) < s@.len() && s@[first_position(s@, x)] == x,
            forall|k: int| 0 <= k < first_position(s@, x) ==> s@[k] != x,
        decreases s@.len() - j,
    {
        if s[j] == x {
            return Some(j);
        }
        j = j + 1;
    }
    None
}

/// Fuses vector and lexical seeds by id (the weights are the caller's):
/// returns the seeds and, for each lexical seed looked at, the position of
/// the seed it matched, or `None` when it joined.
pub fn fuse_seeds(vec: &Vec<u32>, lex: &Vec<u32>, max: usize) -> (r: (Vec<u32>, Vec<Option<usize>>))
    ensures
        r.0@ == seed_plan(vec@, lex@, max as nat).0,
        r.1@.len() == seed_plan(vec@, lex@, max as nat).1.len(),
        forall|i: int| 0 <= i < r.1@.len() ==> #[trigger] opt_int(r.1@[i]) == seed_plan(vec@, lex@, max as nat).1[i],
{
    let quota = if vec.len() < VEC_SEED_QUOTA { vec.len() } else { VEC_SEED_QUOTA };
    let mut seeds: Vec<u32> = Vec::new();
    let mut q: usize = 0;
    while q < quota
        invariant
            quota <= vec@.len(),
            q <= quota,
            seeds@ == vec@.take(q as int),
        decreases quota - q,
    {
        seeds.push(vec[q]);
        assert(vec@.take(q + 1) =~= vec@.take(q as int).push(vec@[q as int]));
        q = q + 1;
    }
    let ghost top = seed_plan(vec@, lex@, max as nat);
    let mut marks: Vec<Option<usize>> = Vec::new();
    let mut i: usize = 0;
    assert(lex@.skip(0) =~= lex@);
    while i < lex.len() && seeds.len() < max
        invariant
            i <= lex@.len(),
            top == seed_plan(vec@, lex@, max as nat),
            top.0 == fuse_from(seeds@, lex@.skip(i as int), max as nat).0,
            top.1.len() == marks@.len() + fuse_from(seeds@, lex@.skip(i as int), max as nat).1.len(),
            forall|k: int| 0 <= k < marks@.len() ==> #[trigger] opt_int(marks@[k]) == top.1[k],
            forall|k: int| 0 <= k < fuse_from(seeds@, lex@.skip(i as int), max as nat).1.len()
                ==> #[trigger] fuse_from(seeds@, lex@.skip(i as int), max as nat).1[k] == top.1[marks@.len() + k],
        decreases lex@.len() - i,
    {
        let x = lex[i];
        let ghost rest = lex@.skip(i as int);
        let ghost before = seeds@;
        let ghost mb = marks@;
        assert(rest[0] == x);
        assert(rest.drop_first() =~= lex@.skip(i + 1));
        match position_of(&seeds, x) {
            Some(j) => {
                let ghost sub = fuse_from(before, lex@.skip(i + 1), max as nat);
                let ghost whole = seq![Some(first_position(before, x))] + sub.1;
                assert(fuse_from(before, rest, max as nat) == (sub.0, whole));
                marks.push(Some(j));
                assert forall|k: int| 0 <= k < sub.1.len() implies #[trigger] sub.1[k] == top.1[marks@.len() + k] by {
                    assert(whole[k + 1] == sub.1[k]);
                }
                assert forall|k: int| 0 <= k < marks@.len() implies #[trigger] opt_int(marks@[k]) == top.1[k] by {
                    if k == mb.len() {
                        assert(whole[0] == Some(first_position(before, x)));
                    } else {
                        assert(marks@[k] == mb[k]);
                    }
                }
            },
            None => {
                seeds.push(x);
                let ghost sub = fuse_from(before.push(x), lex@.skip(i + 1), max as nat);
                let ghost whole = seq![None::<int>] + sub.1;
                assert(fuse_from(before, rest, max as nat) == (sub.0, whole));
                marks.push(None);
                assert forall|k: int| 0 <= k < sub.1.len() implies #[trigger] sub.1[k] == top.1[marks@.len() + k] by {
                    assert(whole[k + 1] == sub.1[k]);
                }
                assert forall|k: int| 0 <= k < marks@.len() implies #[trigger] opt_int(marks@[k]) == top.1[k] by {
                    if k == mb.len() {
                        assert(whole[0] == None::<int>);
                    } else {
                        assert(marks@[k] == mb[k]);
                    }
                }
            },
        }
        i = i + 1;
    }
    (seeds, marks)
}

/// The last-resort seeds of a resonance: all nodes of the tenant and owner,
/// most recent first.
pub fn recent_seeds(g: &MemoryGraph, tenant: &str, owner: &str) -> (r: Vec<u32>)
    requires
        g.wf(),
    ensures
        r@.no_duplicates(),
        forall|x: u32| r@.contains(x) <==> in_scope(*g, x, tenant@, owner@),
        recency_sorted(*g, r@),
{
    let ids = listed_ids(g, tenant, Some(owner));
    proof {
        assert forall|i: int| 0 <= i < ids@.len() implies g.live().contains_key(#[trigger] ids@[i]) by {
            assert(ids@.contains(ids@[i]));
        }
    }
    order_by_recency(g, &ids)
}

/// The ids that pass the tenant and owner filter, in order.
pub open spec fn scoped_ids(g: MemoryGraph, ids: Seq<u32>, tenant: Seq<char>, owner: Seq<char>) -> Seq<u32>
    decreases ids.len(),
{
    if ids.len() == 0 {
        Seq::empty()
    } else {
        let before = scoped_ids(g, ids.drop_last(), tenant, owner);
        if in_scope(g, ids.last(), tenant, owner) {
            before.push(ids.last())
        } else {
            before
        }
    }
}

/// The seeds of a resonance that has only a task: the nodes of the tenant
/// and owner whose relations hold the task, ascending.
pub fn task_seeds(g: &MemoryGraph, task: &str, tenant: &str, owner: &str) -> (r: Vec<u32>)
    requires
        g.wf(),
    ensures
        r@ == scoped_ids(*g, g.tagged_below(task@, g.next_id() as nat), tenant@, owner@),
{
    let cands = g.find_by_relation(task);
    let mut out: Vec<u32> = Vec::new();
    let mut i: usize = 0;
    while i < cands.len()
        invariant
            g.wf(),
            i <= cands@.len(),
            out@ == scoped_ids(*g, cands@.take(i as int), tenant@, owner@),
        decreases cands@.len() - i,
    {
        assert(cands@.take(i + 1).drop_last() =~= cands@.take(i as int));
        assert(cands@.take(i + 1).last() == cands@[i as int]);
        if in_scope_exec(g, cands[i], tenant, owner) {
            out.push(cands[i]);
        }
        i = i + 1;
    }
    assert(cands@.take(cands@.len() as int) =~= cands@);
    out
}

/// Task seeds stay in the caller's scope and miss none of it: they are
/// exactly the live memories of the tenant and owner whose relations hold
/// the task, in ascending id order.
pub proof fn lemma_task_seeds_in_scope(g: MemoryGraph, task: Seq<char>, tenant: Seq<char>, owner: Seq<char>)
    requires
        g.wf(),
    ensures
        forall|x: u32| #[trigger]
            scoped_ids(g, g.tagged_below(task, g.next_id() as nat), tenant, owner).contains(x) <==> (
            g.live().contains_key(x) && g.live()[x].tenant == tenant && g.live()[x].owner == owner
                && g.live()[x].relations.contains(task)),
        forall|i: int, j: int|
            0 <= i < j < scoped_ids(g, g.tagged_below(task, g.next_id() as nat), tenant, owner).len()
                ==> scoped_ids(g, g.tagged_below(task, g.next_id() as nat), tenant, owner)[i] < scoped_ids(
                g,
                g.tagged_below(task, g.next_id() as nat),
                tenant,
                owner,
            )[j],
{
    g.lemma_live_below_next();
    lemma_tagged_below(g, task, g.next_id() as nat);
    lemma_scoped_ids(g, g.tagged_below(task, g.next_id() as nat), tenant, owner);
}

} // verus!
