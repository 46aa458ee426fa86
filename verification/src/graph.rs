//! Memory graph: CSR main graph + delta buffer + node storage.
//!
//! New edges go to the delta buffer (a per-source adjacency map) and reads
//! merge the two: for a given `(from, to)` the delta copy wins over the CSR
//! copy. Deletions are tombstones: a logical delete takes effect at once and
//! `compact` does the physical cleanup, folding the delta into a new CSR.
//!
//! Edge weights are `f32` bit patterns (`u32`).

use std::collections::{HashMap, HashSet};
use vstd::prelude::*;

use crate::csr::{
    edges_from, find_target, lemma_edges_from_absent, lemma_edges_from_push, lemma_find_target_index,
    lemma_find_target_push, lemma_find_target_remove, lemma_find_target_update, lemma_unique_push,
    unique_targets, CsrGraph,
};
use crate::model::{MemoryNode, NodeModel};
use crate::text::str_equal;

verus! {

broadcast use vstd::std_specs::hash::group_hash_axioms, vstd::seq_lib::group_seq_properties;

/// Maximum diffusion depth of resonance.
pub const MAX_DEPTH: u8 = 3;

/// Default global activation budget of resonance.
pub const DEFAULT_BUDGET: usize = 64;

/// Delta edges, or tombstones, from which on compaction is due.
pub const DELTA_COMPACT_THRESHOLD: usize = 100_000;

/// The key under which a CSR edge tombstone is stored.
pub open spec fn pack(from: u32, to: u32) -> u64 {
    ((from as u64) << 32u64) | (to as u64)
}

proof fn lemma_pack_injective(a: u32, b: u32, c: u32, d: u32)
    ensures
        pack(a, b) == pack(c, d) ==> a == c && b == d,
{
    assert((((a as u64) << 32u64) | (b as u64)) == (((c as u64) << 32u64) | (d as u64)) ==> a
        == c && b == d) by (bit_vector);
}

fn pack_key(from: u32, to: u32) -> (k: u64)
    ensures
        k == pack(from, to),
{
    ((from as u64) << 32u64) | (to as u64)
}

/// Sum of the delta list lengths of the given sources.
pub open spec fn delta_total(srcs: Seq<u32>, adj: Map<u32, Vec<(u32, u32)>>) -> nat
    decreases srcs.len(),
{
    if srcs.len() == 0 {
        0
    } else {
        delta_total(srcs.drop_last(), adj) + adj[srcs.last()]@.len()
    }
}

proof fn lemma_delta_total_push(srcs: Seq<u32>, adj: Map<u32, Vec<(u32, u32)>>, s: u32)
    ensures
        delta_total(srcs.push(s), adj) == delta_total(srcs, adj) + adj[s]@.len(),
{
    assert(srcs.push(s).drop_last() =~= srcs);
}

/// Changing the list of a source that occurs once changes the total by the
/// difference of lengths.
proof fn lemma_delta_total_update(
    srcs: Seq<u32>,
    adj: Map<u32, Vec<(u32, u32)>>,
    s: u32,
    v: Vec<(u32, u32)>,
)
    requires
        srcs.no_duplicates(),
        srcs.contains(s),
    ensures
        delta_total(srcs, adj.insert(s, v)) + adj[s]@.len() == delta_total(srcs, adj) + v@.len(),
    decreases srcs.len(),
{
    let adj2 = adj.insert(s, v);
    let init = srcs.drop_last();
    if srcs.last() == s {
        assert(!init.contains(s)) by {
            if init.contains(s) {
                let k = choose|k: int| 0 <= k < init.len() && init[k] == s;
                assert(srcs[k] == srcs[srcs.len() - 1]);
            }
        }
        lemma_delta_total_same(init, adj, adj2);
    } else {
        let k = choose|k: int| 0 <= k < srcs.len() && srcs[k] == s;
        assert(init[k] == s);
        assert(init.no_duplicates());
        lemma_delta_total_update(init, adj, s, v);
    }
}

/// Sources not listed do not matter.
proof fn lemma_delta_total_same(
    srcs: Seq<u32>,
    a: Map<u32, Vec<(u32, u32)>>,
    b: Map<u32, Vec<(u32, u32)>>,
)
    requires
        forall|k: int| 0 <= k < srcs.len() ==> a[#[trigger] srcs[k]] == b[srcs[k]],
    ensures
        delta_total(srcs, a) == delta_total(srcs, b),
    decreases srcs.len(),
{
    if srcs.len() > 0 {
        let init = srcs.drop_last();
        assert forall|k: int| 0 <= k < init.len() implies a[#[trigger] init[k]] == b[init[k]] by {
            assert(init[k] == srcs[k]);
        }
        lemma_delta_total_same(init, a, b);
        assert(a[srcs.last()] == b[srcs[srcs.len() - 1]]);
    }
}

/// Removing the entry at `i` of the source list subtracts its length.
proof fn lemma_delta_total_remove(srcs: Seq<u32>, adj: Map<u32, Vec<(u32, u32)>>, i: int)
    requires
        0 <= i < srcs.len(),
    ensures
        delta_total(srcs.remove(i), adj) + adj[srcs[i]]@.len() == delta_total(srcs, adj),
    decreases srcs.len(),
{
    if i == srcs.len() - 1 {
        assert(srcs.remove(i) =~= srcs.drop_last());
    } else {
        let init = srcs.drop_last();
        lemma_delta_total_remove(init, adj, i);
        assert(srcs.remove(i).drop_last() =~= init.remove(i));
        assert(srcs.remove(i).last() == srcs.last());
    }
}

/// The memory graph.
pub struct MemoryGraph {
    csr: CsrGraph,
    /// Delta buffer: new edges by source, `(target, weight)`.
    delta_adj: HashMap<u32, Vec<(u32, u32)>>,
    /// The sources that have delta edges, each once.
    delta_sources: Vec<u32>,
    delta_edge_count: usize,
    nodes: HashMap<u32, MemoryNode>,
    next_local_id: u32,
    /// Node tombstones: logically deleted, physically removed by `compact`.
    tombstones: HashSet<u32>,
    /// Tombstones of deleted CSR edges (keyed by `pack`).
    edge_tombstones: HashSet<u64>,
}

impl MemoryGraph {
    // ----- model -----

    /// The live (stored and not tombstoned) nodes.
    pub closed spec fn live(&self) -> Map<u32, NodeModel> {
        Map::new(
            |id: u32| self.nodes@.contains_key(id) && !self.tombstones@.contains(id),
            |id: u32| self.nodes@[id]@,
        )
    }

    /// Node tombstones not yet compacted away.
    pub closed spec fn tombs(&self) -> Set<u32> {
        self.tombstones@
    }

    /// The next local id that `add_node` hands out.
    pub closed spec fn next_id(&self) -> u32 {
        self.next_local_id
    }

    /// Number of edges in the delta buffer.
    pub closed spec fn delta_count(&self) -> nat {
        self.delta_edge_count as nat
    }

    /// Number of CSR edge tombstones.
    pub closed spec fn edge_tomb_count(&self) -> nat {
        self.edge_tombstones@.len()
    }

    /// Number of edges stored in the CSR main graph.
    pub closed spec fn csr_count(&self) -> nat {
        self.csr.edge_total()
    }

    pub closed spec fn delta_edge(&self, from: u32, to: u32) -> Option<u32> {
        if self.delta_adj@.contains_key(from) {
            find_target(self.delta_adj@[from]@, to)
        } else {
            None
        }
    }

    pub closed spec fn csr_edge(&self, from: u32, to: u32) -> Option<u32> {
        find_target(self.csr.adj(from as int), to)
    }

    pub closed spec fn edge_tombed(&self, from: u32, to: u32) -> bool {
        self.edge_tombstones@.contains(pack(from, to))
    }

    /// The merged view of the edge `from -> to`: the delta copy wins; the
    /// CSR copy counts unless it carries a tombstone.
    pub closed spec fn edge(&self, from: u32, to: u32) -> Option<u32> {
        if self.delta_edge(from, to) is Some {
            self.delta_edge(from, to)
        } else if self.csr_edge(from, to) is Some && !self.edge_tombed(from, to) {
            self.csr_edge(from, to)
        } else {
            None
        }
    }

    pub closed spec fn wf(&self) -> bool {
        &&& self.csr.wf()
        &&& forall|s: int| unique_targets(#[trigger] self.csr.adj(s))
        &&& self.delta_sources@.no_duplicates()
        &&& forall|s: u32| #[trigger]
            self.delta_adj@.contains_key(s) <==> self.delta_sources@.contains(s)
        &&& forall|s: u32| #[trigger]
            self.delta_adj@.contains_key(s) ==> unique_targets(self.delta_adj@[s]@)
                && self.delta_adj@[s]@.len() > 0
        &&& self.delta_edge_count == delta_total(self.delta_sources@, self.delta_adj@)
        &&& forall|id: u32| #[trigger] self.tombstones@.contains(id) ==> self.nodes@.contains_key(id)
        &&& forall|id: u32| #[trigger] self.nodes@.contains_key(id) ==> id < self.next_local_id
    }

    proof fn lemma_tombs_finite(&self)
        requires
            self.wf(),
        ensures
            self.tombs().finite(),
            self.tombs().len() <= self.nodes@.len(),
            self.live().dom() == self.nodes@.dom().difference(self.tombs()),
    {
        assert(self.tombs().subset_of(self.nodes@.dom()));
        vstd::set_lib::lemma_len_subset(self.tombs(), self.nodes@.dom());
        assert(self.live().dom() =~= self.nodes@.dom().difference(self.tombs()));
    }

    /// Live node ids are below the id allocator.
    pub proof fn lemma_live_below_next(&self)
        requires
            self.wf(),
        ensures
            forall|id: u32| #[trigger] self.live().contains_key(id) ==> id < self.next_id(),
    {
    }

    // ----- construction and nodes -----

    /// An empty graph.
    pub fn new() -> (g: MemoryGraph)
        ensures
            g.wf(),
            g.live() == Map::<u32, NodeModel>::empty(),
            g.tombs() == Set::<u32>::empty(),
            g.next_id() == 0,
            g.delta_count() == 0,
            g.edge_tomb_count() == 0,
            g.csr_count() == 0,
            forall|a: u32, b: u32| #[trigger] g.edge(a, b) is None,
    {
        let g = MemoryGraph {
            csr: CsrGraph::empty(),
            delta_adj: HashMap::new(),
            delta_sources: Vec::new(),
            delta_edge_count: 0,
            nodes: HashMap::new(),
            next_local_id: 0,
            tombstones: HashSet::new(),
            edge_tombstones: HashSet::new(),
        };
        assert(g.live() =~= Map::<u32, NodeModel>::empty());
        g
    }

    /// The local id that the next `add_node` will hand out.
    pub fn peek_next_local_id(&self) -> (r: u32)
        ensures
            r == self.next_id(),
    {
        self.next_local_id
    }

    /// Stores a node under a fresh local id and returns the id.
    pub fn add_node(&mut self, node: MemoryNode) -> (local: u32)
        requires
            old(self).wf(),
            old(self).next_id() < u32::MAX,
        ensures
            final(self).wf(),
            local == old(self).next_id(),
            !old(self).live().contains_key(local),
            final(self).live() == old(self).live().insert(local, node@),
            final(self).next_id() == old(self).next_id() + 1,
            final(self).tombs() == old(self).tombs(),
            final(self).delta_count() == old(self).delta_count(),
            final(self).edge_tomb_count() == old(self).edge_tomb_count(),
            final(self).csr_count() == old(self).csr_count(),
            forall|a: u32, b: u32| #[trigger] final(self).edge(a, b) == old(self).edge(a, b),
    {
        let local = self.next_local_id;
        self.next_local_id = self.next_local_id + 1;
        self.nodes.insert(local, node);
        assert(self.live() =~= old(self).live().insert(local, node@));
        local
    }

    /// Stores a node under the given local id (log replay and snapshot
    /// load), clearing a tombstone on it; the id allocator moves past it.
    pub fn add_node_with_id(&mut self, local: u32, node: MemoryNode)
        requires
            old(self).wf(),
            local < u32::MAX,
        ensures
            final(self).wf(),
            final(self).live() == old(self).live().insert(local, node@),
            final(self).next_id() == if local < old(self).next_id() {
                old(self).next_id()
            } else {
                (local + 1) as u32
            },
            final(self).tombs() == old(self).tombs().remove(local),
            final(self).delta_count() == old(self).delta_count(),
            final(self).edge_tomb_count() == old(self).edge_tomb_count(),
            final(self).csr_count() == old(self).csr_count(),
            forall|a: u32, b: u32| #[trigger] final(self).edge(a, b) == old(self).edge(a, b),
    {
        self.nodes.insert(local, node);
        self.tombstones.remove(&local);
        if local >= self.next_local_id {
            self.next_local_id = local + 1;
        }
        assert(self.live() =~= old(self).live().insert(local, node@));
    }

    /// Moves the id allocator forward to at least `next` (snapshot load).
    pub fn restore_next_local_id(&mut self, next: u32)
        requires
            old(self).wf(),
        ensures
            final(self).wf(),
            final(self).next_id() == if next > old(self).next_id() {
                next
            } else {
                old(self).next_id()
            },
            final(self).live() == old(self).live(),
            final(self).tombs() == old(self).tombs(),
            final(self).delta_count() == old(self).delta_count(),
            final(self).edge_tomb_count() == old(self).edge_tomb_count(),
            final(self).csr_count() == old(self).csr_count(),
            forall|a: u32, b: u32| #[trigger] final(self).edge(a, b) == old(self).edge(a, b),
    {
        if next > self.next_local_id {
            self.next_local_id = next;
        }
        assert(self.live() =~= old(self).live());
    }

    /// Whether `local_id` is a live node.
    pub fn contains_node(&self, local_id: u32) -> (r: bool)
        requires
            self.wf(),
        ensures
            r == self.live().contains_key(local_id),
    {
        !self.tombstones.contains(&local_id) && self.nodes.contains_key(&local_id)
    }

    /// The node with the given local id; deleted nodes are not visible.
    pub fn get_node(&self, local_id: u32) -> (r: Option<&MemoryNode>)
        requires
            self.wf(),
        ensures
            r is Some <==> self.live().contains_key(local_id),
            r matches Some(n) ==> n@ == self.live()[local_id],
    {
        if self.tombstones.contains(&local_id) {
            return None;
        }
        self.nodes.get(&local_id)
    }

    /// Number of live nodes.
    pub fn node_count(&self) -> (r: usize)
        requires
            self.wf(),
        ensures
            r == self.live().dom().len(),
    {
        proof {
            self.lemma_tombs_finite();
            vstd::set_lib::lemma_len_difference(self.nodes@.dom(), self.tombs());
            assert(self.nodes@.dom().difference(self.tombs()).len() + self.tombs().len()
                == self.nodes@.dom().len()) by {
                assert(self.nodes@.dom().intersect(self.tombs()) =~= self.tombs());
                vstd::set_lib::lemma_set_intersect_union_lens(self.nodes@.dom(), self.tombs());
                assert(self.nodes@.dom().union(self.tombs()) =~= self.nodes@.dom());
                vstd::set_lib::lemma_set_difference_len(self.nodes@.dom(), self.tombs());
            }
        }
        self.nodes.len() - self.tombstones.len()
    }

    /// Replaces the filaments of a live node. Returns false (and changes
    /// nothing) when the node does not exist or was deleted.
    pub fn update_node(&mut self, local_id: u32, node: MemoryNode) -> (r: bool)
        requires
            old(self).wf(),
        ensures
            final(self).wf(),
            r == old(self).live().contains_key(local_id),
            final(self).live() == if r {
                old(self).live().insert(local_id, node@)
            } else {
                old(self).live()
            },
            final(self).next_id() == old(self).next_id(),
            final(self).tombs() == old(self).tombs(),
            final(self).delta_count() == old(self).delta_count(),
            final(self).edge_tomb_count() == old(self).edge_tomb_count(),
            final(self).csr_count() == old(self).csr_count(),
            forall|a: u32, b: u32| #[trigger] final(self).edge(a, b) == old(self).edge(a, b),
    {
        if self.tombstones.contains(&local_id) {
            return false;
        }
        if !self.nodes.contains_key(&local_id) {
            return false;
        }
        self.nodes.insert(local_id, node);
        assert(self.live() =~= old(self).live().insert(local_id, node@));
        true
    }

    /// Live node ids, ascending.
    pub fn live_ids(&self) -> (r: Vec<u32>)
        requires
            self.wf(),
        ensures
            forall|i: int, j: int| 0 <= i < j < r@.len() ==> r@[i] < r@[j],
            forall|id: u32| r@.contains(id) <==> self.live().contains_key(id),
    {
        let mut out: Vec<u32> = Vec::new();
        let mut id: u32 = 0;
        while id < self.next_local_id
            invariant
                self.wf(),
                id <= self.next_local_id,
                forall|i: int, j: int| 0 <= i < j < out@.len() ==> out@[i] < out@[j],
                forall|i: int| 0 <= i < out@.len() ==> out@[i] < id,
                forall|x: u32| out@.contains(x) <==> (x < id && self.live().contains_key(x)),
            decreases self.next_local_id - id,
        {
            let ghost prev = out@;
            if self.contains_node(id) {
                out.push(id);
                assert(forall|x: u32| out@.contains(x) <==> (prev.contains(x) || x == id));
            }
            id = id + 1;
        }
        out
    }

    /// The live node ids below `n` (ascending) whose relation filament
    /// holds `tag`.
    pub open spec fn tagged_below(&self, tag: Seq<char>, n: nat) -> Seq<u32>
        decreases n,
    {
        if n == 0 {
            Seq::empty()
        } else {
            let id = (n - 1) as u32;
            let before = self.tagged_below(tag, (n - 1) as nat);
            if self.live().contains_key(id) && self.live()[id].relations.contains(tag) {
                before.push(id)
            } else {
                before
            }
        }
    }

    /// Live node ids (ascending) whose relation filament holds `tag`.
    pub fn find_by_relation(&self, tag: &str) -> (r: Vec<u32>)
        requires
            self.wf(),
        ensures
            r@ == self.tagged_below(tag@, self.next_id() as nat),
            forall|i: int, j: int| 0 <= i < j < r@.len() ==> r@[i] < r@[j],
            forall|id: u32|
                r@.contains(id) <==> self.live().contains_key(id) && self.live()[id].relations.contains(
                    tag@,
                ),
    {
        let mut out: Vec<u32> = Vec::new();
        let mut id: u32 = 0;
        while id < self.next_local_id
            invariant
                self.wf(),
                id <= self.next_local_id,
                forall|i: int, j: int| 0 <= i < j < out@.len() ==> out@[i] < out@[j],
                forall|i: int| 0 <= i < out@.len() ==> out@[i] < id,
                forall|x: u32|
                    out@.contains(x) <==> (x < id && self.live().contains_key(x) && self.live()[x].relations.contains(
                        tag@,
                    )),
                out@ == self.tagged_below(tag@, id as nat),
            decreases self.next_local_id - id,
        {
            match self.get_node(id) {
                Some(n) => {
                    let ghost prev = out@;
                    if has_relation(&n.filaments.relations, tag) {
                        out.push(id);
                        assert(forall|x: u32| out@.contains(x) <==> (prev.contains(x) || x == id));
                    }
                },
                None => {},
            }
            id = id + 1;
        }
        out
    }

    /// Live node ids (ascending) created within `[start, end]`.
    pub fn find_by_time_range(&self, start: i64, end: i64) -> (r: Vec<u32>)
        requires
            self.wf(),
        ensures
            forall|i: int, j: int| 0 <= i < j < r@.len() ==> r@[i] < r@[j],
            forall|id: u32|
                r@.contains(id) <==> self.live().contains_key(id) && start <= self.live()[id].created_at
                    <= end,
    {
        let mut out: Vec<u32> = Vec::new();
        let mut id: u32 = 0;
        while id < self.next_local_id
            invariant
                self.wf(),
                id <= self.next_local_id,
                forall|i: int, j: int| 0 <= i < j < out@.len() ==> out@[i] < out@[j],
                forall|i: int| 0 <= i < out@.len() ==> out@[i] < id,
                forall|x: u32|
                    out@.contains(x) <==> (x < id && self.live().contains_key(x) && start
                        <= self.live()[x].created_at <= end),
            decreases self.next_local_id - id,
        {
            match self.get_node(id) {
                Some(n) => {
                    let ghost prev = out@;
                    if start <= n.filaments.created_at && n.filaments.created_at <= end {
                        out.push(id);
                        assert(forall|x: u32| out@.contains(x) <==> (prev.contains(x) || x == id));
                    }
                },
                None => {},
            }
            id = id + 1;
        }
        out
    }
}

/// Index of the entry with target `to`, if any.
fn target_index(list: &Vec<(u32, u32)>, to: u32) -> (r: Option<usize>)
    ensures
        match r {
            Some(i) => i < list@.len() && list@[i as int].0 == to,
            None => forall|k: int| 0 <= k < list@.len() ==> (#[trigger] list@[k]).0 != to,
        },
{
    let mut i: usize = 0;
    while i < list.len()
        invariant
            i <= list@.len(),
            forall|k: int| 0 <= k < i ==> (#[trigger] list@[k]).0 != to,
        decreases list@.len() - i,
    {
        if list[i].0 == to {
            return Some(i);
        }
        i = i + 1;
    }
    None
}

/// Index of `v` in a list, if any.
fn index_of(list: &Vec<u32>, v: u32) -> (r: Option<usize>)
    ensures
        match r {
            Some(i) => i < list@.len() && list@[i as int] == v,
            None => !list@.contains(v),
        },
{
    let mut i: usize = 0;
    while i < list.len()
        invariant
            i <= list@.len(),
            forall|k: int| 0 <= k < i ==> list@[k] != v,
        decreases list@.len() - i,
    {
        if list[i] == v {
            return Some(i);
        }
        i = i + 1;
    }
    None
}

impl MemoryGraph {
    /// Weight of the delta copy of `from -> to`.
    fn delta_weight(&self, from: u32, to: u32) -> (r: Option<u32>)
        requires
            self.wf(),
        ensures
            r == self.delta_edge(from, to),
    {
        match self.delta_adj.get(&from) {
            None => None,
            Some(list) => {
                proof {
                    lemma_find_target_index(list@, to);
                }
                match target_index(list, to) {
                    Some(i) => Some(list[i].1),
                    None => None,
                }
            },
        }
    }

    /// Whether the CSR copy of `from -> to` carries a tombstone.
    fn edge_tombed_exec(&self, from: u32, to: u32) -> (r: bool)
        ensures
            r == self.edge_tombed(from, to),
    {
        self.edge_tombstones.contains(&pack_key(from, to))
    }

    /// Writes (or rewrites the weight of) the edge `from -> to` in the
    /// delta buffer; a repeated edge is a weight update.
    pub fn add_edge(&mut self, from: u32, to: u32, weight: u32)
        requires
            old(self).wf(),
            old(self).delta_count() < usize::MAX,
        ensures
            final(self).wf(),
            final(self).edge(from, to) == Some(weight),
            forall|a: u32, b: u32|
                !(a == from && b == to) ==> #[trigger] final(self).edge(a, b) == old(self).edge(a, b),
            final(self).delta_count() == old(self).delta_count() + if old(self).delta_edge(
                from,
                to,
            ) is Some {
                0nat
            } else {
                1nat
            },
            final(self).live() == old(self).live(),
            final(self).tombs() == old(self).tombs(),
            final(self).next_id() == old(self).next_id(),
            final(self).edge_tomb_count() == old(self).edge_tomb_count(),
            final(self).csr_count() == old(self).csr_count(),
    {
        let ghost adj0 = self.delta_adj@;
        let ghost srcs0 = self.delta_sources@;
        match self.delta_adj.remove(&from) {
            Some(mut list) => {
                let ghost l0 = list@;
                assert(unique_targets(l0));
                proof {
                    lemma_find_target_index(l0, to);
                }
                match target_index(&list, to) {
                    Some(i) => {
                        proof {
                            lemma_find_target_update(l0, i as int, weight);
                        }
                        list.set(i, (to, weight));
                    },
                    None => {
                        proof {
                            lemma_find_target_push(l0, (to, weight), to);
                            lemma_unique_push(l0, (to, weight));
                            assert forall|t: u32| #[trigger]
                                find_target(l0.push((to, weight)), t) == if t == to {
                                    Some(weight)
                                } else {
                                    find_target(l0, t)
                                } by {
                                lemma_find_target_push(l0, (to, weight), t);
                            }
                        }
                        list.push((to, weight));
                        self.delta_edge_count = self.delta_edge_count + 1;
                    },
                }
                let ghost l1 = list@;
                self.delta_adj.insert(from, list);
                proof {
                    assert(self.delta_adj@ =~= adj0.insert(from, list));
                    lemma_delta_total_update(srcs0, adj0, from, list);
                }
            },
            None => {
                let mut list: Vec<(u32, u32)> = Vec::new();
                list.push((to, weight));
                assert(unique_targets(list@));
                self.delta_adj.insert(from, list);
                self.delta_sources.push(from);
                self.delta_edge_count = self.delta_edge_count + 1;
                proof {
                    assert(self.delta_adj@ =~= adj0.insert(from, list));
                    lemma_delta_total_same(srcs0, adj0, self.delta_adj@);
                    lemma_delta_total_push(srcs0, self.delta_adj@, from);
                    assert(forall|t: u32| #[trigger] find_target(list@, t) == if t == to {
                        Some(weight)
                    } else {
                        None::<u32>
                    }) by {
                        assert forall|t: u32| #[trigger] find_target(list@, t) == if t == to {
                            Some(weight)
                        } else {
                            None::<u32>
                        } by {
                            assert(list@.drop_first() =~= Seq::<(u32, u32)>::empty());
                            assert(find_target(list@.drop_first(), t) is None);
                        }
                    }
                }
            },
        }
        proof {
            assert forall|a: u32, b: u32| !(a == from && b == to) implies #[trigger] self.edge(a, b)
                == old(self).edge(a, b) by {
                assert(self.delta_edge(a, b) == old(self).delta_edge(a, b));
            }
        }
    }
}

impl MemoryGraph {
    /// Number of delta edges leaving `node`.
    pub closed spec fn delta_out(&self, node: u32) -> nat {
        if self.delta_adj@.contains_key(node) {
            self.delta_adj@[node]@.len()
        } else {
            0
        }
    }

    /// Takes the delta list of `from` out of the buffer, keeping the
    /// bookkeeping of sources and counts.
    fn take_delta_list(&mut self, from: u32) -> (r: Option<Vec<(u32, u32)>>)
        requires
            old(self).wf(),
        ensures
            final(self).wf(),
            r is Some <==> old(self).delta_adj@.contains_key(from),
            r matches Some(l) ==> l == old(self).delta_adj@[from] && l@.len() > 0 && unique_targets(
                l@,
            ) && l@.len() == old(self).delta_out(from),
            !final(self).delta_adj@.contains_key(from),
            final(self).delta_adj@ == old(self).delta_adj@.remove(from),
            final(self).delta_count() + old(self).delta_out(from) == old(self).delta_count(),
            final(self).csr == old(self).csr,
            final(self).nodes == old(self).nodes,
            final(self).tombstones == old(self).tombstones,
            final(self).edge_tombstones == old(self).edge_tombstones,
            final(self).next_local_id == old(self).next_local_id,
    {
        let ghost adj0 = self.delta_adj@;
        let ghost srcs0 = self.delta_sources@;
        match self.delta_adj.remove(&from) {
            None => {
                assert(self.delta_adj@ =~= adj0.remove(from));
                assert(self.delta_adj@ =~= adj0);
                None
            },
            Some(list) => {
                let idx = index_of(&self.delta_sources, from);
                let i = match idx {
                    Some(i) => i,
                    None => {
                        assert(false);
                        0
                    },
                };
                proof {
                    lemma_delta_total_remove(srcs0, adj0, i as int);
                    let rest = srcs0.remove(i as int);
                    assert forall|k: int| 0 <= k < rest.len() implies adj0[#[trigger] rest[k]]
                        == self.delta_adj@[rest[k]] by {
                        let k2 = if k < i { k } else { k + 1 };
                        assert(rest[k] == srcs0[k2]);
                        assert(k2 != i);
                    }
                    lemma_delta_total_same(rest, adj0, self.delta_adj@);
                }
                self.delta_sources.remove(i);
                self.delta_edge_count = self.delta_edge_count - list.len();
                proof {
                    assert(self.delta_adj@ =~= adj0.remove(from));
                    assert(self.delta_sources@ == srcs0.remove(i as int));
                    assert(self.delta_edge_count == delta_total(self.delta_sources@, self.delta_adj@));
                    assert forall|a: int, b: int|
                        0 <= a < b < self.delta_sources@.len() implies self.delta_sources@[a]
                        != self.delta_sources@[b] by {
                        let a2 = if a < i { a } else { a + 1 };
                        let b2 = if b < i { b } else { b + 1 };
                        assert(self.delta_sources@[a] == srcs0[a2]);
                        assert(self.delta_sources@[b] == srcs0[b2]);
                    }
                    assert forall|s: u32| #[trigger] self.delta_adj@.contains_key(s)
                        <==> self.delta_sources@.contains(s) by {
                        if self.delta_sources@.contains(s) {
                            let k = choose|k: int| 0 <= k < self.delta_sources@.len() && self.delta_sources@[k] == s;
                            let k2 = if k < i { k } else { k + 1 };
                            assert(srcs0[k2] == s);
                            assert(k2 != i);
                        }
                        if self.delta_adj@.contains_key(s) {
                            let k = choose|k: int| 0 <= k < srcs0.len() && srcs0[k] == s;
                            assert(k != i);
                            let k2 = if k < i { k } else { k - 1 };
                            assert(self.delta_sources@[k2] == s);
                        }
                    }
                }
                Some(list)
            },
        }
    }

    /// Puts a non-empty delta list for `from` (which has none) back.
    fn put_delta_list(&mut self, from: u32, list: Vec<(u32, u32)>)
        requires
            old(self).wf(),
            !old(self).delta_adj@.contains_key(from),
            unique_targets(list@),
            list@.len() > 0,
            old(self).delta_count() + list@.len() <= usize::MAX,
        ensures
            final(self).wf(),
            final(self).delta_adj@ == old(self).delta_adj@.insert(from, list),
            final(self).delta_count() == old(self).delta_count() + list@.len(),
            final(self).csr == old(self).csr,
            final(self).nodes == old(self).nodes,
            final(self).tombstones == old(self).tombstones,
            final(self).edge_tombstones == old(self).edge_tombstones,
            final(self).next_local_id == old(self).next_local_id,
    {
        let ghost adj0 = self.delta_adj@;
        let ghost srcs0 = self.delta_sources@;
        let n = list.len();
        self.delta_adj.insert(from, list);
        self.delta_sources.push(from);
        self.delta_edge_count = self.delta_edge_count + n;
        proof {
            lemma_delta_total_same(srcs0, adj0, self.delta_adj@);
            lemma_delta_total_push(srcs0, self.delta_adj@, from);
        }
    }

    /// Deletes the edge `from -> to`: the delta copy is removed, the CSR
    /// copy gets a tombstone. Returns whether an edge was deleted.
    pub fn remove_edge(&mut self, from: u32, to: u32) -> (r: bool)
        requires
            old(self).wf(),
        ensures
            final(self).wf(),
            r == old(self).edge(from, to) is Some,
            final(self).edge(from, to) is None,
            forall|a: u32, b: u32|
                !(a == from && b == to) ==> #[trigger] final(self).edge(a, b) == old(self).edge(a, b),
            final(self).delta_count() + (if old(self).delta_edge(from, to) is Some {
                1nat
            } else {
                0nat
            }) == old(self).delta_count(),
            final(self).live() == old(self).live(),
            final(self).tombs() == old(self).tombs(),
            final(self).next_id() == old(self).next_id(),
            final(self).csr_count() == old(self).csr_count(),
    {
        let ghost g0 = *self;
        let mut removed = false;
        match self.take_delta_list(from) {
            None => {},
            Some(mut list) => {
                let ghost l0 = list@;
                proof {
                    lemma_find_target_index(l0, to);
                }
                match target_index(&list, to) {
                    Some(i) => {
                        proof {
                            lemma_find_target_remove(l0, i as int);
                        }
                        list.remove(i);
                        removed = true;
                    },
                    None => {},
                }
                if list.len() > 0 {
                    self.put_delta_list(from, list);
                }
            },
        }
        assert forall|a: u32, b: u32| !(a == from && b == to) implies #[trigger] self.delta_edge(a, b)
            == g0.delta_edge(a, b) by {
            if a == from && self.delta_adj@.contains_key(a) {
            }
        }
        if self.csr.has_edge(from, to) {
            let fresh = self.edge_tombstones.insert(pack_key(from, to));
            removed = removed || fresh;
        }
        proof {
            assert forall|a: u32, b: u32| !(a == from && b == to) implies #[trigger] self.edge(a, b)
                == g0.edge(a, b) by {
                lemma_pack_injective(a, b, from, to);
            }
        }
        removed
    }
}

impl MemoryGraph {
    /// Sets the weight of the edge `from -> to` in both the delta and the
    /// CSR copy. Returns false when the edge does not exist or was deleted
    /// (a deleted CSR edge is not brought back).
    pub fn update_edge(&mut self, from: u32, to: u32, weight: u32) -> (r: bool)
        requires
            old(self).wf(),
        ensures
            final(self).wf(),
            r == old(self).edge(from, to) is Some,
            final(self).edge(from, to) == if r {
                Some(weight)
            } else {
                None
            },
            forall|a: u32, b: u32|
                !(a == from && b == to) ==> #[trigger] final(self).edge(a, b) == old(self).edge(a, b),
            final(self).delta_count() == old(self).delta_count(),
            final(self).live() == old(self).live(),
            final(self).tombs() == old(self).tombs(),
            final(self).next_id() == old(self).next_id(),
            final(self).edge_tomb_count() == old(self).edge_tomb_count(),
            final(self).csr_count() == old(self).csr_count(),
    {
        let ghost g0 = *self;
        let mut found = false;
        match self.take_delta_list(from) {
            None => {},
            Some(mut list) => {
                let ghost l0 = list@;
                proof {
                    lemma_find_target_index(l0, to);
                }
                match target_index(&list, to) {
                    Some(i) => {
                        proof {
                            lemma_find_target_update(l0, i as int, weight);
                        }
                        list.set(i, (to, weight));
                        found = true;
                    },
                    None => {},
                }
                self.put_delta_list(from, list);
            },
        }
        assert(self.delta_count() == g0.delta_count());
        assert forall|a: u32, b: u32| !(a == from && b == to) implies #[trigger] self.delta_edge(a, b)
            == g0.delta_edge(a, b) by {}
        assert(found ==> self.delta_edge(from, to) == Some(weight));
        assert(!found ==> self.delta_edge(from, to) is None);
        if self.edge_tombed_exec(from, to) {
            return found;
        }
        let ghost c0 = self.csr;
        let in_csr = self.csr.update_weight(from, to, weight);
        proof {
            assert forall|a: u32, b: u32| !(a == from && b == to) implies #[trigger] self.csr_edge(a, b)
                == g0.csr_edge(a, b) by {
                if a != from {
                    assert(self.csr.adj(a as int) == c0.adj(a as int));
                }
            }
        }
        found || in_csr
    }

    /// Deletes a live node: it gets a tombstone, its delta out-edges go and
    /// its CSR out-edges get edge tombstones. Returns false (and changes
    /// nothing) when the node does not exist or was already deleted.
    pub fn remove_node(&mut self, local_id: u32) -> (r: bool)
        requires
            old(self).wf(),
        ensures
            final(self).wf(),
            r == old(self).live().contains_key(local_id),
            final(self).live() == old(self).live().remove(local_id),
            final(self).tombs() == if r {
                old(self).tombs().insert(local_id)
            } else {
                old(self).tombs()
            },
            r ==> forall|t: u32| #[trigger] final(self).edge(local_id, t) is None,
            forall|a: u32, b: u32| a != local_id ==> #[trigger] final(self).edge(a, b) == old(self).edge(a, b),
            !r ==> forall|a: u32, b: u32| #[trigger] final(self).edge(a, b) == old(self).edge(a, b),
            final(self).delta_count() + (if r {
                old(self).delta_out(local_id)
            } else {
                0
            }) == old(self).delta_count(),
            final(self).next_id() == old(self).next_id(),
            final(self).csr_count() == old(self).csr_count(),
    {
        let ghost g0 = *self;
        if !self.contains_node(local_id) {
            assert(self.live() =~= g0.live().remove(local_id));
            return false;
        }
        self.tombstones.insert(local_id);
        let _ = self.take_delta_list(local_id);
        let slots = self.csr.slot_count();
        if (local_id as usize) < slots && slots - (local_id as usize) >= 2 {
            let ns = self.csr.neighbors(local_id);
            let mut k: usize = 0;
            while k < ns.len()
                invariant
                    self.wf(),
                    ns@ == self.csr.adj(local_id as int),
                    k <= ns@.len(),
                    self.csr == g0.csr,
                    self.delta_adj@ == g0.delta_adj@.remove(local_id),
                    self.nodes == g0.nodes,
                    self.next_local_id == g0.next_local_id,
                    self.tombstones@ == g0.tombstones@.insert(local_id),
                    self.delta_count() + g0.delta_out(local_id) == g0.delta_count(),
                    forall|x: u64| #[trigger] self.edge_tombstones@.contains(x) <==> (
                    g0.edge_tombstones@.contains(x) || exists|j: int|
                        0 <= j < k && x == pack(local_id, #[trigger] ns@[j].0)),
                decreases ns@.len() - k,
            {
                let ghost e0 = self.edge_tombstones@;
                self.edge_tombstones.insert(pack_key(local_id, ns[k].0));
                proof {
                    assert forall|x: u64| #[trigger] self.edge_tombstones@.contains(x) <==> (
                    g0.edge_tombstones@.contains(x) || exists|j: int|
                        0 <= j < k + 1 && x == pack(local_id, #[trigger] ns@[j].0)) by {
                        if x == pack(local_id, ns@[k as int].0) {
                            assert(0 <= k < k + 1);
                        }
                        if exists|j: int| 0 <= j < k + 1 && x == pack(local_id, #[trigger] ns@[j].0) {
                            let j = choose|j: int| 0 <= j < k + 1 && x == pack(local_id, #[trigger] ns@[j].0);
                            if j < k {
                                assert(e0.contains(x));
                            }
                        }
                    }
                }
                k = k + 1;
            }
            proof {
                assert forall|t: u32| #[trigger] self.csr_edge(local_id, t) is Some implies self.edge_tombed(local_id, t) by {
                    lemma_find_target_index(ns@, t);
                    let j = choose|j: int| 0 <= j < ns@.len() && ns@[j].0 == t;
                    assert(self.edge_tombstones@.contains(pack(local_id, ns@[j].0)));
                }
                assert forall|a: u32, b: u32| a != local_id implies self.edge_tombed(a, b) == #[trigger] g0.edge_tombed(a, b) by {
                    if self.edge_tombed(a, b) && !g0.edge_tombed(a, b) {
                        let j = choose|j: int| 0 <= j < k && pack(a, b) == pack(local_id, #[trigger] ns@[j].0);
                        lemma_pack_injective(a, b, local_id, ns@[j].0);
                    }
                }
            }
        } else {
            proof {
                assert forall|t: u32| #[trigger] self.csr_edge(local_id, t) is None by {
                    self.csr.lemma_adj_outside(local_id as int);
                }
            }
        }
        proof {
            assert(self.live() =~= g0.live().remove(local_id));
            assert forall|a: u32, b: u32| a != local_id implies #[trigger] self.edge(a, b) == g0.edge(a, b) by {
                assert(self.delta_edge(a, b) == g0.delta_edge(a, b));
            }
            assert forall|t: u32| #[trigger] self.edge(local_id, t) is None by {
                assert(self.delta_edge(local_id, t) is None);
            }
        }
        true
    }

    /// The merged out-edges `(target, weight)` of `node`: one entry per
    /// target, the delta copy winning over the CSR copy.
    pub fn neighbors(&self, node: u32) -> (r: Vec<(u32, u32)>)
        requires
            self.wf(),
        ensures
            unique_targets(r@),
            forall|t: u32| #[trigger] find_target(r@, t) == self.edge(node, t),
    {
        let mut out: Vec<(u32, u32)> = Vec::new();
        match self.delta_adj.get(&node) {
            Some(list) => {
                let mut k: usize = 0;
                while k < list.len()
                    invariant
                        k <= list@.len(),
                        out@ == list@.take(k as int),
                    decreases list@.len() - k,
                {
                    out.push(list[k]);
                    assert(out@ =~= list@.take(k + 1));
                    k = k + 1;
                }
                assert(out@ =~= list@);
            },
            None => {},
        }
        assert(unique_targets(out@));
        assert forall|t: u32| #[trigger] find_target(out@, t) == self.delta_edge(node, t) by {
            if !self.delta_adj@.contains_key(node) {
                assert(out@ =~= Seq::<(u32, u32)>::empty());
            }
        }
        let slots = self.csr.slot_count();
        if (node as usize) < slots && slots - (node as usize) >= 2 {
            let ns = self.csr.neighbors(node);
            assert(unique_targets(ns@));
            let mut k: usize = 0;
            while k < ns.len()
                invariant
                    self.wf(),
                    ns@ == self.csr.adj(node as int),
                    unique_targets(ns@),
                    k <= ns@.len(),
                    unique_targets(out@),
                    forall|t: u32| #[trigger] find_target(out@, t) == if self.delta_edge(node, t) is Some {
                        self.delta_edge(node, t)
                    } else if !self.edge_tombed(node, t) {
                        find_target(ns@.take(k as int), t)
                    } else {
                        None
                    },
                decreases ns@.len() - k,
            {
                let (t0, w0) = ns[k];
                let ghost pre = ns@.take(k as int);
                proof {
                    assert(ns@.take(k + 1) == pre.push((t0, w0)));
                    lemma_find_target_index(pre, t0);
                    if find_target(pre, t0) is Some {
                        let j = choose|j: int| 0 <= j < pre.len() && pre[j].0 == t0;
                        assert(ns@[j].0 == ns@[k as int].0);
                    }
                    assert forall|t: u32| #[trigger] find_target(ns@.take(k + 1), t) == if find_target(pre, t) is Some {
                        find_target(pre, t)
                    } else if t0 == t {
                        Some(w0)
                    } else {
                        None
                    } by {
                        lemma_find_target_push(pre, (t0, w0), t);
                    }
                }
                if !self.edge_tombed_exec(node, t0) && self.delta_weight(node, t0).is_none() {
                    let ghost o0 = out@;
                    proof {
                        lemma_unique_push(o0, (t0, w0));
                        assert forall|t: u32| #[trigger] find_target(o0.push((t0, w0)), t) == if find_target(o0, t) is Some {
                            find_target(o0, t)
                        } else if t0 == t {
                            Some(w0)
                        } else {
                            None
                        } by {
                            lemma_find_target_push(o0, (t0, w0), t);
                        }
                    }
                    out.push((t0, w0));
                }
                k = k + 1;
            }
            assert(ns@.take(ns@.len() as int) =~= ns@);
        } else {
            assert forall|t: u32| #[trigger] self.csr_edge(node, t) is None by {
                self.csr.lemma_adj_outside(node as int);
            }
        }
        out
    }
}

impl MemoryGraph {
    /// The edge `from -> to` as seen between live nodes: edges from or to a
    /// deleted node do not count.
    pub open spec fn live_edge(&self, from: u32, to: u32) -> Option<u32> {
        if self.live().contains_key(from) && self.live().contains_key(to) {
            self.edge(from, to)
        } else {
            None
        }
    }

    /// `es` lists the edges between live nodes as `(from, to, weight)`,
    /// sources ascending, one entry per `(from, to)`.
    pub open spec fn edges_listed(&self, es: Seq<(u32, u32, u32)>) -> bool {
        &&& forall|s: int| unique_targets(#[trigger] edges_from(es, s))
        &&& forall|s: u32, t: u32| #[trigger] find_target(edges_from(es, s as int), t) == self.live_edge(s, t)
        &&& forall|i: int, j: int| 0 <= i < j < es.len() ==> es[i].0 <= es[j].0
    }

    /// All edges between live nodes as `(from, to, weight)`, sources
    /// ascending, one entry per `(from, to)`.
    pub fn live_edges(&self) -> (r: Vec<(u32, u32, u32)>)
        requires
            self.wf(),
        ensures
            self.edges_listed(r@),
            forall|s: int| unique_targets(#[trigger] edges_from(r@, s)),
            forall|s: u32, t: u32| #[trigger] find_target(edges_from(r@, s as int), t) == self.live_edge(s, t),
            forall|i: int, j: int| 0 <= i < j < r@.len() ==> r@[i].0 <= r@[j].0,
            r@.len() == self.live_edge_count(),
    {
        let mut out: Vec<(u32, u32, u32)> = Vec::new();
        let mut src: u32 = 0;
        while src < self.next_local_id
            invariant
                self.wf(),
                src <= self.next_local_id,
                forall|i: int| 0 <= i < out@.len() ==> (#[trigger] out@[i]).0 < src,
                forall|i: int, j: int| 0 <= i < j < out@.len() ==> out@[i].0 <= out@[j].0,
                forall|s: int| unique_targets(#[trigger] edges_from(out@, s)),
                forall|s: u32, t: u32| #[trigger] find_target(edges_from(out@, s as int), t) == if s < src {
                    self.live_edge(s, t)
                } else {
                    None
                },
            decreases self.next_local_id - src,
        {
            let ghost m0 = out@;
            proof {
                lemma_edges_from_absent(m0, src as int);
            }
            if self.contains_node(src) {
                let ns = self.neighbors(src);
                let mut k: usize = 0;
                while k < ns.len()
                    invariant
                        self.wf(),
                        self.live().contains_key(src),
                        src < self.next_local_id,
                        unique_targets(ns@),
                        forall|t: u32| #[trigger] find_target(ns@, t) == self.edge(src, t),
                        k <= ns@.len(),
                        forall|i: int| 0 <= i < out@.len() ==> (#[trigger] out@[i]).0 <= src,
                        forall|i: int, j: int| 0 <= i < j < out@.len() ==> out@[i].0 <= out@[j].0,
                        forall|s: int| unique_targets(#[trigger] edges_from(out@, s)),
                        forall|s: int| s != src ==> #[trigger] edges_from(out@, s) == edges_from(m0, s),
                        edges_from(m0, src as int) == Seq::<(u32, u32)>::empty(),
                        forall|t: u32| #[trigger] find_target(edges_from(out@, src as int), t) == if self.live().contains_key(t) {
                            find_target(ns@.take(k as int), t)
                        } else {
                            None
                        },
                    decreases ns@.len() - k,
                {
                    let (t0, w0) = ns[k];
                    let ghost pre = ns@.take(k as int);
                    proof {
                        assert(ns@.take(k + 1) == pre.push((t0, w0)));
                        lemma_find_target_index(pre, t0);
                        if find_target(pre, t0) is Some {
                            let j = choose|j: int| 0 <= j < pre.len() && pre[j].0 == t0;
                            assert(ns@[j].0 == ns@[k as int].0);
                        }
                        assert forall|t: u32| #[trigger] find_target(ns@.take(k + 1), t) == if find_target(pre, t) is Some {
                            find_target(pre, t)
                        } else if t0 == t {
                            Some(w0)
                        } else {
                            None
                        } by {
                            lemma_find_target_push(pre, (t0, w0), t);
                        }
                    }
                    if self.contains_node(t0) {
                        let ghost mm = out@;
                        let ghost o0 = edges_from(mm, src as int);
                        proof {
                            lemma_unique_push(o0, (t0, w0));
                            assert forall|s: int| #[trigger] edges_from(mm.push((src, t0, w0)), s) == edges_from(mm, s) + if s == src {
                                seq![(t0, w0)]
                            } else {
                                Seq::<(u32, u32)>::empty()
                            } by {
                                lemma_edges_from_push(mm, (src, t0, w0), s);
                            }
                            assert(edges_from(mm.push((src, t0, w0)), src as int) == o0.push((t0, w0)));
                            assert forall|t: u32| #[trigger] find_target(o0.push((t0, w0)), t) == if find_target(o0, t) is Some {
                                find_target(o0, t)
                            } else if t0 == t {
                                Some(w0)
                            } else {
                                None
                            } by {
                                lemma_find_target_push(o0, (t0, w0), t);
                            }
                        }
                        out.push((src, t0, w0));
                        proof {
                            assert forall|s: int| s != src implies #[trigger] edges_from(out@, s) == edges_from(m0, s) by {
                                assert(edges_from(out@, s) =~= edges_from(mm, s));
                            }
                        }
                    }
                    k = k + 1;
                }
                proof {
                    assert(ns@.take(ns@.len() as int) =~= ns@);
                }
            }
            proof {
                assert forall|s: u32, t: u32| #[trigger] find_target(edges_from(out@, s as int), t) == if s < src + 1 {
                    self.live_edge(s, t)
                } else {
                    None
                } by {
                    if s == src && !self.live().contains_key(src) {
                        assert(out@ == m0);
                    }
                }
            }
            src = src + 1;
        }
        proof {
            assert forall|s: u32, t: u32| #[trigger] find_target(edges_from(out@, s as int), t) == self.live_edge(s, t) by {
                if s >= self.next_local_id && self.live().contains_key(s) {
                    assert(self.nodes@.contains_key(s));
                }
            }
            self.lemma_edges_listed_len(out@);
        }
        out
    }

    /// The `(from, to)` pairs joined by an edge between live nodes.
    pub open spec fn live_pairs(&self) -> Set<(u32, u32)> {
        Set::new(|p: (u32, u32)| self.live_edge(p.0, p.1) is Some)
    }

    /// Number of edges between live nodes.
    pub open spec fn live_edge_count(&self) -> nat {
        self.live_pairs().len()
    }

    /// Every listing of the live edges has one entry per live edge.
    pub proof fn lemma_edges_listed_len(&self, es: Seq<(u32, u32, u32)>)
        requires
            self.edges_listed(es),
        ensures
            self.live_pairs().finite(),
            es.len() == self.live_edge_count(),
    {
        lemma_edge_pairs(es);
        assert(self.live_pairs() =~= listed_pairs(es)) by {
            assert forall|p: (u32, u32)| #[trigger] self.live_pairs().contains(p) <==> listed_pairs(es).contains(p) by {
                assert(find_target(edges_from(es, p.0 as int), p.1) == self.live_edge(p.0, p.1));
            }
        }
        edge_pairs(es).unique_seq_to_set();
    }
}

/// The `(from, to)` pair of each listed edge.
pub open spec fn edge_pairs(es: Seq<(u32, u32, u32)>) -> Seq<(u32, u32)> {
    es.map_values(|e: (u32, u32, u32)| (e.0, e.1))
}

/// The pairs `(s, t)` for which the listing has an edge from `s` to `t`.
pub open spec fn listed_pairs(es: Seq<(u32, u32, u32)>) -> Set<(u32, u32)> {
    Set::new(|p: (u32, u32)| find_target(edges_from(es, p.0 as int), p.1) is Some)
}

/// A listing with one entry per `(from, to)` has distinct pairs, and they
/// are exactly its listed pairs.
pub proof fn lemma_edge_pairs(es: Seq<(u32, u32, u32)>)
    requires
        forall|s: int| unique_targets(#[trigger] edges_from(es, s)),
    ensures
        edge_pairs(es).no_duplicates(),
        edge_pairs(es).to_set() == listed_pairs(es),
    decreases es.len(),
{
    if es.len() == 0 {
        assert(edge_pairs(es).to_set() =~= listed_pairs(es));
    } else {
        let pre = es.drop_last();
        let e = es.last();
        let x = (e.0, e.1);
        assert(pre.push(e) =~= es);
        assert forall|s: int| #[trigger] edges_from(es, s) == edges_from(pre, s) + if e.0 == s {
            seq![(e.1, e.2)]
        } else {
            Seq::<(u32, u32)>::empty()
        } by {
            lemma_edges_from_push(pre, e, s);
        }
        assert forall|s: int| unique_targets(#[trigger] edges_from(pre, s)) by {
            let full = edges_from(es, s);
            assert forall|i: int, j: int| 0 <= i < j < edges_from(pre, s).len() implies edges_from(pre, s)[i].0
                != edges_from(pre, s)[j].0 by {
                assert(full[i] == edges_from(pre, s)[i]);
                assert(full[j] == edges_from(pre, s)[j]);
            }
        }
        lemma_edge_pairs(pre);
        let ps = edge_pairs(pre);
        assert(edge_pairs(es) =~= ps.push(x));
        let a = edges_from(pre, e.0 as int);
        lemma_find_target_index(a, e.1);
        if find_target(a, e.1) is Some {
            let k = choose|k: int| 0 <= k < a.len() && a[k].0 == e.1;
            let full = edges_from(es, e.0 as int);
            assert(full[k] == a[k]);
            assert(full[a.len() as int] == (e.1, e.2));
            assert(false);
        }
        assert(!ps.contains(x)) by {
            if ps.contains(x) {
                assert(ps.to_set().contains(x));
                assert(listed_pairs(pre).contains(x));
            }
        }
        assert forall|i: int, j: int| 0 <= i < edge_pairs(es).len() && 0 <= j < edge_pairs(es).len() && i != j
            implies edge_pairs(es)[i] != edge_pairs(es)[j] by {
            if i < ps.len() && j < ps.len() {
                assert(edge_pairs(es)[i] == ps[i]);
                assert(edge_pairs(es)[j] == ps[j]);
            } else if i < ps.len() {
                assert(edge_pairs(es)[i] == ps[i]);
            } else if j < ps.len() {
                assert(edge_pairs(es)[j] == ps[j]);
            }
        }
        assert forall|p: (u32, u32)| #[trigger] edge_pairs(es).to_set().contains(p) <==> listed_pairs(es).contains(p) by {
            let l = edges_from(pre, p.0 as int);
            let extra: Seq<(u32, u32)> = if e.0 == p.0 as int {
                seq![(e.1, e.2)]
            } else {
                Seq::<(u32, u32)>::empty()
            };
            assert(edges_from(es, p.0 as int) == l + extra);
            lemma_find_target_index(l, p.1);
            lemma_find_target_index(l + extra, p.1);
            if edge_pairs(es).contains(p) {
                let i = choose|i: int| 0 <= i < edge_pairs(es).len() && edge_pairs(es)[i] == p;
                if i < ps.len() {
                    assert(ps[i] == p);
                    assert(ps.to_set().contains(p));
                    assert(listed_pairs(pre).contains(p));
                    let k = choose|k: int| 0 <= k < l.len() && l[k].0 == p.1;
                    assert((l + extra)[k] == l[k]);
                } else {
                    assert((l + extra)[l.len() as int].0 == p.1);
                }
            }
            if listed_pairs(es).contains(p) {
                let k = choose|k: int| 0 <= k < (l + extra).len() && (l + extra)[k].0 == p.1;
                if k < l.len() {
                    assert(l[k].0 == p.1);
                    assert(listed_pairs(pre).contains(p));
                    assert(ps.to_set().contains(p));
                    let i = choose|i: int| 0 <= i < ps.len() && ps[i] == p;
                    assert(edge_pairs(es)[i] == p);
                } else {
                    assert(edge_pairs(es)[ps.len() as int] == x);
                }
            }
        }
        assert(edge_pairs(es).to_set() =~= listed_pairs(es));
    }
}

impl MemoryGraph {
    /// Number of edges in the delta buffer.
    pub fn delta_edge_count(&self) -> (r: usize)
        ensures
            r == self.delta_count(),
    {
        self.delta_edge_count
    }

    /// Number of edges stored in the CSR main graph (tombstoned ones included).
    pub fn csr_edge_count(&self) -> (r: usize)
        requires
            self.wf(),
        ensures
            r == self.csr_count(),
    {
        self.csr.edge_count()
    }

    /// Whether `source` has edges in the delta buffer.
    pub fn delta_has_source(&self, source: u32) -> (r: bool)
        requires
            self.wf(),
        ensures
            r == (self.delta_out(source) > 0),
    {
        self.delta_adj.contains_key(&source)
    }

    /// Whether the CSR copy of `from -> to` carries an edge tombstone.
    pub fn has_edge_tombstone(&self, from: u32, to: u32) -> (r: bool)
        ensures
            r == self.edge_tombed(from, to),
    {
        self.edge_tombed_exec(from, to)
    }

    /// Number of node tombstones.
    pub fn tombstone_count(&self) -> (r: usize)
        requires
            self.wf(),
        ensures
            r == self.tombs().len(),
    {
        self.tombstones.len()
    }

    /// Number of CSR edge tombstones.
    pub fn edge_tombstone_count(&self) -> (r: usize)
        ensures
            r == self.edge_tomb_count(),
    {
        self.edge_tombstones.len()
    }

    /// Whether the delta buffer or the tombstones have grown past the
    /// threshold from which the CSR main graph should be rebuilt.
    pub fn needs_compaction(&self) -> (r: bool)
        requires
            self.wf(),
        ensures
            r == (self.delta_count() >= DELTA_COMPACT_THRESHOLD || self.tombs().len()
                + self.edge_tomb_count() >= DELTA_COMPACT_THRESHOLD),
    {
        if self.delta_edge_count >= DELTA_COMPACT_THRESHOLD {
            return true;
        }
        let t = self.tombstones.len();
        let e = self.edge_tombstones.len();
        t >= DELTA_COMPACT_THRESHOLD || e >= DELTA_COMPACT_THRESHOLD - t
    }

    /// The offset table of the compacted CSR is indexable: every node id it
    /// must cover, plus one, fits in a `usize` (always so where `usize` is
    /// wider than 32 bits).
    pub open spec fn offsets_fit(&self) -> bool {
        &&& self.next_id() < usize::MAX
        &&& forall|s: u32, t: u32| #[trigger] self.delta_edge(s, t) is Some ==> s + 1 < usize::MAX && t + 1 < usize::MAX
    }

    /// What compaction makes of `g0`: the same live nodes, no tombstones, an
    /// empty delta buffer, the same id allocator; below the allocator the
    /// edges of sources that were not deleted read the same except those to
    /// deleted targets, and deleted sources keep no edge.
    pub open spec fn compacted(g0: MemoryGraph, g1: MemoryGraph) -> bool {
        &&& g1.live() == g0.live()
        &&& g1.tombs() == Set::<u32>::empty()
        &&& g1.next_id() == g0.next_id()
        &&& g1.delta_count() == 0
        &&& g1.edge_tomb_count() == 0
        &&& g1.csr_count() <= g0.delta_count() + g0.csr_count()
        &&& forall|s: u32, t: u32| s < g0.next_id() && !g0.tombs().contains(s)
            ==> #[trigger] g1.edge(s, t) == (if g0.tombs().contains(t) { None } else { g0.edge(s, t) })
        &&& forall|s: u32, t: u32| g0.tombs().contains(s) ==> #[trigger] g1.edge(s, t) is None
        &&& forall|s: u32, t: u32| s >= g0.next_id()
            ==> #[trigger] g1.edge(s, t) == (if g0.tombs().contains(t) { None } else { g0.delta_edge(s, t) })
    }

    /// Compaction changes no read: the live nodes, every edge between live
    /// nodes and the edge count are those of before, and no node is left
    /// tombstoned.
    pub proof fn lemma_compaction_keeps_reads(g0: MemoryGraph, g1: MemoryGraph)
        requires
            g0.wf(),
            g1.wf(),
            MemoryGraph::compacted(g0, g1),
        ensures
            g1.live() == g0.live(),
            forall|s: u32, t: u32| #[trigger] g1.live_edge(s, t) == g0.live_edge(s, t),
            g1.live_edge_count() == g0.live_edge_count(),
            g1.tombs() == Set::<u32>::empty(),
    {
        g0.lemma_live_below_next();
        assert forall|s: u32, t: u32| #[trigger] g1.live_edge(s, t) == g0.live_edge(s, t) by {
            if g0.live().contains_key(s) && g0.live().contains_key(t) {
                assert(s < g0.next_id());
                assert(!g0.tombs().contains(s));
                assert(!g0.tombs().contains(t));
            }
        }
        assert(g1.live_pairs() =~= g0.live_pairs()) by {
            assert forall|p: (u32, u32)| #[trigger] g1.live_pairs().contains(p) <==> g0.live_pairs().contains(p) by {
                assert(g1.live_edge(p.0, p.1) == g0.live_edge(p.0, p.1));
            }
        }
    }

    /// Whether `compact` can run: the edges fit the CSR's 32-bit offsets and
    /// the offset table is indexable.
    pub fn can_compact(&self) -> (r: bool)
        requires
            self.wf(),
        ensures
            r == (self.delta_count() + self.csr_count() <= u32::MAX && self.offsets_fit()),
    {
        let csr_edges = self.csr.edge_count();
        if self.delta_edge_count > u32::MAX as usize || csr_edges > u32::MAX as usize - self.delta_edge_count {
            return false;
        }
        if self.next_local_id as usize == usize::MAX {
            return false;
        }
        let ghost srcs = self.delta_sources@;
        let ghost adj = self.delta_adj@;
        let mut i: usize = 0;
        while i < self.delta_sources.len()
            invariant
                self.wf(),
                srcs == self.delta_sources@,
                adj == self.delta_adj@,
                i <= srcs.len(),
                forall|j: int, t: u32| 0 <= j < i && #[trigger] self.delta_edge(srcs[j], t) is Some
                    ==> srcs[j] + 1 < usize::MAX && t + 1 < usize::MAX,
            decreases srcs.len() - i,
        {
            let sv = self.delta_sources[i];
            assert(srcs.contains(sv));
            let list = match self.delta_adj.get(&sv) {
                Some(l) => l,
                None => {
                    assert(false);
                    return false;
                },
            };
            assert(list@ == adj[sv]@);
            let mut k: usize = 0;
            while k < list.len()
                invariant
                    self.wf(),
                    srcs == self.delta_sources@,
                    adj == self.delta_adj@,
                    adj.contains_key(sv),
                    list@ == adj[sv]@,
                    k <= list@.len(),
                    forall|m: int| 0 <= m < k ==> (sv as int) + 1 < usize::MAX && (#[trigger] list@[m]).0 + 1 < usize::MAX,
                decreases list@.len() - k,
            {
                let (t0, _) = list[k];
                if sv as usize >= usize::MAX - 1 || t0 as usize >= usize::MAX - 1 {
                    proof {
                        lemma_find_target_index(list@, t0);
                        assert(list@[k as int].0 == t0);
                        assert(self.delta_edge(sv, t0) is Some);
                    }
                    return false;
                }
                k = k + 1;
            }
            proof {
                assert forall|j: int, t: u32| 0 <= j < i + 1 && #[trigger] self.delta_edge(srcs[j], t) is Some
                    implies srcs[j] + 1 < usize::MAX && t + 1 < usize::MAX by {
                    if j == i {
                        lemma_find_target_index(list@, t);
                        let m = choose|m: int| 0 <= m < list@.len() && list@[m].0 == t;
                        assert(list@[m].0 + 1 < usize::MAX);
                    }
                }
            }
            i = i + 1;
        }
        proof {
            assert forall|s2: u32, t: u32| #[trigger] self.delta_edge(s2, t) is Some implies s2 + 1 < usize::MAX
                && t + 1 < usize::MAX by {
                assert(adj.contains_key(s2));
                assert(srcs.contains(s2));
                let j = choose|j: int| 0 <= j < srcs.len() && srcs[j] == s2;
                assert(self.delta_edge(srcs[j], t) is Some);
            }
        }
        true
    }

    /// Compaction: folds the delta buffer into a new CSR main graph and
    /// applies the tombstones. Edges from or to deleted nodes and deleted
    /// CSR edges are dropped, deleted nodes are physically removed, and the
    /// delta buffer and all tombstones are cleared. For every source below
    /// the id allocator that is not deleted, the edges to live or unknown
    /// targets read the same as before.
    pub fn compact(&mut self)
        requires
            old(self).wf(),
            old(self).delta_count() + old(self).csr_count() <= u32::MAX,
            old(self).offsets_fit(),
        ensures
            final(self).wf(),
            MemoryGraph::compacted(*old(self), *final(self)),
    {
        let ghost g0 = *self;
        let mut num_nodes: usize = self.next_local_id as usize;
        let mut merged: Vec<(u32, u32, u32)> = Vec::new();
        let slots = self.csr.slot_count();
        let mut src: u32 = 0;
        // CSR edges of sources below the id allocator.
        while src < self.next_local_id
            invariant
                self.wf(),
                *self == g0,
                slots == self.csr.slots(),
                num_nodes == self.next_local_id as usize,
                src <= self.next_local_id,
                forall|i: int| 0 <= i < merged@.len() ==> (#[trigger] merged@[i]).0 < src,
                merged@.len() <= self.csr.edges_before(src as int),
                forall|s: int| unique_targets(#[trigger] edges_from(merged@, s)),
                forall|s: u32, t: u32| #[trigger]
                    find_target(edges_from(merged@, s as int), t) == if s < src && !self.tombstones@.contains(s)
                        && !self.tombstones@.contains(t) && !self.edge_tombed(s, t)
                        && self.delta_edge(s, t) is None {
                        self.csr_edge(s, t)
                    } else {
                        None
                    },
            decreases self.next_local_id - src,
        {
            if !self.tombstones.contains(&src) && (src as usize) < slots && slots - (src as usize) >= 2 {
                let ns = self.csr.neighbors(src);
                assert(unique_targets(ns@));
                proof {
                    self.csr.lemma_adj_span(src as int);
                }
                let ghost m0 = merged@;
                proof {
                    lemma_edges_from_absent(m0, src as int);
                }
                let mut k: usize = 0;
                while k < ns.len()
                    invariant
                        self.wf(),
                        *self == g0,
                        !self.tombstones@.contains(src),
                        src < self.next_local_id,
                        ns@ == self.csr.adj(src as int),
                        unique_targets(ns@),
                        k <= ns@.len(),
                        merged@.len() <= m0.len() + k,
                        forall|i: int| 0 <= i < merged@.len() ==> (#[trigger] merged@[i]).0 <= src,
                        forall|s: int| unique_targets(#[trigger] edges_from(merged@, s)),
                        forall|s: int| s != src ==> #[trigger] edges_from(merged@, s) == edges_from(m0, s),
                        edges_from(m0, src as int) == Seq::<(u32, u32)>::empty(),
                        forall|t: u32| #[trigger]
                            find_target(edges_from(merged@, src as int), t) == if !self.tombstones@.contains(t)
                                && !self.edge_tombed(src, t) && self.delta_edge(src, t) is None {
                                find_target(ns@.take(k as int), t)
                            } else {
                                None
                            },
                    decreases ns@.len() - k,
                {
                    let (t0, w0) = ns[k];
                    let ghost pre = ns@.take(k as int);
                    proof {
                        assert(ns@.take(k + 1) == pre.push((t0, w0)));
                        lemma_find_target_index(pre, t0);
                        if find_target(pre, t0) is Some {
                            let j = choose|j: int| 0 <= j < pre.len() && pre[j].0 == t0;
                            assert(ns@[j].0 == ns@[k as int].0);
                        }
                        assert forall|t: u32| #[trigger] find_target(ns@.take(k + 1), t) == if find_target(pre, t) is Some {
                            find_target(pre, t)
                        } else if t0 == t {
                            Some(w0)
                        } else {
                            None
                        } by {
                            lemma_find_target_push(pre, (t0, w0), t);
                        }
                    }
                    if !self.tombstones.contains(&t0) && !self.edge_tombed_exec(src, t0)
                        && self.delta_weight(src, t0).is_none() {
                        let ghost mm = merged@;
                        let ghost o0 = edges_from(mm, src as int);
                        proof {
                            lemma_unique_push(o0, (t0, w0));
                            assert forall|s: int| #[trigger] edges_from(mm.push((src, t0, w0)), s) == edges_from(mm, s) + if s == src {
                                seq![(t0, w0)]
                            } else {
                                Seq::<(u32, u32)>::empty()
                            } by {
                                lemma_edges_from_push(mm, (src, t0, w0), s);
                            }
                            assert(edges_from(mm.push((src, t0, w0)), src as int) == o0.push((t0, w0)));
                            assert forall|t: u32| #[trigger] find_target(o0.push((t0, w0)), t) == if find_target(o0, t) is Some {
                                find_target(o0, t)
                            } else if t0 == t {
                                Some(w0)
                            } else {
                                None
                            } by {
                                lemma_find_target_push(o0, (t0, w0), t);
                            }
                        }
                        merged.push((src, t0, w0));
                        proof {
                            assert forall|s: int| s != src implies #[trigger] edges_from(merged@, s) == edges_from(m0, s) by {
                                assert(edges_from(merged@, s) =~= edges_from(mm, s));
                            }
                        }
                    }
                    k = k + 1;
                }
                proof {
                    assert(ns@.take(ns@.len() as int) =~= ns@);
                }
            } else {
                proof {
                    if !self.tombstones@.contains(src) {
                        self.csr.lemma_adj_outside(src as int);
                    }
                    if (src as int) + 1 < slots {
                        self.csr.lemma_adj_span(src as int);
                    }
                }
            }
            proof {
                assert forall|s: u32, t: u32| #[trigger]
                    find_target(edges_from(merged@, s as int), t) == if s < src + 1 && !self.tombstones@.contains(s)
                        && !self.tombstones@.contains(t) && !self.edge_tombed(s, t)
                        && self.delta_edge(s, t) is None {
                        self.csr_edge(s, t)
                    } else {
                        None
                    } by {
                    if s == src {
                        if self.tombstones@.contains(s) || !((src as int) + 1 < slots) {
                            if !self.tombstones@.contains(s) {
                                self.csr.lemma_adj_outside(src as int);
                            }
                        }
                    }
                }
                self.csr.lemma_edges_before_step(src as int);
            }
            src = src + 1;
        }
        let p1 = merged.len();
        proof {
            self.csr.lemma_edges_before_step(src as int);
        }
        // Delta edges of sources that were not deleted.
        let ghost srcs = self.delta_sources@;
        let ghost adj = self.delta_adj@;
        let mut i: usize = 0;
        while i < self.delta_sources.len()
            invariant
                self.wf(),
                *self == g0,
                srcs == self.delta_sources@,
                adj == self.delta_adj@,
                self.offsets_fit(),
                i <= srcs.len(),
                num_nodes >= self.next_local_id as usize,
                num_nodes < usize::MAX,
                forall|j: int| 0 <= j < merged@.len() ==> ((#[trigger] merged@[j]).0 as int) < num_nodes,
                merged@.len() <= p1 + delta_total(srcs.take(i as int), adj),
                p1 <= self.csr.edge_total(),
                forall|s: int| unique_targets(#[trigger] edges_from(merged@, s)),
                forall|s: u32, t: u32| #[trigger]
                    find_target(edges_from(merged@, s as int), t) == if srcs.take(i as int).contains(s)
                        && !self.tombstones@.contains(s) && !self.tombstones@.contains(t)
                        && self.delta_edge(s, t) is Some {
                        self.delta_edge(s, t)
                    } else if s < self.next_local_id && !self.tombstones@.contains(s)
                        && !self.tombstones@.contains(t) && !self.edge_tombed(s, t)
                        && self.delta_edge(s, t) is None {
                        self.csr_edge(s, t)
                    } else {
                        None
                    },
            decreases srcs.len() - i,
        {
            let sv = self.delta_sources[i];
            proof {
                assert(srcs.take(i + 1) == srcs.take(i as int).push(sv));
                assert(srcs.take(i + 1).drop_last() == srcs.take(i as int));
                assert(!srcs.take(i as int).contains(sv)) by {
                    if srcs.take(i as int).contains(sv) {
                        let j = choose|j: int| 0 <= j < i && srcs.take(i as int)[j] == sv;
                        assert(srcs[j] == srcs[i as int]);
                    }
                }
                assert(forall|x: u32| #[trigger] srcs.take(i + 1).contains(x) <==> (srcs.take(i as int).contains(x) || x == sv));
                assert(adj.contains_key(sv));
            }
            if !self.tombstones.contains(&sv) {
                let list = match self.delta_adj.get(&sv) {
                    Some(l) => l,
                    None => {
                        assert(false);
                        return;
                    },
                };
                let ghost lv = list@;
                assert(unique_targets(lv));
                let ghost m0 = merged@;
                let mut k: usize = 0;
                while k < list.len()
                    invariant
                        self.wf(),
                        *self == g0,
                        srcs == self.delta_sources@,
                        adj == self.delta_adj@,
                        self.offsets_fit(),
                        lv == list@,
                        lv == adj[sv]@,
                        adj.contains_key(sv),
                        unique_targets(lv),
                        !self.tombstones@.contains(sv),
                        k <= lv.len(),
                        num_nodes >= self.next_local_id as usize,
                        num_nodes < usize::MAX,
                        forall|j: int| 0 <= j < merged@.len() ==> ((#[trigger] merged@[j]).0 as int) < num_nodes,
                        merged@.len() <= m0.len() + k,
                        forall|s: int| unique_targets(#[trigger] edges_from(merged@, s)),
                        forall|s: int| s != sv ==> #[trigger] edges_from(merged@, s) == edges_from(m0, s),
                        forall|t: u32| #[trigger]
                            find_target(edges_from(merged@, sv as int), t) == if !self.tombstones@.contains(t)
                                && find_target(lv.take(k as int), t) is Some {
                                find_target(lv.take(k as int), t)
                            } else {
                                find_target(edges_from(m0, sv as int), t)
                            },
                        forall|t: u32| #[trigger] find_target(edges_from(m0, sv as int), t) is Some ==> self.delta_edge(sv, t) is None,
                    decreases lv.len() - k,
                {
                    let (t0, w0) = list[k];
                    let ghost pre = lv.take(k as int);
                    proof {
                        assert(lv.take(k + 1) == pre.push((t0, w0)));
                        lemma_find_target_index(pre, t0);
                        if find_target(pre, t0) is Some {
                            let j = choose|j: int| 0 <= j < pre.len() && pre[j].0 == t0;
                            assert(lv[j].0 == lv[k as int].0);
                        }
                        assert forall|t: u32| #[trigger] find_target(lv.take(k + 1), t) == if find_target(pre, t) is Some {
                            find_target(pre, t)
                        } else if t0 == t {
                            Some(w0)
                        } else {
                            None
                        } by {
                            lemma_find_target_push(pre, (t0, w0), t);
                        }
                        lemma_find_target_index(lv, t0);
                        assert(lv[k as int].0 == t0);
                        assert(self.delta_edge(sv, t0) is Some);
                    }
                    if !self.tombstones.contains(&t0) {
                        let ghost mm = merged@;
                        let ghost o0 = edges_from(mm, sv as int);
                        proof {
                            assert(find_target(o0, t0) is None);
                            lemma_unique_push(o0, (t0, w0));
                            assert forall|s: int| #[trigger] edges_from(mm.push((sv, t0, w0)), s) == edges_from(mm, s) + if s == sv {
                                seq![(t0, w0)]
                            } else {
                                Seq::<(u32, u32)>::empty()
                            } by {
                                lemma_edges_from_push(mm, (sv, t0, w0), s);
                            }
                            assert(edges_from(mm.push((sv, t0, w0)), sv as int) == o0.push((t0, w0)));
                            assert forall|t: u32| #[trigger] find_target(o0.push((t0, w0)), t) == if find_target(o0, t) is Some {
                                find_target(o0, t)
                            } else if t0 == t {
                                Some(w0)
                            } else {
                                None
                            } by {
                                lemma_find_target_push(o0, (t0, w0), t);
                            }
                        }
                        merged.push((sv, t0, w0));
                        let a = sv as usize + 1;
                        let b = t0 as usize + 1;
                        if a > num_nodes {
                            num_nodes = a;
                        }
                        if b > num_nodes {
                            num_nodes = b;
                        }
                        proof {
                            assert forall|s: int| s != sv implies #[trigger] edges_from(merged@, s) == edges_from(m0, s) by {
                                assert(edges_from(merged@, s) =~= edges_from(mm, s));
                            }
                        }
                    }
                    k = k + 1;
                }
                proof {
                    assert(lv.take(lv.len() as int) =~= lv);
                    lemma_delta_total_push(srcs.take(i as int), adj, sv);
                    assert forall|s: u32, t: u32| #[trigger]
                        find_target(edges_from(merged@, s as int), t) == if srcs.take(i + 1).contains(s)
                            && !self.tombstones@.contains(s) && !self.tombstones@.contains(t)
                            && self.delta_edge(s, t) is Some {
                            self.delta_edge(s, t)
                        } else if s < self.next_local_id && !self.tombstones@.contains(s)
                            && !self.tombstones@.contains(t) && !self.edge_tombed(s, t)
                            && self.delta_edge(s, t) is None {
                            self.csr_edge(s, t)
                        } else {
                            None
                        } by {
                        if s == sv {
                            lemma_find_target_index(lv, t);
                        }
                    }
                }
            } else {
                proof {
                    lemma_delta_total_push(srcs.take(i as int), adj, sv);
                }
            }
            i = i + 1;
        }
        proof {
            assert(srcs.take(srcs.len() as int) =~= srcs);
            assert(forall|x: u32| #[trigger] srcs.contains(x) <==> adj.contains_key(x));
        }
        let ghost edges = merged@;
        self.csr = CsrGraph::from_edges(num_nodes, merged.as_slice());
        self.delta_adj = HashMap::new();
        self.delta_sources = Vec::new();
        self.delta_edge_count = 0;
        self.edge_tombstones = HashSet::new();
        proof {
            assert forall|s: int| unique_targets(#[trigger] self.csr.adj(s)) by {
                if !(0 <= s < num_nodes) {
                    self.csr.lemma_adj_outside(s);
                }
            }
            assert forall|s: u32, t: u32| #[trigger] self.csr_edge(s, t) == find_target(edges_from(edges, s as int), t) by {
                if (s as int) >= num_nodes {
                    self.csr.lemma_adj_outside(s as int);
                    lemma_edges_from_absent(edges, s as int);
                }
            }
        }
        let ghost g1 = *self;
        let mut id: u32 = 0;
        while id < self.next_local_id
            invariant
                self.csr == g1.csr,
                self.delta_adj == g1.delta_adj,
                self.delta_sources == g1.delta_sources,
                self.delta_edge_count == g1.delta_edge_count,
                self.edge_tombstones == g1.edge_tombstones,
                self.next_local_id == g0.next_local_id,
                self.tombstones == g0.tombstones,
                forall|k: u32| #[trigger] self.nodes@.contains_key(k) <==> (g0.nodes@.contains_key(k)
                    && !(k < id && g0.tombstones@.contains(k))),
                forall|k: u32| #[trigger] self.nodes@.contains_key(k) ==> self.nodes@[k] == g0.nodes@[k],
                id <= self.next_local_id,
            decreases self.next_local_id - id,
        {
            if self.tombstones.contains(&id) {
                self.nodes.remove(&id);
            }
            id = id + 1;
        }
        self.tombstones = HashSet::new();
        proof {
            assert(self.live() =~= g0.live());
            assert(self.delta_sources@ =~= Seq::<u32>::empty());
            assert forall|s: u32, t: u32| #[trigger] self.edge(s, t) == self.csr_edge(s, t) by {}
            assert forall|s: u32, t: u32| s >= g0.next_local_id implies #[trigger] self.edge(s, t) == (if g0.tombstones@.contains(t) { None } else { g0.delta_edge(s, t) }) by {
                if g0.tombstones@.contains(s) {
                    assert(g0.nodes@.contains_key(s));
                }
                assert(g1.csr_edge(s, t) == find_target(edges_from(edges, s as int), t));
                assert(self.edge(s, t) == g1.csr_edge(s, t));
            }
        }
    }
}

/// Whether a relation list holds `tag`.
pub fn has_relation(relations: &Vec<String>, tag: &str) -> (r: bool)
    ensures
        r == crate::model::strings_view(relations@).contains(tag@),
{
    let ghost rv = crate::model::strings_view(relations@);
    let mut i: usize = 0;
    while i < relations.len()
        invariant
            i <= relations.len(),
            rv == crate::model::strings_view(relations@),
            forall|k: int| 0 <= k < i ==> rv[k] != tag@,
        decreases relations.len() - i,
    {
        if str_equal(relations[i].as_str(), tag) {
            assert(rv[i as int] == tag@);
            return true;
        }
        i = i + 1;
    }
    false
}

} // verus!
