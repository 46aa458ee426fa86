//! Compressed sparse row (CSR) adjacency: the static main graph.
//!
//! Edge weights are carried as `f32` bit patterns (`u32`).

use vstd::prelude::*;

verus! {

/// The weight of the first entry with target `t`.
pub open spec fn find_target(l: Seq<(u32, u32)>, t: u32) -> Option<u32>
    decreases l.len(),
{
    if l.len() == 0 {
        None
    } else if l[0].0 == t {
        Some(l[0].1)
    } else {
        find_target(l.drop_first(), t)
    }
}

/// No two entries share a target.
pub open spec fn unique_targets(l: Seq<(u32, u32)>) -> bool {
    forall|i: int, j: int| 0 <= i < j < l.len() ==> l[i].0 != l[j].0
}

/// A target is found exactly when some entry has it; with unique targets,
/// the weight found is that entry's.
pub proof fn lemma_find_target_index(l: Seq<(u32, u32)>, t: u32)
    ensures
        find_target(l, t) is Some <==> exists|k: int| 0 <= k < l.len() && l[k].0 == t,
        unique_targets(l) ==> forall|k: int|
            0 <= k < l.len() && #[trigger] l[k].0 == t ==> find_target(l, t) == Some(l[k].1),
    decreases l.len(),
{
    if l.len() > 0 {
        lemma_find_target_index(l.drop_first(), t);
        if exists|k: int| 0 <= k < l.len() && l[k].0 == t {
            let k = choose|k: int| 0 <= k < l.len() && l[k].0 == t;
            if k > 0 {
                assert(l.drop_first()[k - 1].0 == t);
            }
        }
        if find_target(l.drop_first(), t) is Some {
            let k = choose|k: int| 0 <= k < l.drop_first().len() && l.drop_first()[k].0 == t;
            assert(l[k + 1].0 == t);
        }
        if unique_targets(l) {
            assert(unique_targets(l.drop_first()));
            assert forall|k: int| 0 <= k < l.len() && #[trigger] l[k].0 == t implies find_target(
                l,
                t,
            ) == Some(l[k].1) by {
                if k > 0 {
                    assert(l.drop_first()[k - 1] == l[k]);
                }
            }
        }
    }
}

/// Appending an entry changes a lookup only for a target not found before.
pub proof fn lemma_find_target_push(l: Seq<(u32, u32)>, x: (u32, u32), t: u32)
    ensures
        find_target(l.push(x), t) == if find_target(l, t) is Some {
            find_target(l, t)
        } else if x.0 == t {
            Some(x.1)
        } else {
            None
        },
    decreases l.len(),
{
    let lx = l.push(x);
    if l.len() == 0 {
        assert(lx.drop_first() =~= Seq::<(u32, u32)>::empty());
        assert(lx[0] == x);
    } else {
        assert(lx.drop_first() =~= l.drop_first().push(x));
        assert(lx[0] == l[0]);
        lemma_find_target_push(l.drop_first(), x, t);
    }
}

/// Replacing the weight of the entry with target `to`.
pub proof fn lemma_find_target_update(l: Seq<(u32, u32)>, i: int, w: u32)
    requires
        unique_targets(l),
        0 <= i < l.len(),
    ensures
        unique_targets(l.update(i, (l[i].0, w))),
        forall|t: u32| #[trigger]
            find_target(l.update(i, (l[i].0, w)), t) == if t == l[i].0 {
                Some(w)
            } else {
                find_target(l, t)
            },
{
    let to = l[i].0;
    let l2 = l.update(i, (to, w));
    assert forall|t: u32| #[trigger] find_target(l2, t) == if t == to {
        Some(w)
    } else {
        find_target(l, t)
    } by {
        lemma_find_target_index(l2, t);
        lemma_find_target_index(l, t);
        if t == to {
            assert(l2[i].0 == to);
        } else {
            if find_target(l, t) is Some {
                let j = choose|j: int| 0 <= j < l.len() && l[j].0 == t;
                assert(l2[j] == l[j]);
                assert(l2[j].0 == t);
            }
            if find_target(l2, t) is Some {
                let j = choose|j: int| 0 <= j < l2.len() && l2[j].0 == t;
                assert(l2[j] == l[j]);
                assert(l[j].0 == t);
            }
        }
    }
}

/// Removing the entry with target `to`.
pub proof fn lemma_find_target_remove(l: Seq<(u32, u32)>, i: int)
    requires
        unique_targets(l),
        0 <= i < l.len(),
    ensures
        unique_targets(l.remove(i)),
        forall|t: u32| #[trigger]
            find_target(l.remove(i), t) == if t == l[i].0 {
                None
            } else {
                find_target(l, t)
            },
{
    let to = l[i].0;
    let l2 = l.remove(i);
    assert forall|a: int, b: int| 0 <= a < b < l2.len() implies l2[a].0 != l2[b].0 by {
        let a2 = if a < i { a } else { a + 1 };
        let b2 = if b < i { b } else { b + 1 };
        assert(l2[a] == l[a2]);
        assert(l2[b] == l[b2]);
    }
    assert forall|t: u32| #[trigger] find_target(l2, t) == if t == to {
        None
    } else {
        find_target(l, t)
    } by {
        lemma_find_target_index(l2, t);
        lemma_find_target_index(l, t);
        if find_target(l2, t) is Some {
            let j = choose|j: int| 0 <= j < l2.len() && l2[j].0 == t;
            let j2 = if j < i { j } else { j + 1 };
            assert(l2[j] == l[j2]);
            assert(l[j2].0 == t);
        }
        if t != to && find_target(l, t) is Some {
            let j = choose|j: int| 0 <= j < l.len() && l[j].0 == t;
            assert(j != i);
            let j2 = if j < i { j } else { j - 1 };
            assert(l2[j2] == l[j]);
            assert(l2[j2].0 == t);
        }
    }
}

/// Appending an entry with a new target keeps the targets unique.
pub proof fn lemma_unique_push(l: Seq<(u32, u32)>, x: (u32, u32))
    requires
        unique_targets(l),
        find_target(l, x.0) is None,
    ensures
        unique_targets(l.push(x)),
{
    lemma_find_target_index(l, x.0);
}

/// Appending an edge extends the out-list of its source only.
pub proof fn lemma_edges_from_push(es: Seq<(u32, u32, u32)>, e: (u32, u32, u32), n: int)
    ensures
        edges_from(es.push(e), n) == edges_from(es, n) + if e.0 == n {
            seq![(e.1, e.2)]
        } else {
            Seq::empty()
        },
{
    assert(es.push(e).drop_last() =~= es);
}

/// A node that is the source of no listed edge has an empty out-list.
pub proof fn lemma_edges_from_absent(es: Seq<(u32, u32, u32)>, n: int)
    requires
        forall|i: int| 0 <= i < es.len() ==> (#[trigger] es[i]).0 != n,
    ensures
        edges_from(es, n) == Seq::<(u32, u32)>::empty(),
    decreases es.len(),
{
    if es.len() > 0 {
        assert forall|i: int| 0 <= i < es.drop_last().len() implies (#[trigger] es.drop_last()[i]).0
            != n by {
            assert(es.drop_last()[i] == es[i]);
        }
        lemma_edges_from_absent(es.drop_last(), n);
        assert(es[es.len() - 1].0 != n);
        assert(edges_from(es, n) =~= Seq::<(u32, u32)>::empty());
    }
}

/// Edges `(src, dst, weight)` leaving `n`, in input order, as `(dst, weight)`.
pub open spec fn edges_from(es: Seq<(u32, u32, u32)>, n: int) -> Seq<(u32, u32)>
    decreases es.len(),
{
    if es.len() == 0 {
        Seq::empty()
    } else {
        let e = es.last();
        edges_from(es.drop_last(), n) + if e.0 == n {
            seq![(e.1, e.2)]
        } else {
            Seq::empty()
        }
    }
}

/// Number of edges whose source is below `n`.
pub open spec fn count_below(es: Seq<(u32, u32, u32)>, n: int) -> nat
    decreases es.len(),
{
    if es.len() == 0 {
        0
    } else {
        count_below(es.drop_last(), n) + if (es.last().0 as int) < n {
            1nat
        } else {
            0nat
        }
    }
}

proof fn lemma_count_below_step(es: Seq<(u32, u32, u32)>, n: int)
    ensures
        count_below(es, n + 1) == count_below(es, n) + edges_from(es, n).len(),
    decreases es.len(),
{
    if es.len() > 0 {
        lemma_count_below_step(es.drop_last(), n);
    }
}

proof fn lemma_count_below_mono(es: Seq<(u32, u32, u32)>, a: int, b: int)
    requires
        a <= b,
    ensures
        count_below(es, a) <= count_below(es, b),
    decreases es.len(),
{
    if es.len() > 0 {
        lemma_count_below_mono(es.drop_last(), a, b);
    }
}

proof fn lemma_count_below_bounds(es: Seq<(u32, u32, u32)>, n: int)
    ensures
        count_below(es, n) <= es.len(),
        n <= 0 ==> count_below(es, n) == 0,
        (forall|i: int| 0 <= i < es.len() ==> (#[trigger] es[i]).0 < n) ==> count_below(es, n)
            == es.len(),
    decreases es.len(),
{
    if es.len() > 0 {
        lemma_count_below_bounds(es.drop_last(), n);
        if forall|i: int| 0 <= i < es.len() ==> (#[trigger] es[i]).0 < n {
            assert forall|i: int| 0 <= i < es.drop_last().len() implies (
            #[trigger] es.drop_last()[i]).0 < n by {
                assert(es.drop_last()[i] == es[i]);
            }
            assert(es[es.len() - 1].0 < n);
        }
    }
}

proof fn lemma_edges_from_len(es: Seq<(u32, u32, u32)>, n: int)
    ensures
        edges_from(es, n).len() <= es.len(),
    decreases es.len(),
{
    if es.len() > 0 {
        lemma_edges_from_len(es.drop_last(), n);
    }
}

/// The edges of a prefix leaving `n` are a prefix of those of the whole list.
proof fn lemma_edges_from_prefix(es: Seq<(u32, u32, u32)>, i: int, n: int)
    requires
        0 <= i <= es.len(),
    ensures
        edges_from(es.take(i), n).len() <= edges_from(es, n).len(),
        forall|k: int|
            0 <= k < edges_from(es.take(i), n).len() ==> #[trigger] edges_from(es.take(i), n)[k]
                == edges_from(es, n)[k],
    decreases es.len() - i,
{
    if i < es.len() {
        lemma_edges_from_prefix(es, i + 1, n);
        assert(es.take(i + 1).drop_last() =~= es.take(i));
        let a = edges_from(es.take(i), n);
        let b = edges_from(es.take(i + 1), n);
        assert(b == a + if es[i].0 == n {
            seq![(es[i].1, es[i].2)]
        } else {
            Seq::empty()
        });
        assert forall|k: int| 0 <= k < a.len() implies #[trigger] a[k] == edges_from(es, n)[k] by {
            assert(a[k] == b[k]);
        }
    } else {
        assert(es.take(i) =~= es);
    }
}

/// CSR adjacency: `offsets[n]..offsets[n + 1]` indexes the out-edges of `n`.
#[derive(Debug, Default, Clone)]
pub struct CsrGraph {
    offsets: Vec<u32>,
    targets: Vec<u32>,
    weights: Vec<u32>,
}

impl CsrGraph {
    /// Number of offset slots (one more than the node count, or zero).
    pub closed spec fn slots(&self) -> nat {
        self.offsets@.len()
    }

    /// Total number of edges stored.
    pub closed spec fn edge_total(&self) -> nat {
        self.targets@.len()
    }

    pub closed spec fn wf(&self) -> bool {
        &&& self.targets@.len() == self.weights@.len()
        &&& self.offsets@.len() > 0 ==> self.offsets@[0] == 0 && self.offsets@.last()
            == self.targets@.len()
        &&& forall|i: int, j: int|
            0 <= i <= j < self.offsets@.len() ==> self.offsets@[i] <= self.offsets@[j]
    }

    /// The out-edges `(dst, weight)` of node `n`, in stored order.
    pub closed spec fn adj(&self, n: int) -> Seq<(u32, u32)> {
        if 0 <= n && n + 1 < self.offsets@.len() {
            let s = self.offsets@[n] as int;
            Seq::new(
                (self.offsets@[n + 1] - s) as nat,
                |k: int| (self.targets@[s + k], self.weights@[s + k]),
            )
        } else {
            Seq::empty()
        }
    }

    /// The empty graph.
    pub fn empty() -> (g: CsrGraph)
        ensures
            g.wf(),
            g.slots() == 0,
            g.edge_total() == 0,
            forall|n: int| #[trigger] g.adj(n) == Seq::<(u32, u32)>::empty(),
    {
        CsrGraph { offsets: Vec::new(), targets: Vec::new(), weights: Vec::new() }
    }

    /// Builds the CSR of an edge list over nodes `0..num_nodes`; each node's
    /// out-edges keep their order in the list.
    pub fn from_edges(num_nodes: usize, edges: &[(u32, u32, u32)]) -> (g: CsrGraph)
        requires
            num_nodes < usize::MAX,
            edges@.len() <= u32::MAX,
            forall|i: int| 0 <= i < edges@.len() ==> ((#[trigger] edges@[i]).0 as int) < num_nodes,
        ensures
            g.wf(),
            g.slots() == num_nodes + 1,
            g.edge_total() == edges@.len(),
            forall|n: int| 0 <= n < num_nodes ==> #[trigger] g.adj(n) == edges_from(edges@, n),
    {
        let ghost es = edges@;
        let n_slots = num_nodes + 1;
        let mut degree: Vec<u32> = vec![0u32; n_slots];
        let mut i: usize = 0;
        while i < edges.len()
            invariant
                es == edges@,
                es.len() <= u32::MAX,
                n_slots == num_nodes + 1,
                forall|j: int| 0 <= j < es.len() ==> ((#[trigger] es[j]).0 as int) < num_nodes,
                0 <= i <= es.len(),
                degree@.len() == n_slots,
                degree@[0] == 0,
                forall|s: int|
                    0 <= s < num_nodes ==> #[trigger] degree@[s + 1] == edges_from(
                        es.take(i as int),
                        s,
                    ).len(),
            decreases es.len() - i,
        {
            let src = edges[i].0 as usize;
            proof {
                lemma_edges_from_len(es.take(i as int), src as int);
                assert forall|s: int| 0 <= s < num_nodes implies #[trigger] edges_from(
                    es.take(i + 1),
                    s,
                ).len() == edges_from(es.take(i as int), s).len() + if s == src {
                    1int
                } else {
                    0int
                } by {
                    assert(es.take(i + 1).drop_last() =~= es.take(i as int));
                }
            }
            degree.set(src + 1, degree[src + 1] + 1);
            i = i + 1;
        }
        assert(es.take(es.len() as int) =~= es);
        proof {
            lemma_count_below_bounds(es, 0);
            assert forall|j: int| 1 <= j < n_slots implies #[trigger] degree@[j] == edges_from(
                es,
                j - 1,
            ).len() by {
                let s = j - 1;
                assert(degree@[s + 1] == edges_from(es.take(es.len() as int), s).len());
            }
        }
        let mut i: usize = 1;
        while i <= num_nodes
            invariant
                es == edges@,
                es.len() <= u32::MAX,
                n_slots == num_nodes + 1,
                1 <= i <= n_slots,
                degree@.len() == n_slots,
                forall|j: int| 0 <= j < i ==> #[trigger] degree@[j] == count_below(es, j),
                forall|j: int|
                    i <= j < n_slots ==> #[trigger] degree@[j] == edges_from(es, j - 1).len(),
            decreases n_slots - i,
        {
            proof {
                lemma_count_below_step(es, i - 1);
                lemma_count_below_bounds(es, i as int);
            }
            degree.set(i, degree[i] + degree[i - 1]);
            i = i + 1;
        }
        proof {
            assert forall|a: int, b: int| 0 <= a <= b < n_slots implies degree@[a]
                <= degree@[b] by {
                lemma_count_below_mono(es, a, b);
            }
            lemma_count_below_bounds(es, num_nodes as int);
        }
        let mut cursor = degree.clone();
        assert(cursor@ =~= degree@);
        let mut targets: Vec<u32> = vec![0u32; edges.len()];
        let mut weights: Vec<u32> = vec![0u32; edges.len()];
        let mut i: usize = 0;
        while i < edges.len()
            invariant
                es == edges@,
                es.len() <= u32::MAX,
                n_slots == num_nodes + 1,
                forall|j: int| 0 <= j < es.len() ==> ((#[trigger] es[j]).0 as int) < num_nodes,
                0 <= i <= es.len(),
                degree@.len() == n_slots,
                cursor@.len() == n_slots,
                targets@.len() == es.len(),
                weights@.len() == es.len(),
                forall|j: int| 0 <= j < n_slots ==> #[trigger] degree@[j] == count_below(es, j),
                forall|a: int, b: int| 0 <= a <= b < n_slots ==> degree@[a] <= degree@[b],
                degree@[num_nodes as int] == es.len(),
                forall|s: int|
                    0 <= s < num_nodes ==> #[trigger] cursor@[s] == degree@[s] + edges_from(
                        es.take(i as int),
                        s,
                    ).len(),
                forall|s: int, k: int|
                    0 <= s < num_nodes && 0 <= k < edges_from(es.take(i as int), s).len() ==> {
                        &&& targets@[degree@[s] + k] == (#[trigger] edges_from(
                            es.take(i as int),
                            s,
                        )[k]).0
                        &&& weights@[degree@[s] + k] == edges_from(es.take(i as int), s)[k].1
                    },
            decreases es.len() - i,
        {
            let (src, dst, w) = edges[i];
            let s0 = src as usize;
            let ghost pre = es.take(i as int);
            let ghost post = es.take(i + 1);
            proof {
                assert(post.drop_last() =~= pre);
                lemma_edges_from_prefix(es, i + 1, s0 as int);
                lemma_count_below_step(es, s0 as int);
                assert(edges_from(post, s0 as int) == edges_from(pre, s0 as int) + seq![(dst, w)]);
            }
            let pos = cursor[s0] as usize;
            assert(pos < degree@[s0 + 1]);
            let ghost old_t = targets@;
            let ghost old_w = weights@;
            targets.set(pos, dst);
            weights.set(pos, w);
            cursor.set(s0, cursor[s0] + 1);
            assert(targets@ == old_t.update(pos as int, dst));
            assert(weights@ == old_w.update(pos as int, w));
            proof {
                assert forall|s: int| 0 <= s < num_nodes implies #[trigger] cursor@[s] == degree@[s]
                    + edges_from(post, s).len() by {
                    if s != s0 {
                        assert(edges_from(post, s) == edges_from(pre, s));
                    }
                }
                assert forall|s: int, k: int|
                    0 <= s < num_nodes && 0 <= k < edges_from(post, s).len() implies {
                    &&& targets@[degree@[s] + k] == (#[trigger] edges_from(post, s)[k]).0
                    &&& weights@[degree@[s] + k] == edges_from(post, s)[k].1
                } by {
                    if s != s0 {
                        assert(edges_from(post, s) == edges_from(pre, s));
                        lemma_edges_from_prefix(es, i as int, s);
                        lemma_count_below_step(es, s);
                        if s < s0 {
                            assert(degree@[s + 1] <= degree@[s0 as int]);
                        } else {
                            assert(degree@[s0 + 1] <= degree@[s]);
                        }
                        assert(degree@[s] + k != pos);
                        assert(degree@[s + 1] <= degree@[num_nodes as int]);
                        assert(degree@[s] + k < es.len());
                        assert(old_t[degree@[s] + k] == (edges_from(pre, s)[k]).0);
                        assert(old_w[degree@[s] + k] == (edges_from(pre, s)[k]).1);
                        assert(targets@[degree@[s] + k] == old_t[degree@[s] + k]);
                        assert(weights@[degree@[s] + k] == old_w[degree@[s] + k]);
                    } else if k < edges_from(pre, s).len() {
                        assert(edges_from(post, s)[k] == edges_from(pre, s)[k]);
                        assert(degree@[s] + k != pos);
                        assert(old_t[degree@[s] + k] == (edges_from(pre, s)[k]).0);
                        assert(old_w[degree@[s] + k] == (edges_from(pre, s)[k]).1);
                        assert(targets@[degree@[s] + k] == old_t[degree@[s] + k]);
                        assert(weights@[degree@[s] + k] == old_w[degree@[s] + k]);
                    } else {
                        assert(k == edges_from(pre, s).len());
                        assert(degree@[s] + k == pos);
                        assert(edges_from(post, s)[k] == (dst, w));
                    }
                }
            }
            i = i + 1;
        }
        let g = CsrGraph { offsets: degree, targets, weights };
        proof {
            assert(es.take(es.len() as int) =~= es);
            assert forall|n: int| 0 <= n < num_nodes implies #[trigger] g.adj(n) == edges_from(
                es,
                n,
            ) by {
                lemma_count_below_step(es, n);
                assert(g.adj(n) =~= edges_from(es, n));
            }
        }
        g
    }

    /// Where the out-edges of `n` start in the edge arrays.
    pub closed spec fn offset(&self, n: int) -> nat {
        self.offsets@[n] as nat
    }

    /// The out-list of a node spans the slots between its two offsets.
    pub proof fn lemma_adj_span(&self, n: int)
        requires
            self.wf(),
            0 <= n,
            n + 1 < self.slots(),
        ensures
            self.offset(n) + self.adj(n).len() == self.offset(n + 1),
            self.offset(n + 1) <= self.edge_total(),
            self.offset(0) == 0,
    {
        assert(self.offsets@[n] <= self.offsets@[n + 1]);
        assert(self.offsets@[n + 1] <= self.offsets@[self.offsets@.len() - 1]);
    }

    /// Number of stored edges whose source is below `n`.
    pub closed spec fn edges_before(&self, n: int) -> nat {
        if n < self.offsets@.len() {
            self.offsets@[n] as nat
        } else {
            self.targets@.len()
        }
    }

    /// Counting the edges before a node, one node at a time.
    pub proof fn lemma_edges_before_step(&self, n: int)
        requires
            self.wf(),
            0 <= n,
        ensures
            self.edges_before(n + 1) == self.edges_before(n) + self.adj(n).len(),
            self.edges_before(n) <= self.edge_total(),
    {
        if n + 1 < self.offsets@.len() {
            assert(self.offsets@[n] <= self.offsets@[n + 1]);
            assert(self.offsets@[n + 1] <= self.offsets@[self.offsets@.len() - 1]);
        } else if n + 1 == self.offsets@.len() {
        }
    }

    /// A node outside the offset table has no out-edges.
    pub proof fn lemma_adj_outside(&self, n: int)
        requires
            n < 0 || n + 1 >= self.slots(),
        ensures
            self.adj(n) == Seq::<(u32, u32)>::empty(),
    {
    }

    /// Number of edges stored.
    pub fn edge_count(&self) -> (r: usize)
        requires
            self.wf(),
        ensures
            r == self.edge_total(),
    {
        self.targets.len()
    }

    /// Number of offset slots.
    pub fn slot_count(&self) -> (r: usize)
        ensures
            r == self.slots(),
    {
        self.offsets.len()
    }

    /// Sets the weight of the first stored edge `from -> to`; returns
    /// whether there was one.
    pub fn update_weight(&mut self, from: u32, to: u32, w: u32) -> (r: bool)
        requires
            old(self).wf(),
            forall|s: int| unique_targets(#[trigger] old(self).adj(s)),
        ensures
            final(self).wf(),
            final(self).slots() == old(self).slots(),
            final(self).edge_total() == old(self).edge_total(),
            forall|n: int| 0 <= n < final(self).slots() ==> #[trigger] final(self).offset(n) == old(self).offset(n),
            r == find_target(old(self).adj(from as int), to) is Some,
            forall|n: int| n != from ==> #[trigger] final(self).adj(n) == old(self).adj(n),
            forall|t: u32|
                #[trigger] find_target(final(self).adj(from as int), t) == if r && t == to {
                    Some(w)
                } else {
                    find_target(old(self).adj(from as int), t)
                },
            forall|s: int| unique_targets(#[trigger] final(self).adj(s)),
    {
        let n_off = self.offsets.len();
        if from as usize >= n_off || n_off - (from as usize) < 2 {
            proof {
                lemma_find_target_index(old(self).adj(from as int), to);
            }
            return false;
        }
        let s = self.offsets[from as usize] as usize;
        let e = self.offsets[from as usize + 1] as usize;
        assert(self.offsets@[from as int] <= self.offsets@[from + 1]);
        assert(self.offsets@[from + 1] <= self.offsets@[self.offsets@.len() - 1]);
        let ghost l = old(self).adj(from as int);
        assert(unique_targets(l));
        let mut p = s;
        while p < e
            invariant
                self.wf(),
                *self == *old(self),
                l == self.adj(from as int),
                unique_targets(l),
                forall|s2: int| unique_targets(#[trigger] self.adj(s2)),
                (from as int) + 1 < self.slots(),
                s == self.offsets@[from as int],
                e == self.offsets@[from + 1],
                s <= p <= e,
                e <= self.targets@.len(),
                forall|k: int| 0 <= k < p - s ==> l[k].0 != to,
            decreases e - p,
        {
            if self.targets[p] == to {
                let ghost k = p - s;
                assert(l[k].0 == to);
                proof {
                    lemma_find_target_index(l, to);
                }
                let ghost old_g = *self;
                self.weights.set(p, w);
                proof {
                    assert(self.adj(from as int) =~= l.update(k, (to, w)));
                    assert forall|n: int| n != from implies #[trigger] self.adj(n) == old_g.adj(n) by {
                        if 0 <= n && n + 1 < self.slots() {
                            if n < from {
                                assert(self.offsets@[n + 1] <= self.offsets@[from as int]);
                            } else {
                                assert(self.offsets@[from + 1] <= self.offsets@[n]);
                            }
                            assert(self.adj(n) =~= old_g.adj(n));
                        }
                    }
                    let l2 = l.update(k, (to, w));
                    assert(unique_targets(l2));
                    lemma_find_target_index(l2, to);
                    assert forall|t: u32| #[trigger] find_target(l2, t) == if t == to {
                        Some(w)
                    } else {
                        find_target(l, t)
                    } by {
                        lemma_find_target_index(l2, t);
                        lemma_find_target_index(l, t);
                        if t == to {
                            assert(l2[k].0 == to);
                            assert(find_target(l2, t) == Some(l2[k].1));
                        } else {
                            if find_target(l, t) is Some {
                                let j = choose|j: int| 0 <= j < l.len() && l[j].0 == t;
                                assert(l2[j] == l[j]);
                                assert(l2[j].0 == t);
                                assert(find_target(l2, t) == Some(l2[j].1));
                                assert(find_target(l, t) == Some(l[j].1));
                            }
                            if find_target(l2, t) is Some {
                                let j = choose|j: int| 0 <= j < l2.len() && l2[j].0 == t;
                                assert(l2[j] == l[j]);
                                assert(l[j].0 == t);
                            }
                        }
                    }
                    assert forall|s2: int| unique_targets(#[trigger] self.adj(s2)) by {
                        if s2 != from {
                            assert(self.adj(s2) == old_g.adj(s2));
                        }
                    }
                }
                return true;
            }
            p = p + 1;
        }
        proof {
            lemma_find_target_index(l, to);
        }
        false
    }

    /// Whether an edge `from -> to` is stored.
    pub fn has_edge(&self, from: u32, to: u32) -> (r: bool)
        requires
            self.wf(),
        ensures
            r == find_target(self.adj(from as int), to) is Some,
    {
        let n_off = self.offsets.len();
        if from as usize >= n_off || n_off - (from as usize) < 2 {
            return false;
        }
        let ns = self.neighbors(from);
        let mut k: usize = 0;
        while k < ns.len()
            invariant
                ns@ == self.adj(from as int),
                k <= ns@.len(),
                forall|j: int| 0 <= j < k ==> ns@[j].0 != to,
            decreases ns@.len() - k,
        {
            if ns[k].0 == to {
                proof {
                    lemma_find_target_index(ns@, to);
                }
                return true;
            }
            k = k + 1;
        }
        proof {
            lemma_find_target_index(ns@, to);
        }
        false
    }

    /// The out-edges `(dst, weight)` of `node`.
    pub fn neighbors(&self, node: u32) -> (r: Vec<(u32, u32)>)
        requires
            self.wf(),
            (node as int) + 1 < self.slots(),
        ensures
            r@ == self.adj(node as int),
    {
        let n_off = self.offsets.len();
        let s = self.offsets[node as usize] as usize;
        let e = self.offsets[node as usize + 1] as usize;
        assert(self.offsets@[node as int] <= self.offsets@[node + 1]);
        assert(self.offsets@[node + 1] <= self.offsets@[self.offsets@.len() - 1]);
        let mut out: Vec<(u32, u32)> = Vec::new();
        let mut p = s;
        while p < e
            invariant
                self.wf(),
                (node as int) + 1 < self.slots(),
                s == self.offsets@[node as int],
                e == self.offsets@[node + 1],
                s <= p <= e,
                e <= self.targets@.len(),
                out@ == self.adj(node as int).take(p - s),
            decreases e - p,
        {
            out.push((self.targets[p], self.weights[p]));
            assert(out@ =~= self.adj(node as int).take(p + 1 - s));
            p = p + 1;
        }
        assert(self.adj(node as int).take(e - s) =~= self.adj(node as int));
        out
    }
}

} // verus!