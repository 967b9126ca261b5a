//! The memory graph: labelled, weighted edges between memory ids.
//!
//! Semantic edges are associative and visible from both endpoints; causal
//! edges are directed and only the `from` node sees the `to` node, which keeps
//! traversal moving forward in time.  The graph is modelled by three maps:
//! the forward adjacency sets, the causal predecessor sets (kept for cleanup
//! and inspection only) and the edges, keyed by the unordered pair of their
//! endpoints.
use vstd::prelude::*;

use std::collections::HashMap;
use roaring::RoaringBitmap;

use crate::bitmap::{
    bitmap_members, bm_clone, bm_insert, bm_intersect_with, bm_is_empty, bm_len, bm_new, bm_remove, bm_to_vec,
    bm_union_with,
};

verus! {

broadcast use vstd::std_specs::hash::group_hash_axioms;

/// Edge directionality.
#[derive(Debug, Clone, Copy, PartialEq, Eq, Structural)]
pub enum EdgeKind {
    /// Bidirectional associative link: both endpoints see each other.
    Semantic,
    /// Directed causal link: only `from` sees `to` in traversal.
    Causal,
}

impl Default for EdgeKind {
    fn default() -> (r: Self)
        ensures
            r == EdgeKind::Semantic,
    {
        EdgeKind::Semantic
    }
}

/// A labelled, weighted edge between two memory nodes.
///
/// `weight` holds the IEEE-754 bit pattern of the edge's `f32` weight
/// (`f32::to_bits`); the graph only stores and returns it.
#[derive(Debug, Clone)]
pub struct Edge {
    pub from: u32,
    pub to: u32,
    pub label: String,
    pub weight: u32,
    pub kind: EdgeKind,
}

/// The key under which the edge between `a` and `b` is stored: the smaller
/// endpoint in the high half, the larger in the low half, so that both
/// orders of the endpoints name the same edge.
pub open spec fn edge_key(a: u32, b: u32) -> u64 {
    if a <= b {
        (a as int * 0x1_0000_0000 + b as int) as u64
    } else {
        (b as int * 0x1_0000_0000 + a as int) as u64
    }
}

/// Two pairs of endpoints share a key exactly when they are the same
/// unordered pair.
pub proof fn edge_key_identifies_pair(a: u32, b: u32, c: u32, d: u32)
    ensures
        edge_key(a, b) == edge_key(b, a),
        edge_key(a, b) == edge_key(c, d) <==> ((a == c && b == d) || (a == d && b == c)),
{
    assert(edge_key(a, b) == edge_key(b, a));
}

/// The endpoints of an edge in canonical order, the smaller first.
fn canonical_key(a: u32, b: u32) -> (r: (u32, u32))
    ensures
        r == (if a <= b { (a, b) } else { (b, a) }),
{
    if a <= b {
        (a, b)
    } else {
        (b, a)
    }
}

fn pair_key(a: u32, b: u32) -> (r: u64)
    ensures
        r == edge_key(a, b),
{
    let (lo, hi) = canonical_key(a, b);
    (lo as u64) * 0x1_0000_0000u64 + (hi as u64)
}

fn copy_edge(e: &Edge) -> (r: Edge)
    ensures
        r == *e,
{
    Edge { from: e.from, to: e.to, label: e.label.clone(), weight: e.weight, kind: e.kind }
}

pub(crate) fn keys_of<K: Copy, V>(m: &HashMap<K, V>) -> (r: Vec<K>)
    requires
        vstd::std_specs::hash::obeys_key_model::<K>(),
    ensures
        r@.to_set() == m@.dom(),
        r@.no_duplicates(),
{
    let mut r: Vec<K> = Vec::new();
    for k in it: m.keys()
        invariant
            r@.len() == it.index(),
            forall|i: int| 0 <= i < it.index() ==> r@[i] == *it.seq()[i],
            it.seq().unref().to_set() == m@.dom(),
            it.seq().unref().no_duplicates(),
            it.index() == it.seq().len() ==> r@.to_set() == m@.dom() && r@.no_duplicates(),
    {
        r.push(*k);
        assert(it.index() + 1 == it.seq().len() ==> r@ =~= it.seq().unref());
    }
    r
}

/// The set held at `k`, empty where `k` has no entry.
pub open spec fn set_at(m: Map<u32, Set<u32>>, k: u32) -> Set<u32> {
    if m.contains_key(k) {
        m[k]
    } else {
        Set::empty()
    }
}

/// Adds `v` to the set at `k`, creating the entry where there is none.
pub open spec fn add_member(m: Map<u32, Set<u32>>, k: u32, v: u32) -> Map<u32, Set<u32>> {
    m.insert(k, set_at(m, k).insert(v))
}

/// Removes `v` from the set at `k`, dropping the entry once it is empty.
pub open spec fn drop_member(m: Map<u32, Set<u32>>, k: u32, v: u32) -> Map<u32, Set<u32>> {
    if m.contains_key(k) {
        if m[k].remove(v) == Set::<u32>::empty() {
            m.remove(k)
        } else {
            m.insert(k, m[k].remove(v))
        }
    } else {
        m
    }
}

/// The abstract state of a [`MemoryGraph`].
pub struct GraphView {
    /// Forward adjacency: the nodes each node can reach in one step.
    pub adj: Map<u32, Set<u32>>,
    /// For each node, the sources of the causal edges pointing to it.
    pub preds: Map<u32, Set<u32>>,
    /// The edges, each under the key of its endpoint pair.
    pub edges: Map<u64, Edge>,
}

impl GraphView {
    /// Every entry holds a non-empty set, and every edge sits under the key
    /// of its own endpoints.
    pub open spec fn well_formed(self) -> bool {
        &&& forall|k: u32| #[trigger] self.adj.contains_key(k) ==> self.adj[k] != Set::<u32>::empty()
        &&& forall|k: u32| #[trigger] self.preds.contains_key(k) ==> self.preds[k] != Set::<u32>::empty()
        &&& forall|k: u64| #[trigger] self.edges.contains_key(k)
            ==> edge_key(self.edges[k].from, self.edges[k].to) == k
    }

    /// The nodes reachable in one step from `id`.
    pub open spec fn neighbors(self, id: u32) -> Set<u32> {
        set_at(self.adj, id)
    }

    /// The sources of causal edges into `id`.
    pub open spec fn predecessors(self, id: u32) -> Set<u32> {
        set_at(self.preds, id)
    }

    /// The edge between `a` and `b`, in either order.
    pub open spec fn edge_between(self, a: u32, b: u32) -> Option<Edge> {
        self.edges.get(edge_key(a, b))
    }

    /// Nodes with at least one forward neighbour or causal predecessor.
    pub open spec fn nodes(self) -> Set<u32> {
        self.adj.dom().union(self.preds.dom())
    }

    /// The graph after storing `e`: whatever edge the two endpoints had is
    /// removed first, with the links it made; then the source sees the
    /// target, a semantic edge is also seen back, and a causal one records
    /// its source as a predecessor of its target.
    pub open spec fn with_edge(self, e: Edge) -> GraphView {
        let g = self.without_edge(edge_key(e.from, e.to));
        let adj1 = add_member(g.adj, e.from, e.to);
        GraphView {
            adj: if e.kind == EdgeKind::Semantic { add_member(adj1, e.to, e.from) } else { adj1 },
            preds: if e.kind == EdgeKind::Causal {
                add_member(g.preds, e.to, e.from)
            } else {
                g.preds
            },
            edges: self.edges.insert(edge_key(e.from, e.to), e),
        }
    }

    /// The graph after removing the edge stored under `key`, with the
    /// adjacency and predecessor entries that the edge made; unchanged when
    /// there is no such edge.
    pub open spec fn without_edge(self, key: u64) -> GraphView {
        if self.edges.contains_key(key) {
            let e = self.edges[key];
            let adj1 = drop_member(self.adj, e.from, e.to);
            GraphView {
                adj: if e.kind == EdgeKind::Semantic { drop_member(adj1, e.to, e.from) } else { adj1 },
                preds: if e.kind == EdgeKind::Causal {
                    drop_member(self.preds, e.to, e.from)
                } else {
                    self.preds
                },
                edges: self.edges.remove(key),
            }
        } else {
            self
        }
    }

    /// The keys of the edges that have `id` as an endpoint.
    pub open spec fn incident_keys(self, id: u32) -> Set<u64> {
        self.edges.dom().filter(|k: u64| self.edges[k].from == id || self.edges[k].to == id)
    }

    /// The nodes one forward step from any of `keystones`.
    pub open spec fn halo_of(self, keystones: Seq<u32>) -> Set<u32> {
        Set::new(
            |x: u32|
                exists|i: int| 0 <= i < keystones.len() && #[trigger] self.neighbors(keystones[i]).contains(x),
        )
    }

    /// Nodes within two forward steps of `id`, other than `id` itself.
    pub open spec fn two_hop(self, id: u32) -> Set<u32> {
        Set::new(
            |x: u32|
                x != id && (self.neighbors(id).contains(x) || exists|n: u32|
                    self.neighbors(id).contains(n) && #[trigger] self.neighbors(n).contains(x)),
        )
    }
}

/// Removes, one after another, the edges stored under `keys`.
pub open spec fn without_edges(g: GraphView, keys: Seq<u64>) -> GraphView
    decreases keys.len(),
{
    if keys.len() == 0 {
        g
    } else {
        without_edges(g, keys.drop_last()).without_edge(keys.last())
    }
}

/// Stores, one after another, the edges of `es`.
pub open spec fn with_edges(g: GraphView, es: Seq<Edge>) -> GraphView
    decreases es.len(),
{
    if es.len() == 0 {
        g
    } else {
        with_edges(g, es.drop_last()).with_edge(es.last())
    }
}


/// A graph with no nodes and no edges.
pub open spec fn empty_graph() -> GraphView {
    GraphView {
        adj: Map::<u32, Set<u32>>::empty(),
        preds: Map::<u32, Set<u32>>::empty(),
        edges: Map::<u64, Edge>::empty(),
    }
}

/// A stored edge is found from either endpoint, and it replaces whatever
/// edge the pair had.
pub proof fn stored_edge_found_both_ways(g: GraphView, e: Edge)
    ensures
        g.with_edge(e).edge_between(e.from, e.to) == Some(e),
        g.with_edge(e).edge_between(e.to, e.from) == Some(e),
{
    edge_key_identifies_pair(e.from, e.to, e.to, e.from);
}

/// A semantic edge makes each endpoint a neighbour of the other and records
/// no predecessor: the predecessors are those left once any edge the pair
/// had is removed.
pub proof fn semantic_edge_is_mutual(g: GraphView, e: Edge)
    requires
        e.kind == EdgeKind::Semantic,
    ensures
        g.with_edge(e).neighbors(e.from).contains(e.to),
        g.with_edge(e).neighbors(e.to).contains(e.from),
        g.with_edge(e).preds == g.without_edge(edge_key(e.from, e.to)).preds,
{
}

/// A causal edge is one-way: its source sees its target, it adds nothing to
/// its target's neighbours (they are those left once any edge the pair had
/// is removed), and the source becomes a predecessor of the target.
pub proof fn causal_edge_is_one_way(g: GraphView, e: Edge)
    requires
        e.kind == EdgeKind::Causal,
        e.from != e.to,
    ensures
        g.with_edge(e).neighbors(e.from).contains(e.to),
        g.with_edge(e).neighbors(e.to) == g.without_edge(edge_key(e.from, e.to)).neighbors(e.to),
        g.with_edge(e).predecessors(e.to).contains(e.from),
{
}

/// A causal edge that replaces a semantic one between the same two nodes
/// takes the link back away: where the target did not see the source
/// before the semantic edge, it does not see it after the causal one.
pub proof fn causal_overwrite_is_one_way(g: GraphView, s: Edge, c: Edge)
    requires
        g.well_formed(),
        s.kind == EdgeKind::Semantic,
        c.kind == EdgeKind::Causal,
        s.from == c.from,
        s.to == c.to,
        c.from != c.to,
        !g.neighbors(c.to).contains(c.from),
    ensures
        g.with_edge(s).with_edge(c).edge_between(c.from, c.to) == Some(c),
        g.with_edge(s).with_edge(c).neighbors(c.from).contains(c.to),
        !g.with_edge(s).with_edge(c).neighbors(c.to).contains(c.from),
        g.with_edge(s).with_edge(c).predecessors(c.to).contains(c.from),
{
    let h = g.with_edge(s);
    let key = edge_key(c.from, c.to);
    assert(h.edges.contains_key(key) && h.edges[key] == s);
    assert(!g.without_edge(key).neighbors(c.to).contains(c.from)) by {
        if g.edges.contains_key(key) {
            let o = g.edges[key];
            edge_key_identifies_pair(o.from, o.to, c.from, c.to);
        }
    }
    assert(h.neighbors(c.to) == g.without_edge(key).neighbors(c.to).insert(c.from));
    let w = h.without_edge(key);
    assert(!w.neighbors(c.to).contains(c.from));
    stored_edge_found_both_ways(h, c);
}

/// Disconnecting undoes connecting: in a well-formed graph where the two
/// endpoints had no edge and no adjacency or predecessor entry between them,
/// connecting and then disconnecting them gives the graph back.
pub proof fn disconnect_undoes_connect(g: GraphView, e: Edge)
    requires
        g.well_formed(),
        !g.edges.contains_key(edge_key(e.from, e.to)),
        !g.neighbors(e.from).contains(e.to),
        e.kind == EdgeKind::Semantic ==> !g.neighbors(e.to).contains(e.from),
        e.kind == EdgeKind::Causal ==> !g.predecessors(e.to).contains(e.from),
    ensures
        g.with_edge(e).without_edge(edge_key(e.from, e.to)) == g,
{
    let h = g.with_edge(e);
    let key = edge_key(e.from, e.to);
    assert(h.edges.contains_key(key));
    assert(h.edges[key] == e);
    let r = h.without_edge(key);
    assert(r.edges =~= g.edges);
    if e.kind == EdgeKind::Semantic {
        let a1 = add_member(g.adj, e.from, e.to);
        let a2 = add_member(a1, e.to, e.from);
        let d1 = drop_member(a2, e.from, e.to);
        let d2 = drop_member(d1, e.to, e.from);
        if e.from == e.to {
            assert(a1[e.from].insert(e.from) =~= a1[e.from]);
            assert(a2 =~= a1);
            if g.adj.contains_key(e.from) {
                assert(a1[e.from].remove(e.to) =~= g.adj[e.from]);
                assert(d1 =~= g.adj);
                assert(g.adj[e.from].remove(e.from) =~= g.adj[e.from]);
                assert(d2 =~= g.adj);
            } else {
                assert(a1[e.from].remove(e.to) =~= Set::<u32>::empty());
                assert(d1 =~= g.adj);
                assert(d2 =~= g.adj);
            }
        } else {
            if g.adj.contains_key(e.from) {
                assert(a2[e.from].remove(e.to) =~= g.adj[e.from]);
            } else {
                assert(a2[e.from].remove(e.to) =~= Set::<u32>::empty());
            }
            if g.adj.contains_key(e.to) {
                assert(d1[e.to].remove(e.from) =~= g.adj[e.to]);
            } else {
                assert(d1[e.to].remove(e.from) =~= Set::<u32>::empty());
            }
            assert(d2 =~= g.adj);
        }
        assert(r.adj == g.adj);
        assert(r.preds == g.preds);
    } else {
        let a1 = add_member(g.adj, e.from, e.to);
        let d1 = drop_member(a1, e.from, e.to);
        if g.adj.contains_key(e.from) {
            assert(a1[e.from].remove(e.to) =~= g.adj[e.from]);
        } else {
            assert(a1[e.from].remove(e.to) =~= Set::<u32>::empty());
        }
        assert(d1 =~= g.adj);
        let p1 = add_member(g.preds, e.to, e.from);
        let q1 = drop_member(p1, e.to, e.from);
        if g.preds.contains_key(e.to) {
            assert(p1[e.to].remove(e.from) =~= g.preds[e.to]);
        } else {
            assert(p1[e.to].remove(e.from) =~= Set::<u32>::empty());
        }
        assert(q1 =~= g.preds);
    }
}


/// The keys that the edges of `s` are stored under.
pub open spec fn keys_of_edges(s: Seq<Edge>) -> Set<u64> {
    Set::new(|k: u64| exists|i: int| 0 <= i < s.len() && edge_key(#[trigger] s[i].from, s[i].to) == k)
}

proof fn lemma_with_edges_edges(s: Seq<Edge>, m: Map<u64, Edge>)
    requires
        forall|i: int|
            0 <= i < s.len() ==> m.contains_key(edge_key(#[trigger] s[i].from, s[i].to)) && m[edge_key(
                s[i].from,
                s[i].to,
            )] == s[i],
    ensures
        with_edges(empty_graph(), s).edges == m.restrict(keys_of_edges(s)),
    decreases s.len(),
{
    if s.len() == 0 {
        assert(with_edges(empty_graph(), s).edges =~= m.restrict(keys_of_edges(s)));
    } else {
        let p = s.drop_last();
        assert forall|i: int| 0 <= i < p.len() implies m.contains_key(
            edge_key(#[trigger] p[i].from, p[i].to),
        ) && m[edge_key(p[i].from, p[i].to)] == p[i] by {
            assert(p[i] == s[i]);
        }
        lemma_with_edges_edges(p, m);
        let last = s.last();
        assert(s[s.len() - 1] == last);
        assert forall|k: u64| #[trigger] keys_of_edges(s).contains(k) <==> (keys_of_edges(p).contains(k)
            || k == edge_key(last.from, last.to)) by {
            if keys_of_edges(s).contains(k) {
                let i = choose|i: int| 0 <= i < s.len() && edge_key(#[trigger] s[i].from, s[i].to) == k;
                if i < s.len() - 1 {
                    assert(p[i] == s[i]);
                }
            }
            if keys_of_edges(p).contains(k) {
                let i = choose|i: int| 0 <= i < p.len() && edge_key(#[trigger] p[i].from, p[i].to) == k;
                assert(p[i] == s[i]);
            }
        }
        assert(with_edges(empty_graph(), s).edges =~= m.restrict(keys_of_edges(s)));
    }
}

/// Persistence round trip: loading a snapshot that holds exactly the edges
/// of a well-formed graph into an empty graph gives back the same edges.
pub proof fn reload_restores_edges(g: GraphView, s: Seq<Edge>)
    requires
        g.well_formed(),
        s.to_set() == g.edges.values(),
    ensures
        with_edges(empty_graph(), s).edges == g.edges,
{
    assert forall|i: int| 0 <= i < s.len() implies g.edges.contains_key(
        edge_key(#[trigger] s[i].from, s[i].to),
    ) && g.edges[edge_key(s[i].from, s[i].to)] == s[i] by {
        assert(s.to_set().contains(s[i]));
        let k = choose|k: u64| g.edges.contains_key(k) && g.edges[k] == s[i];
        assert(edge_key(s[i].from, s[i].to) == k);
    }
    lemma_with_edges_edges(s, g.edges);
    assert forall|k: u64| #[trigger] g.edges.contains_key(k) implies keys_of_edges(s).contains(k) by {
        assert(g.edges.values().contains(g.edges[k]));
        assert(s.to_set().contains(g.edges[k]));
        let i = choose|i: int| 0 <= i < s.len() && s[i] == g.edges[k];
        assert(edge_key(s[i].from, s[i].to) == k);
    }
    assert(g.edges.restrict(keys_of_edges(s)) =~= g.edges);
}

/// Storing an edge keeps every link between a pair of nodes other than its
/// own endpoints: neighbours and predecessors.
pub proof fn with_edge_keeps_other_links(g: GraphView, e: Edge, x: u32, y: u32)
    requires
        g.well_formed(),
        edge_key(x, y) != edge_key(e.from, e.to),
    ensures
        g.neighbors(x).contains(y) ==> g.with_edge(e).neighbors(x).contains(y),
        g.predecessors(x).contains(y) ==> g.with_edge(e).predecessors(x).contains(y),
{
    let key = edge_key(e.from, e.to);
    if g.edges.contains_key(key) {
        let o = g.edges[key];
        edge_key_identifies_pair(o.from, o.to, x, y);
        edge_key_identifies_pair(o.to, o.from, x, y);
        edge_key_identifies_pair(o.from, o.to, y, x);
    }
}

/// After loading edges, each loaded edge that no later edge of the load
/// replaces is traversable from its source, a semantic one also from its
/// target, and a causal one is recorded as a predecessor of its target.
pub proof fn loaded_edges_are_traversable(g: GraphView, s: Seq<Edge>, i: int)
    requires
        g.well_formed(),
        0 <= i < s.len(),
        forall|j: int| i < j < s.len() ==> edge_key(#[trigger] s[j].from, s[j].to) != edge_key(s[i].from, s[i].to),
    ensures
        with_edges(g, s).neighbors(s[i].from).contains(s[i].to),
        s[i].kind == EdgeKind::Semantic ==> with_edges(g, s).neighbors(s[i].to).contains(s[i].from),
        s[i].kind == EdgeKind::Causal ==> with_edges(g, s).predecessors(s[i].to).contains(s[i].from),
    decreases s.len(),
{
    let p = s.drop_last();
    let e = s.last();
    if i < s.len() - 1 {
        assert(p[i] == s[i]);
        assert forall|j: int| i < j < p.len() implies edge_key(#[trigger] p[j].from, p[j].to) != edge_key(
            p[i].from,
            p[i].to,
        ) by {
            assert(p[j] == s[j]);
        }
        loaded_edges_are_traversable(g, p, i);
        lemma_with_edges_wf(g, p);
        assert(s[s.len() - 1] == e);
        edge_key_identifies_pair(s[i].to, s[i].from, s[i].from, s[i].to);
        with_edge_keeps_other_links(with_edges(g, p), e, s[i].from, s[i].to);
        with_edge_keeps_other_links(with_edges(g, p), e, s[i].to, s[i].from);
    }
}

/// Removing edges one after another removes exactly their keys from the
/// edge table, whatever the order.
pub proof fn without_edges_removes_keys(g: GraphView, ks: Seq<u64>)
    ensures
        without_edges(g, ks).edges == g.edges.remove_keys(ks.to_set()),
    decreases ks.len(),
{
    if ks.len() == 0 {
        assert(g.edges.remove_keys(ks.to_set()) =~= g.edges);
    } else {
        let p = ks.drop_last();
        without_edges_removes_keys(g, p);
        p.lemma_push_to_set_commute(ks.last());
        assert(p.push(ks.last()) == ks);
        assert(without_edges(g, ks).edges =~= g.edges.remove_keys(ks.to_set()));
    }
}

/// Removing a node leaves no edge that touches it, keeps every other edge,
/// and leaves the node with no neighbour and no predecessor.
pub proof fn removed_node_is_isolated(g: GraphView, id: u32, ks: Seq<u64>)
    requires
        ks.to_set() == g.incident_keys(id),
    ensures
        ({
            let h = without_edges(g, ks);
            let r = GraphView { adj: h.adj.remove(id), preds: h.preds.remove(id), edges: h.edges };
            &&& r.edges == g.edges.remove_keys(g.incident_keys(id))
            &&& forall|k: u64| #[trigger] r.edges.contains_key(k) ==> r.edges[k].from != id && r.edges[k].to != id
            &&& r.neighbors(id) == Set::<u32>::empty()
            &&& r.predecessors(id) == Set::<u32>::empty()
        }),
{
    without_edges_removes_keys(g, ks);
}

/// Weight of the edge a consolidation survivor gets to each neighbour it
/// takes over: the bit pattern of `0.5f32`.
pub const CONSOLIDATED_WEIGHT: u32 = 0x3F00_0000;

/// Weight of the edge from a consolidation survivor to a memory it absorbed:
/// the bit pattern of `1.0f32`.
pub const ABSORBED_WEIGHT: u32 = 0x3F80_0000;

/// An edge that survivor `s` gets to a neighbour it takes over.
pub open spec fn is_transfer_edge(e: Edge, s: u32) -> bool {
    &&& e.from == s
    &&& e.kind == EdgeKind::Semantic
    &&& e.label@ == "consolidated"@
    &&& e.weight == CONSOLIDATED_WEIGHT
}

/// The graph after node `id` is removed as [`MemoryGraph::remove_node`] does
/// it, its edges taken away in the order `ks`.
pub open spec fn node_removed(g: GraphView, id: u32, ks: Seq<u64>) -> GraphView {
    GraphView {
        adj: without_edges(g, ks).adj.remove(id),
        preds: without_edges(g, ks).preds.remove(id),
        edges: without_edges(g, ks).edges,
    }
}

/// The targets of a sequence of edges.
pub open spec fn targets(es: Seq<Edge>) -> Seq<u32> {
    es.map_values(|e: Edge| e.to)
}

/// The pieces of an absorption: `es` are the transfer edges, `ks` the order
/// in which the absorbed memory's edges go, `c` the causal edge that then
/// leads from the survivor to it.
pub open spec fn absorb_parts(
    g: GraphView,
    s: u32,
    a: u32,
    h: GraphView,
    es: Seq<Edge>,
    ks: Seq<u64>,
    c: Edge,
) -> bool {
    &&& forall|i: int| 0 <= i < es.len() ==> is_transfer_edge(#[trigger] es[i], s)
    &&& targets(es).no_duplicates()
    &&& targets(es).to_set() == g.neighbors(a).remove(s)
    &&& ks.no_duplicates()
    &&& ks.to_set() == with_edges(g, es).incident_keys(a)
    &&& c.from == s
    &&& c.to == a
    &&& c.kind == EdgeKind::Causal
    &&& c.label@ == "absorbed"@
    &&& c.weight == ABSORBED_WEIGHT
    &&& h == node_removed(with_edges(g, es), a, ks).with_edge(c)
}

/// `h` is `g` after survivor `s` absorbs memory `a`: `s` gets a transfer
/// edge to each neighbour of `a` other than itself, `a` is removed with all
/// its edges, and then a causal "absorbed" edge leads from `s` to `a`.
pub open spec fn absorbs(g: GraphView, s: u32, a: u32, h: GraphView) -> bool {
    exists|es: Seq<Edge>, ks: Seq<u64>, c: Edge| #[trigger] absorb_parts(g, s, a, h, es, ks, c)
}

proof fn absorb_witness(g: GraphView, s: u32, a: u32, h: GraphView) -> (r: (Seq<Edge>, Seq<u64>, Edge))
    requires
        absorbs(g, s, a, h),
    ensures
        absorb_parts(g, s, a, h, r.0, r.1, r.2),
{
    choose|es: Seq<Edge>, ks: Seq<u64>, c: Edge| #[trigger] absorb_parts(g, s, a, h, es, ks, c)
}

proof fn lemma_with_edges_wf(g: GraphView, es: Seq<Edge>)
    requires
        g.well_formed(),
    ensures
        with_edges(g, es).well_formed(),
    decreases es.len(),
{
    if es.len() > 0 {
        lemma_with_edges_wf(g, es.drop_last());
        lemma_with_edge_wf(with_edges(g, es.drop_last()), es.last());
    }
}

proof fn lemma_without_edges_wf(g: GraphView, ks: Seq<u64>)
    requires
        g.well_formed(),
    ensures
        without_edges(g, ks).well_formed(),
    decreases ks.len(),
{
    if ks.len() > 0 {
        lemma_without_edges_wf(g, ks.drop_last());
        lemma_without_edge_wf(without_edges(g, ks.drop_last()), ks.last());
    }
}

proof fn lemma_absorb_wf(g: GraphView, s: u32, a: u32, h: GraphView)
    requires
        g.well_formed(),
        absorbs(g, s, a, h),
    ensures
        h.well_formed(),
{
    let (es, ks, c) = absorb_witness(g, s, a, h);
    lemma_with_edges_wf(g, es);
    lemma_without_edges_wf(with_edges(g, es), ks);
    let g2 = node_removed(with_edges(g, es), a, ks);
    assert(g2.well_formed());
    lemma_with_edge_wf(g2, c);
}

/// A strictly increasing sequence of `u32` has at most `2^32` elements.
proof fn lemma_increasing_u32_len(v: Seq<u32>)
    requires
        forall|i: int, j: int| 0 <= i < j < v.len() ==> v[i] < v[j],
    ensures
        v.len() <= 0x1_0000_0000,
{
    if v.len() > 0x1_0000_0000 {
        assert forall|i: int| 0 <= i < v.len() implies #[trigger] v[i] >= i by {
            lemma_increasing_from(v, i);
        }
        assert(v[0x1_0000_0000] >= 0x1_0000_0000);
    }
}

proof fn lemma_increasing_from(v: Seq<u32>, i: int)
    requires
        forall|p: int, q: int| 0 <= p < q < v.len() ==> v[p] < v[q],
        0 <= i < v.len(),
    ensures
        v[i] >= i,
    decreases i,
{
    if i > 0 {
        lemma_increasing_from(v, i - 1);
        assert(v[i - 1] < v[i]);
    }
}

/// `g` holds a transfer edge from `s` to `n`, seen from both ends.
pub open spec fn has_transfer(g: GraphView, s: u32, n: u32) -> bool {
    &&& g.edge_between(s, n) matches Some(e) && is_transfer_edge(e, s) && e.to == n
    &&& g.neighbors(s).contains(n)
    &&& g.neighbors(n).contains(s)
}

/// Storing edges none of which joins `x` and `y` keeps `y` a neighbour of `x`.
proof fn lemma_with_edges_keeps_link(g: GraphView, es: Seq<Edge>, x: u32, y: u32)
    requires
        g.well_formed(),
        forall|i: int| 0 <= i < es.len() ==> edge_key(#[trigger] es[i].from, es[i].to) != edge_key(x, y),
        g.neighbors(x).contains(y),
    ensures
        with_edges(g, es).neighbors(x).contains(y),
    decreases es.len(),
{
    if es.len() > 0 {
        let p = es.drop_last();
        assert forall|i: int| 0 <= i < p.len() implies edge_key(#[trigger] p[i].from, p[i].to) != edge_key(x, y) by {
            assert(p[i] == es[i]);
        }
        lemma_with_edges_keeps_link(g, p, x, y);
        lemma_with_edges_wf(g, p);
        assert(es[es.len() - 1] == es.last());
        with_edge_keeps_other_links(with_edges(g, p), es.last(), x, y);
    }
}

/// Storing transfer edges of `s` keeps a transfer edge to `n`, and makes one
/// where an edge to `n` is among them.
proof fn lemma_with_edges_transfer(g: GraphView, es: Seq<Edge>, s: u32, n: u32)
    requires
        g.well_formed(),
        forall|i: int| 0 <= i < es.len() ==> is_transfer_edge(#[trigger] es[i], s),
        n != s,
        has_transfer(g, s, n) || targets(es).contains(n),
    ensures
        has_transfer(with_edges(g, es), s, n),
    decreases es.len(),
{
    if es.len() > 0 {
        let p = es.drop_last();
        let e = es.last();
        let w = with_edges(g, p);
        assert(is_transfer_edge(es[es.len() - 1], s));
        if e.to == n {
            edge_key_identifies_pair(s, n, s, n);
        } else {
            if !has_transfer(g, s, n) {
                let j = choose|j: int| 0 <= j < targets(es).len() && targets(es)[j] == n;
                assert(es[j].to == n);
                assert(j < p.len());
                assert(targets(p)[j] == n);
            }
            assert forall|i: int| 0 <= i < p.len() implies is_transfer_edge(#[trigger] p[i], s) by {
                assert(p[i] == es[i]);
            }
            lemma_with_edges_transfer(g, p, s, n);
            lemma_with_edges_wf(g, p);
            edge_key_identifies_pair(s, e.to, s, n);
            edge_key_identifies_pair(n, s, s, n);
            with_edge_keeps_other_links(w, e, s, n);
            with_edge_keeps_other_links(w, e, n, s);
        }
    }
}

/// Removing, one after another, edges that all touch `id` keeps every
/// adjacency between two other nodes.
proof fn lemma_without_edges_keeps_adjacency(g: GraphView, id: u32, ks: Seq<u64>, x: u32, y: u32)
    requires
        ks.no_duplicates(),
        forall|k: u64| #[trigger] ks.contains(k) && g.edges.contains_key(k) ==> g.edges[k].from == id || g.edges[k].to == id,
        x != id,
        y != id,
        g.neighbors(x).contains(y),
    ensures
        without_edges(g, ks).neighbors(x).contains(y),
    decreases ks.len(),
{
    if ks.len() > 0 {
        let p = ks.drop_last();
        let k = ks.last();
        assert forall|q: u64| #[trigger] p.contains(q) && g.edges.contains_key(q) implies g.edges[q].from == id
            || g.edges[q].to == id by {
            let i = choose|i: int| 0 <= i < p.len() && p[i] == q;
            assert(ks[i] == q);
            assert(ks.contains(q));
        }
        assert(p.no_duplicates());
        lemma_without_edges_keeps_adjacency(g, id, p, x, y);
        let w = without_edges(g, p);
        without_edges_removes_keys(g, p);
        if w.edges.contains_key(k) {
            assert(!p.contains(k));
            assert(ks.contains(k));
            assert(w.edges[k] == g.edges[k]);
        }
    }
}

/// One absorption keeps a transfer edge from the survivor to `n`, and makes
/// one where `n` was a neighbour of the absorbed memory.
proof fn lemma_absorb_transfers(g: GraphView, s: u32, a: u32, h: GraphView, n: u32)
    requires
        g.well_formed(),
        absorbs(g, s, a, h),
        a != s,
        a != n,
        n != s,
        has_transfer(g, s, n) || g.neighbors(a).contains(n),
    ensures
        has_transfer(h, s, n),
{
    let (es, ks, c) = absorb_witness(g, s, a, h);
    if !has_transfer(g, s, n) {
        assert(g.neighbors(a).remove(s).contains(n));
        assert(targets(es).to_set().contains(n));
    }
    let g1 = with_edges(g, es);
    lemma_with_edges_transfer(g, es, s, n);
    lemma_with_edges_wf(g, es);
    let key = edge_key(s, n);
    assert(!g1.incident_keys(a).contains(key));
    assert forall|k: u64| #[trigger] ks.contains(k) && g1.edges.contains_key(k) implies g1.edges[k].from == a
        || g1.edges[k].to == a by {
        assert(ks.to_set().contains(k));
    }
    lemma_without_edges_keeps_adjacency(g1, a, ks, s, n);
    lemma_without_edges_keeps_adjacency(g1, a, ks, n, s);
    without_edges_removes_keys(g1, ks);
    lemma_without_edges_wf(g1, ks);
    assert(!ks.to_set().contains(key));
    let g2 = node_removed(g1, a, ks);
    assert(g2.well_formed());
    assert(g2.edges.contains_key(key));
    assert(g2.neighbors(s).contains(n));
    assert(g2.neighbors(n).contains(s));
    edge_key_identifies_pair(s, a, s, n);
    edge_key_identifies_pair(n, s, s, n);
    with_edge_keeps_other_links(g2, c, s, n);
    with_edge_keeps_other_links(g2, c, n, s);
}

/// One absorption keeps an adjacency between two nodes other than the
/// survivor and the absorbed memory.
proof fn lemma_absorb_keeps_adjacency(g: GraphView, s: u32, b: u32, h: GraphView, x: u32, y: u32)
    requires
        g.well_formed(),
        absorbs(g, s, b, h),
        x != b,
        y != b,
        x != s,
        y != s,
        g.neighbors(x).contains(y),
    ensures
        h.neighbors(x).contains(y),
{
    let (es, ks, c) = absorb_witness(g, s, b, h);
    let g1 = with_edges(g, es);
    assert forall|i: int| 0 <= i < es.len() implies edge_key(#[trigger] es[i].from, es[i].to) != edge_key(x, y) by {
        assert(is_transfer_edge(es[i], s));
        edge_key_identifies_pair(es[i].from, es[i].to, x, y);
    }
    lemma_with_edges_keeps_link(g, es, x, y);
    lemma_with_edges_wf(g, es);
    assert forall|k: u64| #[trigger] ks.contains(k) && g1.edges.contains_key(k) implies g1.edges[k].from == b
        || g1.edges[k].to == b by {
        assert(ks.to_set().contains(k));
    }
    lemma_without_edges_keeps_adjacency(g1, b, ks, x, y);
    lemma_without_edges_wf(g1, ks);
    let g2 = node_removed(g1, b, ks);
    assert(g2.well_formed());
    edge_key_identifies_pair(s, b, x, y);
    with_edge_keeps_other_links(g2, c, x, y);
}

/// Each graph of a run of absorptions from a well-formed graph is well formed.
proof fn lemma_absorptions_wf(gs: Seq<GraphView>, s: u32, absorbed: Seq<u32>, j: int)
    requires
        gs.len() == absorbed.len() + 1,
        forall|i: int| 0 <= i < absorbed.len() ==> absorbs(gs[i], s, #[trigger] absorbed[i], gs[i + 1]),
        gs[0].well_formed(),
        0 <= j < gs.len(),
    ensures
        gs[j].well_formed(),
    decreases j,
{
    if j > 0 {
        lemma_absorptions_wf(gs, s, absorbed, j - 1);
        assert(absorbs(gs[j - 1], s, absorbed[j - 1], gs[j]));
        lemma_absorb_wf(gs[j - 1], s, absorbed[j - 1], gs[j]);
    }
}

proof fn lemma_neighbor_survives(gs: Seq<GraphView>, s: u32, absorbed: Seq<u32>, k: int, n: u32, j: int)
    requires
        gs.len() == absorbed.len() + 1,
        forall|i: int| 0 <= i < absorbed.len() ==> absorbs(gs[i], s, #[trigger] absorbed[i], gs[i + 1]),
        gs[0].well_formed(),
        absorbed.no_duplicates(),
        !absorbed.contains(s),
        0 <= j <= k < absorbed.len(),
        gs[0].neighbors(absorbed[k]).contains(n),
        n != s,
        !absorbed.contains(n),
    ensures
        gs[j].neighbors(absorbed[k]).contains(n),
    decreases j,
{
    if j > 0 {
        lemma_neighbor_survives(gs, s, absorbed, k, n, j - 1);
        assert(absorbs(gs[j - 1], s, absorbed[j - 1], gs[j]));
        assert(absorbed[j - 1] != absorbed[k]);
        assert(absorbed[j - 1] != n);
        assert(absorbed[k] != s);
        lemma_absorptions_wf(gs, s, absorbed, j - 1);
        lemma_absorb_keeps_adjacency(gs[j - 1], s, absorbed[j - 1], gs[j], absorbed[k], n);
    }
}

proof fn lemma_transfer_survives(gs: Seq<GraphView>, s: u32, absorbed: Seq<u32>, k: int, n: u32, j: int)
    requires
        gs.len() == absorbed.len() + 1,
        forall|i: int| 0 <= i < absorbed.len() ==> absorbs(gs[i], s, #[trigger] absorbed[i], gs[i + 1]),
        gs[0].well_formed(),
        absorbed.no_duplicates(),
        !absorbed.contains(s),
        0 <= k < j <= absorbed.len(),
        gs[0].neighbors(absorbed[k]).contains(n),
        n != s,
        !absorbed.contains(n),
    ensures
        has_transfer(gs[j], s, n),
    decreases j,
{
    assert(absorbs(gs[j - 1], s, absorbed[j - 1], gs[j]));
    assert(absorbed[j - 1] != s);
    assert(absorbed[j - 1] != n);
    if j - 1 == k {
        lemma_neighbor_survives(gs, s, absorbed, k, n, k);
    } else {
        lemma_transfer_survives(gs, s, absorbed, k, n, j - 1);
    }
    lemma_absorptions_wf(gs, s, absorbed, j - 1);
    lemma_absorb_transfers(gs[j - 1], s, absorbed[j - 1], gs[j], n);
}

/// Graph follows memory: when a survivor absorbs a group of other memories
/// one after another, every neighbour that an absorbed memory had beforehand,
/// other than the survivor and the absorbed memories themselves, ends up
/// joined to the survivor by a "consolidated" semantic edge, seen from both
/// ends.
pub proof fn consolidation_transfers_edges(gs: Seq<GraphView>, s: u32, absorbed: Seq<u32>, k: int, n: u32)
    requires
        gs.len() == absorbed.len() + 1,
        forall|i: int| 0 <= i < absorbed.len() ==> absorbs(gs[i], s, #[trigger] absorbed[i], gs[i + 1]),
        gs[0].well_formed(),
        absorbed.no_duplicates(),
        !absorbed.contains(s),
        0 <= k < absorbed.len(),
        gs[0].neighbors(absorbed[k]).contains(n),
        n != s,
        !absorbed.contains(n),
    ensures
        gs.last().edge_between(s, n) matches Some(e) && is_transfer_edge(e, s) && e.to == n,
        gs.last().neighbors(s).contains(n),
        gs.last().neighbors(n).contains(s),
{
    lemma_transfer_survives(gs, s, absorbed, k, n, absorbed.len() as int);
}

/// After a survivor absorbs a memory, a causal "absorbed" edge leads from
/// the survivor to it, and the absorbed memory sees no neighbour.
pub proof fn absorbed_memory_hangs_from_survivor(g: GraphView, s: u32, a: u32, h: GraphView)
    requires
        g.well_formed(),
        absorbs(g, s, a, h),
        a != s,
    ensures
        h.edge_between(s, a) matches Some(e) && e.from == s && e.to == a && e.kind == EdgeKind::Causal
            && e.label@ == "absorbed"@,
        h.neighbors(a) == Set::<u32>::empty(),
        h.predecessors(a).contains(s),
{
    let (es, ks, c) = absorb_witness(g, s, a, h);
    let g1 = with_edges(g, es);
    lemma_with_edges_wf(g, es);
    without_edges_removes_keys(g1, ks);
    let g2 = node_removed(g1, a, ks);
    let key = edge_key(s, a);
    if g1.edges.contains_key(key) {
        let o = g1.edges[key];
        edge_key_identifies_pair(o.from, o.to, s, a);
        assert(g1.incident_keys(a).contains(key));
        assert(ks.to_set().contains(key));
    }
    assert(!g2.edges.contains_key(key));
    assert(g2.without_edge(key) == g2);
    stored_edge_found_both_ways(g2, c);
    causal_edge_is_one_way(g2, c);
}

/// A memory graph with semantic (bidirectional) and causal (directed) edges.
pub struct MemoryGraph {
    adjacency: HashMap<u32, RoaringBitmap>,
    causal_predecessors: HashMap<u32, RoaringBitmap>,
    edges: HashMap<u64, Edge>,
}

impl View for MemoryGraph {
    type V = GraphView;

    closed spec fn view(&self) -> GraphView {
        GraphView {
            adj: members_map(self.adjacency@),
            preds: members_map(self.causal_predecessors@),
            edges: self.edges@,
        }
    }
}

/// The ids held by each bitmap of `m`.
pub open spec fn members_map(m: Map<u32, RoaringBitmap>) -> Map<u32, Set<u32>> {
    m.map_values(|b: RoaringBitmap| bitmap_members(b))
}

/// Storing an edge keeps a graph well formed.
proof fn lemma_with_edge_wf(g: GraphView, e: Edge)
    requires
        g.well_formed(),
    ensures
        g.with_edge(e).well_formed(),
{
    let w = g.without_edge(edge_key(e.from, e.to));
    lemma_without_edge_wf(g, edge_key(e.from, e.to));
    let h = g.with_edge(e);
    assert forall|k: u32| #[trigger] h.adj.contains_key(k) implies h.adj[k] != Set::<u32>::empty() by {
        if k == e.from {
            assert(add_member(w.adj, e.from, e.to)[k].contains(e.to));
        }
        if e.kind == EdgeKind::Semantic && k == e.to {
            assert(h.adj[k].contains(e.from));
        } else if k == e.from {
            assert(h.adj[k].contains(e.to));
        }
    }
    assert forall|k: u32| #[trigger] h.preds.contains_key(k) implies h.preds[k] != Set::<u32>::empty() by {
        if e.kind == EdgeKind::Causal && k == e.to {
            assert(h.preds[k].contains(e.from));
        }
    }
}

/// Removing an edge keeps a graph well formed.
proof fn lemma_without_edge_wf(g: GraphView, key: u64)
    requires
        g.well_formed(),
    ensures
        g.without_edge(key).well_formed(),
{
}

/// Adds `v` to the bitmap at `k` of `m`.
fn add_to(m: &mut HashMap<u32, RoaringBitmap>, k: u32, v: u32)
    ensures
        members_map(final(m)@) == add_member(
            members_map(old(m)@),
            k,
            v,
        ),
{
    let mut bm = match m.remove(&k) {
        Some(b) => b,
        None => bm_new(),
    };
    bm_insert(&mut bm, v);
    m.insert(k, bm);
    proof {
        assert(members_map(final(m)@) =~= add_member(
            members_map(old(m)@),
            k,
            v,
        ));
    }
}

/// Removes `v` from the bitmap at `k` of `m`, dropping the entry once empty.
fn take_from(m: &mut HashMap<u32, RoaringBitmap>, k: u32, v: u32)
    ensures
        members_map(final(m)@) == drop_member(
            members_map(old(m)@),
            k,
            v,
        ),
{
    if let Some(mut bm) = m.remove(&k) {
        bm_remove(&mut bm, v);
        if !bm_is_empty(&bm) {
            m.insert(k, bm);
        }
    }
    proof {
        assert(members_map(final(m)@) =~= drop_member(
            members_map(old(m)@),
            k,
            v,
        ));
    }
}

impl MemoryGraph {
    /// The well-formedness that every operation keeps.
    pub closed spec fn wf(&self) -> bool {
        self@.well_formed()
    }

    /// An empty graph.
    pub fn new() -> (g: Self)
        ensures
            g.wf(),
            g@.adj == Map::<u32, Set<u32>>::empty(),
            g@.preds == Map::<u32, Set<u32>>::empty(),
            g@.edges == Map::<u64, Edge>::empty(),
    {
        let g = MemoryGraph {
            adjacency: HashMap::new(),
            causal_predecessors: HashMap::new(),
            edges: HashMap::new(),
        };
        proof {
            assert(g@.adj =~= Map::<u32, Set<u32>>::empty());
            assert(g@.preds =~= Map::<u32, Set<u32>>::empty());
        }
        g
    }

    /// Connects two memories with a labelled, weighted edge, replacing any
    /// edge between the same two memories.  A semantic edge is seen from both
    /// endpoints; a causal one only from `from`.
    pub fn connect(&mut self, from: u32, to: u32, label: String, weight: u32, kind: EdgeKind)
        requires
            old(self).wf(),
        ensures
            final(self).wf(),
            final(self)@ == old(self)@.with_edge(
                Edge { from, to, label, weight, kind },
            ),
    {
        let ghost e = Edge { from, to, label, weight, kind };
        let key = pair_key(from, to);
        self.disconnect_key(key);
        add_to(&mut self.adjacency, from, to);
        match kind {
            EdgeKind::Semantic => {
                add_to(&mut self.adjacency, to, from);
            },
            EdgeKind::Causal => {
                add_to(&mut self.causal_predecessors, to, from);
            },
        }
        self.edges.insert(key, Edge { from, to, label, weight, kind });
        proof {
            assert(self@.edges =~= old(self)@.edges.insert(edge_key(from, to), e));
            assert(self@ == old(self)@.with_edge(e));
            lemma_with_edge_wf(old(self)@, e);
        }
    }

    fn disconnect_key(&mut self, key: u64)
        requires
            old(self).wf(),
        ensures
            final(self).wf(),
            final(self)@ == old(self)@.without_edge(key),
    {
        let removed = self.edges.remove(&key);
        match removed {
            Some(edge) => {
                proof {
                    assert(old(self)@.edges.contains_key(key));
                    assert(old(self)@.edges[key] == edge);
                    assert(self@.edges == old(self)@.edges.remove(key));
                }
                take_from(&mut self.adjacency, edge.from, edge.to);
                match edge.kind {
                    EdgeKind::Semantic => {
                        take_from(&mut self.adjacency, edge.to, edge.from);
                    },
                    EdgeKind::Causal => {
                        take_from(&mut self.causal_predecessors, edge.to, edge.from);
                    },
                }
            },
            None => {
                proof {
                    assert(!old(self)@.edges.contains_key(key));
                    assert(self@.edges == old(self)@.edges);
                }
            },
        }
        proof {
            assert(self@ == old(self)@.without_edge(key));
            lemma_without_edge_wf(old(self)@, key);
        }
    }

    /// Removes the edge between two memories, with what it added to the
    /// adjacency and predecessor sets; nothing happens where there is none.
    pub fn disconnect(&mut self, a: u32, b: u32)
        requires
            old(self).wf(),
        ensures
            final(self).wf(),
            final(self)@ == old(self)@.without_edge(edge_key(a, b)),
    {
        let key = pair_key(a, b);
        self.disconnect_key(key);
    }

    /// The nodes reachable in one step from `id`: both ends of its semantic
    /// edges, and the targets of the causal edges it starts.
    pub fn neighbors(&self, id: u32) -> (r: RoaringBitmap)
        ensures
            bitmap_members(r) == self@.neighbors(id),
    {
        match self.adjacency.get(&id) {
            Some(b) => bm_clone(b),
            None => bm_new(),
        }
    }

    /// The sources of the causal edges pointing to `id`.  They are not among
    /// its neighbours.
    pub fn predecessors(&self, id: u32) -> (r: RoaringBitmap)
        ensures
            bitmap_members(r) == self@.predecessors(id),
    {
        match self.causal_predecessors.get(&id) {
            Some(b) => bm_clone(b),
            None => bm_new(),
        }
    }

    /// The edge between two nodes, in either order.
    pub fn edge(&self, a: u32, b: u32) -> (r: Option<&Edge>)
        ensures
            match r {
                Some(e) => self@.edge_between(a, b) == Some(*e),
                None => self@.edge_between(a, b) is None,
            },
    {
        self.edges.get(&pair_key(a, b))
    }

    /// Degree centrality: the number of forward connections.
    pub fn degree(&self, id: u32) -> (r: u64)
        ensures
            r == self@.neighbors(id).len(),
    {
        match self.adjacency.get(&id) {
            Some(b) => bm_len(b),
            None => 0,
        }
    }


    /// Removes a node: every edge that has it as an endpoint goes, as by
    /// [`MemoryGraph::disconnect`], in the order in which the edge table
    /// yields them, and then whatever adjacency or predecessor entry the node
    /// still has.
    pub fn remove_node(&mut self, id: u32)
        requires
            old(self).wf(),
        ensures
            final(self).wf(),
            exists|ks: Seq<u64>|
                {
                    &&& ks.to_set() == old(self)@.incident_keys(id)
                    &&& ks.no_duplicates()
                    &&& final(self)@ == (GraphView {
                        adj: without_edges(old(self)@, ks).adj.remove(id),
                        preds: without_edges(old(self)@, ks).preds.remove(id),
                        edges: without_edges(old(self)@, ks).edges,
                    })
                },
    {
        let keys = keys_of(&self.edges);
        let ghost g0 = self@;
        let mut to_remove: Vec<u64> = Vec::new();
        let mut i: usize = 0;
        while i < keys.len()
            invariant
                self@ == g0,
                g0 == old(self)@,
                keys@.to_set() == g0.edges.dom(),
                keys@.no_duplicates(),
                i <= keys.len(),
                to_remove@.no_duplicates(),
                to_remove@.to_set() == keys@.take(i as int).to_set().filter(
                    |k: u64| g0.edges[k].from == id || g0.edges[k].to == id,
                ),
            decreases keys.len() - i,
        {
            let k = keys[i];
            proof {
                assert(keys@.take(i + 1) == keys@.take(i as int).push(k));
                keys@.take(i as int).lemma_push_to_set_commute(k);
                assert(!keys@.take(i as int).contains(k));
            }
            assert(keys@.to_set().contains(k));
            let ghost before = to_remove@;
            proof {
                before.lemma_push_to_set_commute(k);
                assert(!before.to_set().contains(k));
                assert(!before.contains(k));
            }
            match self.edges.get(&k) {
                Some(e) => {
                    if e.from == id || e.to == id {
                        to_remove.push(k);
                        proof {
                            assert(to_remove@ == before.push(k));
                            assert forall|a: int, b: int|
                                0 <= a < to_remove@.len() && 0 <= b < to_remove@.len() && a != b
                                implies to_remove@[a] != to_remove@[b] by {
                                if a == before.len() as int {
                                    assert(before.contains(to_remove@[b]));
                                } else if b == before.len() as int {
                                    assert(before.contains(to_remove@[a]));
                                }
                            }
                        }
                    }
                },
                None => {},
            }
            proof {
                assert(to_remove@.to_set() =~= keys@.take(i + 1).to_set().filter(
                    |k: u64| g0.edges[k].from == id || g0.edges[k].to == id,
                ));
            }
            i = i + 1;
        }
        proof {
            assert(keys@.take(keys@.len() as int) == keys@);
            assert(to_remove@.to_set() =~= g0.incident_keys(id));
        }
        let mut j: usize = 0;
        while j < to_remove.len()
            invariant
                g0 == old(self)@,
                self.wf(),
                j <= to_remove.len(),
                self@ == without_edges(g0, to_remove@.take(j as int)),
            decreases to_remove.len() - j,
        {
            let k = to_remove[j];
            self.disconnect_key(k);
            proof {
                assert(to_remove@.take(j + 1).drop_last() == to_remove@.take(j as int));
            }
            j = j + 1;
        }
        proof {
            assert(to_remove@.take(to_remove@.len() as int) == to_remove@);
        }
        let ghost g1 = self@;
        self.adjacency.remove(&id);
        self.causal_predecessors.remove(&id);
        proof {
            assert(self@.adj =~= g1.adj.remove(id));
            assert(self@.preds =~= g1.preds.remove(id));
            assert(self@.edges == g1.edges);
        }
    }


    /// A consolidation survivor takes over an absorbed memory: it gets a
    /// "consolidated" semantic edge to each neighbour of the absorbed memory
    /// other than itself, in increasing order of id; the absorbed memory is
    /// removed as by [`MemoryGraph::remove_node`]; and a causal "absorbed"
    /// edge then leads from the survivor to it.  Returns the number of edges
    /// created.
    pub fn absorb(&mut self, survivor: u32, absorbed: u32) -> (r: u64)
        requires
            old(self).wf(),
        ensures
            final(self).wf(),
            absorbs(old(self)@, survivor, absorbed, final(self)@),
            r == old(self)@.neighbors(absorbed).remove(survivor).len() + 1,
    {
        let ghost g0 = self@;
        let nb = self.neighbors(absorbed);
        let ids = bm_to_vec(&nb);
        proof {
            lemma_increasing_u32_len(ids@);
        }
        let ghost mut es: Seq<Edge> = Seq::empty();
        let mut count: u64 = 0;
        let mut i: usize = 0;
        proof {
            assert(targets(es).to_set() =~= ids@.take(0).to_set().remove(survivor));
        }
        while i < ids.len()
            invariant
                self.wf(),
                g0 == old(self)@,
                ids@.to_set() == g0.neighbors(absorbed),
                forall|p: int, q: int| 0 <= p < q < ids@.len() ==> ids@[p] < ids@[q],
                ids@.len() <= 0x1_0000_0000,
                i <= ids@.len(),
                self@ == with_edges(g0, es),
                count == es.len(),
                es.len() <= i,
                forall|j: int| 0 <= j < es.len() ==> is_transfer_edge(#[trigger] es[j], survivor),
                forall|p: int, q: int| 0 <= p < q < es.len() ==> es[p].to < es[q].to,
                targets(es).to_set() == ids@.take(i as int).to_set().remove(survivor),
            decreases ids.len() - i,
        {
            let n = ids[i];
            proof {
                assert(ids@.take(i + 1) == ids@.take(i as int).push(n));
                ids@.take(i as int).lemma_push_to_set_commute(n);
            }
            if n != survivor {
                let label = "consolidated".to_owned();
                let ghost e = Edge {
                    from: survivor,
                    to: n,
                    label: label,
                    weight: CONSOLIDATED_WEIGHT,
                    kind: EdgeKind::Semantic,
                };
                self.connect(survivor, n, label, CONSOLIDATED_WEIGHT, EdgeKind::Semantic);
                proof {
                    let before = es;
                    assert forall|p: int| 0 <= p < before.len() implies #[trigger] before[p].to < n by {
                        assert(targets(before).to_set().contains(targets(before)[p]));
                        assert(ids@.take(i as int).to_set().contains(before[p].to));
                        let q = choose|q: int| 0 <= q < i && ids@.take(i as int)[q] == before[p].to;
                        assert(ids@[q] < ids@[i as int]);
                    }
                    es = es.push(e);
                    assert(es.drop_last() == before);
                    assert(targets(es) =~= targets(before).push(n));
                    targets(before).lemma_push_to_set_commute(n);
                    assert(targets(es).to_set() =~= ids@.take(i + 1).to_set().remove(survivor));
                }
                count = count + 1;
            } else {
                proof {
                    assert(targets(es).to_set() =~= ids@.take(i + 1).to_set().remove(survivor));
                }
            }
            i = i + 1;
        }
        proof {
            assert(ids@.take(ids@.len() as int) == ids@);
            assert(targets(es).to_set() == g0.neighbors(absorbed).remove(survivor));
            assert forall|p: int, q: int| 0 <= p < targets(es).len() && 0 <= q < targets(es).len() && p != q
                implies #[trigger] targets(es)[p] != #[trigger] targets(es)[q] by {
                if p < q {
                    assert(es[p].to < es[q].to);
                } else {
                    assert(es[q].to < es[p].to);
                }
            }
            targets(es).unique_seq_to_set();
        }
        let ghost g1 = self@;
        self.remove_node(absorbed);
        let ghost ks = choose|ks: Seq<u64>|
            {
                &&& ks.to_set() == g1.incident_keys(absorbed)
                &&& ks.no_duplicates()
                &&& self@ == (GraphView {
                    adj: without_edges(g1, ks).adj.remove(absorbed),
                    preds: without_edges(g1, ks).preds.remove(absorbed),
                    edges: without_edges(g1, ks).edges,
                })
            };
        let label = "absorbed".to_owned();
        let ghost c = Edge {
            from: survivor,
            to: absorbed,
            label: label,
            weight: ABSORBED_WEIGHT,
            kind: EdgeKind::Causal,
        };
        self.connect(survivor, absorbed, label, ABSORBED_WEIGHT, EdgeKind::Causal);
        proof {
            assert(self@ == node_removed(with_edges(g0, es), absorbed, ks).with_edge(c));
            assert(absorb_parts(g0, survivor, absorbed, self@, es, ks, c));
        }
        count + 1
    }

    /// The number of nodes with at least one forward neighbour or causal
    /// predecessor.
    pub fn node_count(&self) -> (r: usize)
        requires
            self@.nodes().len() <= usize::MAX,
        ensures
            r == self@.nodes().len(),
    {
        let ghost adj = self@.adj.dom();
        let ghost preds = self@.preds.dom();
        let mut count = self.adjacency.len();
        let pk = keys_of(&self.causal_predecessors);
        proof {
            assert(adj =~= self.adjacency@.dom());
            assert(preds =~= self.causal_predecessors@.dom());
            assert(pk@.take(0).to_set() =~= Set::<u32>::empty());
            assert(pk@.take(0).to_set().filter(|k: u32| !adj.contains(k)) =~= Set::<u32>::empty());
        }
        let mut i: usize = 0;
        while i < pk.len()
            invariant
                adj == self@.adj.dom(),
                adj == self.adjacency@.dom(),
                preds == self@.preds.dom(),
                adj.finite(),
                preds.finite(),
                (adj + preds).len() <= usize::MAX,
                pk@.to_set() == preds,
                pk@.no_duplicates(),
                i <= pk.len(),
                count == adj.len() + pk@.take(i as int).to_set().filter(|k: u32| !adj.contains(k)).len(),
            decreases pk.len() - i,
        {
            let k = pk[i];
            let ghost before = pk@.take(i as int).to_set().filter(|k: u32| !adj.contains(k));
            proof {
                assert(pk@.take(i + 1) == pk@.take(i as int).push(k));
                pk@.take(i as int).lemma_push_to_set_commute(k);
                assert(!pk@.take(i as int).contains(k));
                assert(!before.contains(k));
                assert(pk@.contains(k));
            }
            if !self.adjacency.contains_key(&k) {
                proof {
                    let after = pk@.take(i + 1).to_set().filter(|k: u32| !adj.contains(k));
                    assert(after =~= before.insert(k));
                    assert(after.subset_of(preds));
                    assert(adj.disjoint(after));
                    vstd::set_lib::lemma_len_subset(adj + after, adj + preds);
                    vstd::set_lib::lemma_set_disjoint_lens(adj, after);
                }
                count = count + 1;
            } else {
                proof {
                    let after = pk@.take(i + 1).to_set().filter(|k: u32| !adj.contains(k));
                    assert(after =~= before);
                }
            }
            i = i + 1;
        }
        proof {
            assert(pk@.take(pk@.len() as int) == pk@);
            let extra = preds.filter(|k: u32| !adj.contains(k));
            assert(adj.disjoint(extra));
            vstd::set_lib::lemma_set_disjoint_lens(adj, extra);
            assert(adj + extra =~= self@.nodes());
        }
        count
    }

    /// The keystone halo: the nodes one forward step from a keystone that
    /// are among `eligible` (in a dream cycle, the active memories that are
    /// not keystones themselves).
    pub fn keystone_halo(&self, keystones: &[u32], eligible: &[u32]) -> (r: RoaringBitmap)
        ensures
            bitmap_members(r) == self@.halo_of(keystones@).intersect(eligible@.to_set()),
    {
        let mut acc = bm_new();
        let mut i: usize = 0;
        while i < keystones.len()
            invariant
                i <= keystones@.len(),
                bitmap_members(acc) == self@.halo_of(keystones@.take(i as int)),
            decreases keystones.len() - i,
        {
            let nb = self.neighbors(keystones[i]);
            bm_union_with(&mut acc, &nb);
            proof {
                let before = keystones@.take(i as int);
                let after = keystones@.take(i + 1);
                assert forall|x: u32| #[trigger] bitmap_members(acc).contains(x) <==> self@.halo_of(after).contains(x) by {
                    if self@.halo_of(after).contains(x) {
                        let j = choose|j: int| 0 <= j < after.len() && #[trigger] self@.neighbors(after[j]).contains(x);
                        if j < i {
                            assert(before[j] == after[j]);
                            assert(self@.halo_of(before).contains(x));
                        }
                    }
                    if self@.halo_of(before).contains(x) {
                        let j = choose|j: int| 0 <= j < before.len() && #[trigger] self@.neighbors(before[j]).contains(x);
                        assert(after[j] == before[j]);
                    }
                    if self@.neighbors(keystones@[i as int]).contains(x) {
                        assert(after[i as int] == keystones@[i as int]);
                    }
                }
                assert(bitmap_members(acc) =~= self@.halo_of(after));
            }
            i = i + 1;
        }
        proof {
            assert(keystones@.take(keystones@.len() as int) == keystones@);
        }
        let mut el = bm_new();
        let mut j: usize = 0;
        proof {
            assert(bitmap_members(el) =~= eligible@.take(0).to_set());
        }
        while j < eligible.len()
            invariant
                j <= eligible@.len(),
                bitmap_members(el) == eligible@.take(j as int).to_set(),
            decreases eligible.len() - j,
        {
            bm_insert(&mut el, eligible[j]);
            proof {
                assert(eligible@.take(j + 1) == eligible@.take(j as int).push(eligible@[j as int]));
                eligible@.take(j as int).lemma_push_to_set_commute(eligible@[j as int]);
            }
            j = j + 1;
        }
        proof {
            assert(eligible@.take(eligible@.len() as int) == eligible@);
        }
        bm_intersect_with(&mut acc, &el);
        acc
    }

    /// Nodes within two forward steps of `id`, `id` itself excluded.
    /// Traversal follows causal edges only forward.
    pub fn neighborhood_2(&self, id: u32) -> (r: RoaringBitmap)
        ensures
            bitmap_members(r) == self@.two_hop(id),
    {
        let direct = self.neighbors(id);
        let mut result = bm_clone(&direct);
        let ids = bm_to_vec(&direct);
        let ghost n1 = self@.neighbors(id);
        let mut i: usize = 0;
        while i < ids.len()
            invariant
                n1 == self@.neighbors(id),
                ids@.to_set() == n1,
                i <= ids.len(),
                bitmap_members(result) == n1.union(
                    Set::new(|x: u32| exists|j: int| 0 <= j < i && #[trigger] self@.neighbors(ids@[j]).contains(x)),
                ),
            decreases ids.len() - i,
        {
            let nb = self.neighbors(ids[i]);
            bm_union_with(&mut result, &nb);
            proof {
                assert(bitmap_members(result) =~= n1.union(
                    Set::new(|x: u32| exists|j: int| 0 <= j < i + 1 && #[trigger] self@.neighbors(ids@[j]).contains(x)),
                )) by {
                    assert forall|x: u32| #[trigger] bitmap_members(result).contains(x) implies n1.union(
                        Set::new(|x: u32| exists|j: int| 0 <= j < i + 1 && #[trigger] self@.neighbors(ids@[j]).contains(x)),
                    ).contains(x) by {
                        if self@.neighbors(ids@[i as int]).contains(x) {
                            assert(0 <= i < i + 1);
                        }
                    }
                }
            }
            i = i + 1;
        }
        bm_remove(&mut result, id);
        proof {
            assert forall|x: u32| #[trigger] bitmap_members(result).contains(x) <==> self@.two_hop(id).contains(x) by {
                if self@.two_hop(id).contains(x) && !n1.contains(x) {
                    let n = choose|n: u32| n1.contains(n) && #[trigger] self@.neighbors(n).contains(x);
                    assert(ids@.to_set().contains(n));
                    let j = ids@.index_of(n);
                    assert(self@.neighbors(ids@[j]).contains(x));
                }
                if bitmap_members(result).contains(x) && !n1.contains(x) {
                    let j = choose|j: int| 0 <= j < ids@.len() && #[trigger] self@.neighbors(ids@[j]).contains(x);
                    assert(ids@.contains(ids@[j]));
                    assert(n1.contains(ids@[j]));
                }
            }
            assert(bitmap_members(result) =~= self@.two_hop(id));
        }
        result
    }


    /// A snapshot of every edge, for persistence: each stored edge once, in
    /// the order in which the edge table yields them.
    pub fn all_edges(&self) -> (r: Vec<Edge>)
        ensures
            r@.to_set() == self@.edges.values(),
            r@.len() == self@.edges.len(),
    {
        let mut r: Vec<Edge> = Vec::new();
        for e in it: self.edges.values()
            invariant
                r@.len() == it.index(),
                forall|i: int| 0 <= i < it.index() ==> r@[i] == *it.seq()[i],
                it.seq().unref().to_set() == self.edges@.values(),
                it.seq().len() == self.edges@.dom().len(),
                it.index() == it.seq().len() ==> r@.to_set() == self@.edges.values() && r@.len()
                    == self@.edges.len(),
        {
            r.push(copy_edge(e));
            assert(it.index() + 1 == it.seq().len() ==> r@ =~= it.seq().unref());
        }
        r
    }

    /// Rebuilds from persisted edges: connects each in turn.
    pub fn load_edges(&mut self, edges: Vec<Edge>)
        requires
            old(self).wf(),
        ensures
            final(self).wf(),
            final(self)@ == with_edges(old(self)@, edges@),
    {
        let mut i: usize = 0;
        while i < edges.len()
            invariant
                self.wf(),
                i <= edges.len(),
                self@ == with_edges(old(self)@, edges@.take(i as int)),
            decreases edges.len() - i,
        {
            let e = &edges[i];
            self.connect(e.from, e.to, e.label.clone(), e.weight, e.kind);
            proof {
                assert(edges@.take(i + 1).drop_last() == edges@.take(i as int));
                assert(edges@.take(i + 1).last() == edges@[i as int]);
            }
            i = i + 1;
        }
        proof {
            assert(edges@.take(edges@.len() as int) == edges@);
        }
    }

    /// The number of edges.
    pub fn edge_count(&self) -> (r: usize)
        ensures
            r == self@.edges.len(),
    {
        self.edges.len()
    }
}

} // verus!
