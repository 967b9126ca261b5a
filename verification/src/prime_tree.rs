//! Hierarchical prime-partitioned term tree.
//!
//! Each term has a root node owning the ids of the memories that mention it.
//! When a leaf holds more ids than its prime, it splits into children keyed
//! by `id % child_prime`, the child prime being the prime of the next depth;
//! merging collapses a subtree back into its node.
use vstd::prelude::*;

use std::collections::HashMap;
use roaring::RoaringBitmap;

use crate::bitmap::{bitmap_members, bm_clone, bm_insert, bm_is_empty, bm_len, bm_new, bm_remove, bm_to_vec, bm_union_with};
use crate::text::{chars_of, decimal_chars, push_char, ends_with, push_decimal, seq_ends_with, seq_starts_with, starts_with, str_eq};

verus! {

broadcast use vstd::std_specs::hash::group_hash_axioms;

/// The primes used as partition thresholds, by depth (modulo 16).
pub open spec fn prime_at(depth: int) -> u64 {
    let p = seq![2u64, 3, 5, 7, 11, 13, 17, 19, 23, 29, 31, 37, 41, 43, 47, 53];
    p[depth % 16]
}

fn prime_for_depth(depth: u32) -> (r: u64)
    ensures
        r == prime_at(depth as int),
        r >= 2,
{
    let primes: [u64; 16] = [2, 3, 5, 7, 11, 13, 17, 19, 23, 29, 31, 37, 41, 43, 47, 53];
    proof {
        assert(primes@ =~= seq![2u64, 3, 5, 7, 11, 13, 17, 19, 23, 29, 31, 37, 41, 43, 47, 53]);
    }
    primes[(depth % 16) as usize]
}

/// A node of the tree: a partition of the memories of a term.
pub struct PrimeNode {
    pub id: u64,
    pub prime: u64,
    pub term: String,
    /// Memory ids that belong to this partition.
    pub members: RoaringBitmap,
    pub children: Vec<u64>,
    pub depth: u32,
}

/// The abstract state of a node.
pub struct NodeView {
    pub id: u64,
    pub prime: u64,
    pub term: Seq<char>,
    pub members: Set<u32>,
    pub children: Seq<u64>,
    pub depth: u32,
}

/// The abstract state of a node value.
pub open spec fn node_view(n: PrimeNode) -> NodeView {
    NodeView {
        id: n.id,
        prime: n.prime,
        term: n.term@,
        members: bitmap_members(n.members),
        children: n.children@,
        depth: n.depth,
    }
}

/// The abstract state of a table of nodes.
pub open spec fn nodes_view(m: Map<u64, PrimeNode>) -> Map<u64, NodeView> {
    m.map_values(|n: PrimeNode| node_view(n))
}

/// The abstract state of a tree.
pub struct TreeView {
    pub nodes: Map<u64, NodeView>,
    pub roots: Seq<u64>,
    pub next_id: u64,
}

/// The members of node `id` and of its descendants, following children
/// for at most `fuel` levels.
pub open spec fn subtree(nodes: Map<u64, NodeView>, id: u64, fuel: nat) -> Set<u32>
    decreases fuel, 1nat, 0nat,
{
    if !nodes.contains_key(id) {
        Set::empty()
    } else {
        nodes[id].members.union(children_union(nodes, nodes[id].children, fuel))
    }
}

/// The members under each of the nodes `cs`, one level less deep.
pub open spec fn children_union(nodes: Map<u64, NodeView>, cs: Seq<u64>, fuel: nat) -> Set<u32>
    decreases fuel, 0nat, cs.len(),
{
    if cs.len() == 0 || fuel == 0 {
        Set::empty()
    } else {
        children_union(nodes, cs.drop_last(), fuel).union(subtree(nodes, cs.last(), (fuel - 1) as nat))
    }
}

/// How many levels can lie below a node of this depth.
pub open spec fn depth_fuel(nodes: Map<u64, NodeView>, id: u64) -> nat {
    if nodes.contains_key(id) {
        (u32::MAX - nodes[id].depth) as nat
    } else {
        0
    }
}

/// All the members held under node `id`.
pub open spec fn members_under(nodes: Map<u64, NodeView>, id: u64) -> Set<u32> {
    subtree(nodes, id, depth_fuel(nodes, id))
}

/// The first root, in root order, whose node holds `term`.
pub open spec fn root_for(t: TreeView, term: Seq<char>) -> Option<u64> {
    first_root(t, term, 0)
}

/// The first root at or after position `i` whose node holds `term`.
pub open spec fn first_root(t: TreeView, term: Seq<char>, i: nat) -> Option<u64>
    decreases t.roots.len() - i,
{
    if i >= t.roots.len() {
        None
    } else if t.nodes.contains_key(t.roots[i as int]) && t.nodes[t.roots[i as int]].term == term {
        Some(t.roots[i as int])
    } else {
        first_root(t, term, i + 1)
    }
}

/// The ids below node `id`, depth first: each child, then the ids below it.
pub open spec fn descendants(nodes: Map<u64, NodeView>, id: u64, fuel: nat) -> Seq<u64>
    decreases fuel, 1nat, 0nat,
{
    if !nodes.contains_key(id) {
        Seq::empty()
    } else {
        children_descendants(nodes, nodes[id].children, fuel)
    }
}

/// Each of `cs` followed by the ids below it, one level less deep.
pub open spec fn children_descendants(nodes: Map<u64, NodeView>, cs: Seq<u64>, fuel: nat) -> Seq<u64>
    decreases fuel, 0nat, cs.len(),
{
    if cs.len() == 0 {
        Seq::empty()
    } else {
        children_descendants(nodes, cs.drop_last(), fuel).push(cs.last()) + if fuel > 0 {
            descendants(nodes, cs.last(), (fuel - 1) as nat)
        } else {
            Seq::empty()
        }
    }
}

/// The terms of the roots that exist, in root order.
pub open spec fn root_terms(t: TreeView, n: nat) -> Seq<Seq<char>>
    decreases n,
{
    if n == 0 || n > t.roots.len() {
        Seq::empty()
    } else if t.nodes.contains_key(t.roots[n - 1]) {
        root_terms(t, (n - 1) as nat).push(t.nodes[t.roots[n - 1]].term)
    } else {
        root_terms(t, (n - 1) as nat)
    }
}

/// The ids held by any node.
pub open spec fn all_members(nodes: Map<u64, NodeView>) -> Set<u32> {
    Set::new(|m: u32| exists|k: u64| nodes.contains_key(k) && #[trigger] nodes[k].members.contains(m))
}

/// The table after storing each node of `s` under its id, in order.
pub open spec fn with_nodes(m: Map<u64, NodeView>, s: Seq<NodeView>) -> Map<u64, NodeView>
    decreases s.len(),
{
    if s.len() == 0 {
        m
    } else {
        with_nodes(m, s.drop_last()).insert(s.last().id, s.last())
    }
}

/// The suffix that names the child for a bucket: `:` and the bucket number.
pub open spec fn bucket_suffix(bucket: nat) -> Seq<char> {
    seq![':'] + decimal_chars(bucket)
}

/// The first of `cs`, from position `i` on, that exists and whose term ends
/// with `suffix`.
pub open spec fn first_suffixed(nodes: Map<u64, NodeView>, cs: Seq<u64>, suffix: Seq<char>, i: nat) -> Option<u64>
    decreases cs.len() - i,
{
    if i >= cs.len() {
        None
    } else if nodes.contains_key(cs[i as int]) && seq_ends_with(nodes[cs[i as int]].term, suffix) {
        Some(cs[i as int])
    } else {
        first_suffixed(nodes, cs, suffix, i + 1)
    }
}

/// The node into which a memory id inserted at node `id` goes: a leaf
/// takes it; otherwise it goes down to the child whose term ends with
/// `:bucket` (the bucket being the id modulo the first child's prime, 2 if
/// that child is gone), or stays at `id` when there is no such child.
pub open spec fn route(nodes: Map<u64, NodeView>, id: u64, mid: u32, fuel: nat) -> u64
    decreases fuel,
{
    if !nodes.contains_key(id) || nodes[id].children.len() == 0 {
        id
    } else {
        let cs = nodes[id].children;
        let cp: u64 = if nodes.contains_key(cs[0]) { nodes[cs[0]].prime } else { 2 };
        match first_suffixed(nodes, cs, bucket_suffix(((mid as u64) % cp) as nat), 0) {
            Some(c) => if fuel > 0 {
                route(nodes, c, mid, (fuel - 1) as nat)
            } else {
                id
            },
            None => id,
        }
    }
}

/// The table with `mid` added to the members of node `id`, if it exists.
pub open spec fn with_member(nodes: Map<u64, NodeView>, id: u64, mid: u32) -> Map<u64, NodeView> {
    if nodes.contains_key(id) {
        nodes.insert(
            id,
            NodeView {
                id: nodes[id].id,
                prime: nodes[id].prime,
                term: nodes[id].term,
                members: nodes[id].members.insert(mid),
                children: nodes[id].children,
                depth: nodes[id].depth,
            },
        )
    } else {
        nodes
    }
}

proof fn lemma_first_suffixed(nodes: Map<u64, NodeView>, cs: Seq<u64>, suffix: Seq<char>, i: nat)
    ensures
        first_suffixed(nodes, cs, suffix, i) matches Some(c) ==> nodes.contains_key(c) && exists|k: int|
            i <= k < cs.len() && cs[k] == c,
    decreases cs.len() - i,
{
    if i < cs.len() {
        lemma_first_suffixed(nodes, cs, suffix, i + 1);
    }
}

/// Whether some member falls in bucket `b` modulo `cp`.
pub open spec fn bucket_used(ms: Set<u32>, cp: u64, b: u64) -> bool {
    exists|m: u32| ms.contains(m) && #[trigger] ((m as u64) % cp) == b
}

/// The used buckets below `n`, ascending.
pub open spec fn used_upto(ms: Set<u32>, cp: u64, n: nat) -> Seq<u64>
    decreases n,
{
    if n == 0 {
        Seq::empty()
    } else if bucket_used(ms, cp, (n - 1) as u64) {
        used_upto(ms, cp, (n - 1) as nat).push((n - 1) as u64)
    } else {
        used_upto(ms, cp, (n - 1) as nat)
    }
}

/// The child made for bucket `b` of node `n` under id `k`.
pub open spec fn bucket_child(n: NodeView, cp: u64, b: u64, k: u64) -> NodeView {
    NodeView {
        id: k,
        prime: cp,
        term: n.term + bucket_suffix(b as nat),
        members: n.members.filter(|m: u32| (m as u64) % cp == b),
        children: Seq::empty(),
        depth: (n.depth + 1) as u32,
    }
}

/// The table with a child for each of the buckets `bs` of node `n`, under
/// consecutive ids from `base`.
pub open spec fn with_bucket_children(
    nodes: Map<u64, NodeView>,
    n: NodeView,
    cp: u64,
    base: u64,
    bs: Seq<u64>,
) -> Map<u64, NodeView> {
    Map::new(
        |k: u64| nodes.contains_key(k) || (base <= k && k < base + bs.len()),
        |k: u64|
            if base <= k && k < base + bs.len() {
                bucket_child(n, cp, bs[k - base], k)
            } else {
                nodes[k]
            },
    )
}

/// Whether splitting node `id` does anything: it exists, is a leaf, holds
/// more than one member, and its members fall in more than one bucket of the
/// next depth's prime.
pub open spec fn splits(t: TreeView, id: u64) -> bool {
    &&& t.nodes.contains_key(id)
    &&& t.nodes[id].members.len() > 1
    &&& t.nodes[id].children.len() == 0
    &&& used_upto(
        t.nodes[id].members,
        prime_at(t.nodes[id].depth + 1),
        prime_at(t.nodes[id].depth + 1) as nat,
    ).len() > 1
}

/// The tree after splitting node `id`: a child per used bucket (in
/// ascending bucket order, with consecutive new ids), holding the members of
/// that bucket, and the node itself left with no members and those children.
pub open spec fn split_view(t: TreeView, id: u64) -> TreeView {
    if !splits(t, id) {
        t
    } else {
        let n = t.nodes[id];
        let cp = prime_at(n.depth + 1);
        let bs = used_upto(n.members, cp, cp as nat);
        let base = t.next_id;
        let kids = Seq::new(bs.len(), |j: int| (base + j) as u64);
        TreeView {
            nodes: with_bucket_children(t.nodes, n, cp, base, bs).insert(
                id,
                NodeView {
                    id: n.id,
                    prime: n.prime,
                    term: n.term,
                    members: Set::empty(),
                    children: kids,
                    depth: n.depth,
                },
            ),
            roots: t.roots,
            next_id: (base + bs.len()) as u64,
        }
    }
}

/// Changing only the members of nodes keeps a tree well formed.
proof fn lemma_wf_members_only(t: TreeView, u: TreeView)
    requires
        t.well_formed(),
        u.roots == t.roots,
        u.next_id == t.next_id,
        u.nodes.dom() == t.nodes.dom(),
        forall|k: u64|
            #[trigger] u.nodes.contains_key(k) ==> u.nodes[k].id == t.nodes[k].id && u.nodes[k].prime
                == t.nodes[k].prime && u.nodes[k].children == t.nodes[k].children && u.nodes[k].depth
                == t.nodes[k].depth,
    ensures
        u.well_formed(),
{
    assert forall|k: u64, j: int|
        #![trigger u.nodes[k].children[j]]
        u.nodes.contains_key(k) && 0 <= j < u.nodes[k].children.len() implies child_ok(
            u,
            k,
            u.nodes[k].children[j],
        ) by {
        assert(t.nodes.contains_key(k));
        assert(child_ok(t, k, t.nodes[k].children[j]));
        let c = u.nodes[k].children[j];
        if u.nodes.contains_key(c) {
            assert(t.nodes.contains_key(c));
        }
    }
    assert forall|i: int| #![trigger u.roots[i]] 0 <= i < u.roots.len() implies u.roots[i] < u.next_id && (
    u.nodes.contains_key(u.roots[i]) ==> u.nodes[u.roots[i]].depth == 0) by {
        assert(t.roots[i] == u.roots[i]);
        if u.nodes.contains_key(u.roots[i]) {
            assert(t.nodes.contains_key(t.roots[i]));
        }
    }
    assert forall|k: u64| #[trigger] u.nodes.contains_key(k) implies u.nodes[k].id == k && k < u.next_id
        && u.nodes[k].prime > 0 by {
        assert(t.nodes.contains_key(k));
    }
}

/// Whether the auto-split after an insertion applies to node `id`: a leaf
/// holding more members than its prime.
pub open spec fn overfull(t: TreeView, id: u64) -> bool {
    t.nodes.contains_key(id) && t.nodes[id].children.len() == 0 && t.nodes[id].members.len()
        > t.nodes[id].prime
}

/// The tree with a new root for `term` under the next id, at depth 0 with
/// prime 2, no members and no children.
pub open spec fn with_new_root(t: TreeView, term: Seq<char>) -> TreeView {
    TreeView {
        nodes: t.nodes.insert(
            t.next_id,
            NodeView {
                id: t.next_id,
                prime: 2,
                term: term,
                members: Set::empty(),
                children: Seq::empty(),
                depth: 0,
            },
        ),
        roots: t.roots.push(t.next_id),
        next_id: (t.next_id + 1) as u64,
    }
}

/// The root an insertion for `term` uses, and the tree once it exists.
pub open spec fn root_made(t: TreeView, term: Seq<char>) -> (TreeView, u64) {
    match root_for(t, term) {
        Some(id) => (t, id),
        None => (with_new_root(t, term), t.next_id),
    }
}

/// The tree after inserting memory `mid` under `term`: the term's root
/// (made if missing) routes the id down to its partition, and the root is
/// split if it is then an overfull leaf.
pub open spec fn insert_view(t: TreeView, term: Seq<char>, mid: u32) -> TreeView {
    let (t1, id) = root_made(t, term);
    let t2 = TreeView {
        nodes: with_member(t1.nodes, route(t1.nodes, id, mid, depth_fuel(t1.nodes, id)), mid),
        roots: t1.roots,
        next_id: t1.next_id,
    };
    if overfull(t2, id) {
        split_view(t2, id)
    } else {
        t2
    }
}

/// The tree after merging node `id`: its descendants are removed and it
/// holds all the members that were under it, with no children.
pub open spec fn merge_view(t: TreeView, id: u64) -> TreeView {
    let d = descendants(t.nodes, id, depth_fuel(t.nodes, id)).to_set();
    let n1 = t.nodes.remove_keys(d);
    TreeView {
        nodes: if n1.contains_key(id) {
            n1.insert(
                id,
                NodeView {
                    id: n1[id].id,
                    prime: n1[id].prime,
                    term: n1[id].term,
                    members: members_under(t.nodes, id),
                    children: Seq::empty(),
                    depth: n1[id].depth,
                },
            )
        } else {
            n1
        },
        roots: t.roots,
        next_id: t.next_id,
    }
}

/// A node without memory `mid`.
pub open spec fn without_member(n: NodeView, mid: u32) -> NodeView {
    NodeView {
        id: n.id,
        prime: n.prime,
        term: n.term,
        members: n.members.remove(mid),
        children: n.children,
        depth: n.depth,
    }
}

/// The leaves with no members.
pub open spec fn empty_leaves(nodes: Map<u64, NodeView>) -> Set<u64> {
    nodes.dom().filter(|k: u64| nodes[k].children.len() == 0 && nodes[k].members == Set::<u32>::empty())
}

/// The tree after removing memory `mid` everywhere: every node loses it,
/// then the leaves left without members are pruned (from the table, from
/// the roots and from every children list).
pub open spec fn remove_member_view(t: TreeView, mid: u32) -> TreeView {
    let n1 = t.nodes.map_values(|n: NodeView| without_member(n, mid));
    let e = empty_leaves(n1);
    TreeView {
        nodes: Map::new(
            |k: u64| n1.contains_key(k) && !e.contains(k),
            |k: u64|
                NodeView {
                    id: n1[k].id,
                    prime: n1[k].prime,
                    term: n1[k].term,
                    members: n1[k].members,
                    children: n1[k].children.filter(|c: u64| !e.contains(c)),
                    depth: n1[k].depth,
                },
        ),
        roots: t.roots.filter(|r: u64| !e.contains(r)),
        next_id: t.next_id,
    }
}

/// Whether root `r` answers a search for `term`: its term is `term` or
/// starts with `term:`.
pub open spec fn root_matches(t: TreeView, term: Seq<char>, r: u64) -> bool {
    t.nodes.contains_key(r) && (t.nodes[r].term == term || seq_starts_with(t.nodes[r].term, term + ":"@))
}

/// The members under the roots that answer a search for `term`.
pub open spec fn root_hits(t: TreeView, term: Seq<char>) -> Set<u32> {
    Set::new(
        |m: u32|
            exists|i: int|
                0 <= i < t.roots.len() && root_matches(t, term, t.roots[i]) && #[trigger] members_under(
                    t.nodes,
                    t.roots[i],
                ).contains(m),
    )
}

/// The members under the nodes whose term starts with `term`.
pub open spec fn prefix_hits(t: TreeView, term: Seq<char>) -> Set<u32> {
    Set::new(
        |m: u32|
            exists|k: u64|
                t.nodes.contains_key(k) && seq_starts_with(t.nodes[k].term, term) && #[trigger] members_under(
                    t.nodes,
                    t.nodes[k].id,
                ).contains(m),
    )
}

/// Prefix search: the members under the matching roots, and, when there are
/// any, also those under every node whose term starts with `term`.
pub open spec fn search_spec(t: TreeView, term: Seq<char>) -> Set<u32> {
    if root_hits(t, term) == Set::<u32>::empty() {
        Set::empty()
    } else {
        root_hits(t, term).union(prefix_hits(t, term))
    }
}

/// Hierarchical prime-partitioned term tree.
pub struct PrimeTree {
    nodes: HashMap<u64, PrimeNode>,
    root_ids: Vec<u64>,
    next_id: u64,
}

impl View for PrimeTree {
    type V = TreeView;

    closed spec fn view(&self) -> TreeView {
        TreeView { nodes: nodes_view(self.nodes@), roots: self.root_ids@, next_id: self.next_id }
    }
}

/// A child reference of node `k` is below the next id, and a child that
/// exists is one level deeper than `k`.
pub open spec fn child_ok(t: TreeView, k: u64, c: u64) -> bool {
    &&& c < t.next_id
    &&& t.nodes.contains_key(c) ==> t.nodes[c].depth == t.nodes[k].depth + 1
}

impl TreeView {
    /// Every node sits under its own id, below the next id to hand out, and
    /// every child that exists is one level deeper than its parent.
    pub open spec fn well_formed(self) -> bool {
        &&& forall|k: u64| #[trigger] self.nodes.contains_key(k) ==> self.nodes[k].id == k && k < self.next_id
            && self.nodes[k].prime > 0
        &&& forall|k: u64, j: int|
            #![trigger self.nodes[k].children[j]]
            self.nodes.contains_key(k) && 0 <= j < self.nodes[k].children.len() ==> child_ok(
                self,
                k,
                self.nodes[k].children[j],
            )
        &&& forall|i: int|
            #![trigger self.roots[i]]
            0 <= i < self.roots.len() ==> self.roots[i] < self.next_id && (self.nodes.contains_key(
                self.roots[i],
            ) ==> self.nodes[self.roots[i]].depth == 0)
    }
}

/// Snapshot of a tree for persistence.
pub struct PrimeTreeSnapshot {
    pub nodes: Vec<PrimeNode>,
    pub root_ids: Vec<u64>,
    pub next_id: u64,
}

fn copy_ids(v: &Vec<u64>) -> (r: Vec<u64>)
    ensures
        r@ == v@,
{
    let mut r: Vec<u64> = Vec::new();
    let mut i: usize = 0;
    while i < v.len()
        invariant
            i <= v@.len(),
            r@ == v@.take(i as int),
        decreases v.len() - i,
    {
        r.push(v[i]);
        proof {
            assert(v@.take(i + 1) =~= v@.take(i as int).push(v@[i as int]));
        }
        i = i + 1;
    }
    proof {
        assert(v@.take(v@.len() as int) =~= v@);
    }
    r
}

fn copy_node(n: &PrimeNode) -> (r: PrimeNode)
    ensures
        node_view(r) == node_view(*n),
{
    PrimeNode {
        id: n.id,
        prime: n.prime,
        term: n.term.clone(),
        members: bm_clone(&n.members),
        children: copy_ids(&n.children),
        depth: n.depth,
    }
}

impl PrimeTree {
    /// The tree's invariant.
    pub closed spec fn wf(&self) -> bool {
        self@.well_formed()
    }

    /// An empty tree; ids are handed out from 1.
    pub fn new() -> (r: Self)
        ensures
            r.wf(),
            r@.nodes == Map::<u64, NodeView>::empty(),
            r@.roots == Seq::<u64>::empty(),
            r@.next_id == 1,
    {
        let r = PrimeTree { nodes: HashMap::new(), root_ids: Vec::new(), next_id: 1 };
        proof {
            assert(r@.nodes =~= Map::<u64, NodeView>::empty());
        }
        r
    }

    /// Checks the tree's invariant; a loaded snapshot may not satisfy it.
    pub fn is_well_formed(&self) -> (r: bool)
        ensures
            r == self.wf(),
    {
        let keys = crate::graph::keys_of(&self.nodes);
        let mut i: usize = 0;
        while i < keys.len()
            invariant
                i <= keys@.len(),
                keys@.to_set() == self.nodes@.dom(),
                forall|a: int|
                    #![trigger keys@[a]]
                    0 <= a < i ==> {
                        let k = keys@[a];
                        &&& self@.nodes[k].id == k
                        &&& k < self@.next_id
                        &&& self@.nodes[k].prime > 0
                        &&& forall|j: int|
                            #![trigger self@.nodes[k].children[j]]
                            0 <= j < self@.nodes[k].children.len() ==> child_ok(
                                self@,
                                k,
                                self@.nodes[k].children[j],
                            )
                    },
            decreases keys.len() - i,
        {
            let k = keys[i];
            proof {
                assert(keys@.to_set().contains(k));
            }
            let node = match self.nodes.get(&k) {
                Some(n) => n,
                None => {
                    proof {
                        assert(false);
                    }
                    return false;
                },
            };
            proof {
                assert(self@.nodes.contains_key(k));
                assert(self@.nodes[k] == node_view(*node));
            }
            if node.id != k || k >= self.next_id || node.prime == 0 {
                return false;
            }
            let mut j: usize = 0;
            while j < node.children.len()
                invariant
                    j <= node.children@.len(),
                    self.nodes@.contains_key(k),
                    self.nodes@[k] == *node,
                    forall|b: int|
                        0 <= b < j ==> child_ok(self@, k, #[trigger] self@.nodes[k].children[b]),
                decreases node.children.len() - j,
            {
                let c = node.children[j];
                proof {
                    assert(self@.nodes[k] == node_view(*node));
                    assert(self@.nodes[k].children[j as int] == c);
                }
                if c >= self.next_id {
                    return false;
                }
                match self.nodes.get(&c) {
                    Some(child) => {
                        proof {
                            assert(self@.nodes.contains_key(c));
                            assert(self@.nodes[c] == node_view(*child));
                        }
                        if node.depth == u32::MAX || child.depth != node.depth + 1 {
                            return false;
                        }
                    },
                    None => {},
                }
                j = j + 1;
            }
            i = i + 1;
        }
        let mut r: usize = 0;
        while r < self.root_ids.len()
            invariant
                r <= self.root_ids@.len(),
                forall|a: int|
                    #![trigger self@.roots[a]]
                    0 <= a < r ==> self@.roots[a] < self@.next_id && (self@.nodes.contains_key(
                        self@.roots[a],
                    ) ==> self@.nodes[self@.roots[a]].depth == 0),
            decreases self.root_ids.len() - r,
        {
            let id = self.root_ids[r];
            proof {
                assert(self@.roots[r as int] == id);
            }
            if id >= self.next_id {
                return false;
            }
            match self.nodes.get(&id) {
                Some(n) => {
                    proof {
                        assert(self@.nodes.contains_key(self@.roots[r as int]));
                        assert(self@.nodes[id] == node_view(*n));
                    }
                    if n.depth != 0 {
                        return false;
                    }
                },
                None => {},
            }
            r = r + 1;
        }
        proof {
            assert forall|k: u64| #[trigger] self@.nodes.contains_key(k) implies self@.nodes[k].id == k
                && k < self@.next_id && self@.nodes[k].prime > 0 by {
                assert(keys@.to_set().contains(k));
                let a = choose|a: int| 0 <= a < keys@.len() && keys@[a] == k;
            }
            assert forall|k: u64, j: int|
                #![trigger self@.nodes[k].children[j]]
                self@.nodes.contains_key(k) && 0 <= j < self@.nodes[k].children.len() implies child_ok(
                    self@,
                    k,
                    self@.nodes[k].children[j],
                ) by {
                assert(keys@.to_set().contains(k));
                let a = choose|a: int| 0 <= a < keys@.len() && keys@[a] == k;
                assert(keys@[a] == k);
            }
        }
        true
    }
}

impl PrimeTree {
    /// All member ids of a node and of its descendants; none for an unknown
    /// node.
    pub fn collect_members(&self, node_id: u64) -> (r: RoaringBitmap)
        requires
            self.wf(),
        ensures
            bitmap_members(r) == members_under(self@.nodes, node_id),
        decreases depth_fuel(self@.nodes, node_id),
    {
        let ghost nodes = self@.nodes;
        match self.nodes.get(&node_id) {
            None => bm_new(),
            Some(node) => {
                let ghost f = depth_fuel(nodes, node_id);
                proof {
                    assert(nodes.contains_key(node_id));
                    assert(nodes[node_id] == node_view(*node));
                }
                let mut result = bm_clone(&node.members);
                let mut i: usize = 0;
                proof {
                    assert(node.children@.take(0) =~= Seq::<u64>::empty());
                }
                while i < node.children.len()
                    invariant
                        self.wf(),
                        nodes == self@.nodes,
                        nodes.contains_key(node_id),
                        nodes[node_id] == node_view(*node),
                        f == depth_fuel(nodes, node_id),
                        i <= node.children@.len(),
                        bitmap_members(result) == nodes[node_id].members.union(
                            children_union(nodes, node.children@.take(i as int), f),
                        ),
                    decreases node.children.len() - i,
                {
                    let c = node.children[i];
                    proof {
                        assert(node.children@.take(i + 1).drop_last() =~= node.children@.take(i as int));
                        assert(node.children@.take(i + 1).last() == c);
                    }
                    if self.nodes.contains_key(&c) {
                        proof {
                            assert(nodes[node_id].children[i as int] == c);
                            assert(nodes[c].depth == nodes[node_id].depth + 1);
                        }
                        let sub = self.collect_members(c);
                        bm_union_with(&mut result, &sub);
                        proof {
                            assert(bitmap_members(result) =~= nodes[node_id].members.union(
                                children_union(nodes, node.children@.take(i + 1), f),
                            ));
                        }
                    } else {
                        proof {
                            assert(subtree(nodes, c, (f - 1) as nat) =~= Set::<u32>::empty());
                            assert(bitmap_members(result) =~= nodes[node_id].members.union(
                                children_union(nodes, node.children@.take(i + 1), f),
                            ));
                        }
                    }
                    i = i + 1;
                }
                proof {
                    assert(node.children@.take(node.children@.len() as int) =~= node.children@);
                }
                result
            },
        }
    }

    fn collect_descendant_ids(&self, node_id: u64) -> (r: Vec<u64>)
        requires
            self.wf(),
        ensures
            r@ == descendants(self@.nodes, node_id, depth_fuel(self@.nodes, node_id)),
        decreases depth_fuel(self@.nodes, node_id),
    {
        let ghost nodes = self@.nodes;
        match self.nodes.get(&node_id) {
            None => Vec::new(),
            Some(node) => {
                let ghost f = depth_fuel(nodes, node_id);
                proof {
                    assert(nodes.contains_key(node_id));
                    assert(nodes[node_id] == node_view(*node));
                }
                let mut result: Vec<u64> = Vec::new();
                let mut i: usize = 0;
                proof {
                    assert(node.children@.take(0) =~= Seq::<u64>::empty());
                }
                while i < node.children.len()
                    invariant
                        self.wf(),
                        nodes == self@.nodes,
                        nodes.contains_key(node_id),
                        nodes[node_id] == node_view(*node),
                        f == depth_fuel(nodes, node_id),
                        i <= node.children@.len(),
                        result@ == children_descendants(nodes, node.children@.take(i as int), f),
                    decreases node.children.len() - i,
                {
                    let c = node.children[i];
                    proof {
                        assert(node.children@.take(i + 1).drop_last() =~= node.children@.take(i as int));
                        assert(node.children@.take(i + 1).last() == c);
                    }
                    result.push(c);
                    if self.nodes.contains_key(&c) {
                        proof {
                            assert(nodes[node_id].children[i as int] == c);
                            assert(nodes[c].depth == nodes[node_id].depth + 1);
                        }
                        let sub = self.collect_descendant_ids(c);
                        let ghost before = result@;
                        let mut j: usize = 0;
                        while j < sub.len()
                            invariant
                                j <= sub@.len(),
                                result@ == before + sub@.take(j as int),
                            decreases sub.len() - j,
                        {
                            result.push(sub[j]);
                            proof {
                                assert(sub@.take(j + 1) =~= sub@.take(j as int).push(sub@[j as int]));
                            }
                            j = j + 1;
                        }
                        proof {
                            assert(sub@.take(sub@.len() as int) =~= sub@);
                            assert(result@ =~= children_descendants(nodes, node.children@.take(i + 1), f));
                        }
                    } else {
                        proof {
                            assert(descendants(nodes, c, (f - 1) as nat) =~= Seq::<u64>::empty());
                            assert(result@ =~= children_descendants(nodes, node.children@.take(i + 1), f));
                        }
                    }
                    i = i + 1;
                }
                proof {
                    assert(node.children@.take(node.children@.len() as int) =~= node.children@);
                }
                result
            },
        }
    }

    /// The first root, in root order, whose node holds exactly `term`.
    pub fn find_root_for_term(&self, term: &str) -> (r: Option<u64>)
        ensures
            r == root_for(self@, term@),
    {
        let mut i: usize = 0;
        while i < self.root_ids.len()
            invariant
                i <= self.root_ids@.len(),
                root_for(self@, term@) == first_root(self@, term@, i as nat),
            decreases self.root_ids.len() - i,
        {
            let id = self.root_ids[i];
            match self.nodes.get(&id) {
                Some(n) => {
                    proof {
                        assert(self@.nodes.contains_key(id));
                        assert(self@.nodes[id] == node_view(*n));
                    }
                    if str_eq(n.term.as_str(), term) {
                        return Some(id);
                    }
                },
                None => {
                    proof {
                        assert(!self@.nodes.contains_key(id));
                    }
                },
            }
            i = i + 1;
        }
        None
    }

    /// The node with this id, if any.
    pub fn node(&self, id: u64) -> (r: Option<&PrimeNode>)
        ensures
            match r {
                Some(n) => self@.nodes.contains_key(id) && node_view(*n) == self@.nodes[id],
                None => !self@.nodes.contains_key(id),
            },
    {
        self.nodes.get(&id)
    }

    /// The number of nodes.
    pub fn node_count(&self) -> (r: usize)
        ensures
            r == self@.nodes.len(),
    {
        proof {
            assert(self@.nodes.dom() =~= self.nodes@.dom());
        }
        self.nodes.len()
    }

    /// The id the next node will get.
    pub fn next_id(&self) -> (r: u64)
        ensures
            r == self@.next_id,
    {
        self.next_id
    }

    /// The number of roots.
    pub fn root_count(&self) -> (r: usize)
        ensures
            r == self@.roots.len(),
    {
        self.root_ids.len()
    }

    /// Exact term search: the members under the root for `term`, none when
    /// there is no such root.
    pub fn search_exact(&self, term: &str) -> (r: RoaringBitmap)
        requires
            self.wf(),
        ensures
            bitmap_members(r) == match root_for(self@, term@) {
                Some(id) => members_under(self@.nodes, id),
                None => Set::<u32>::empty(),
            },
    {
        match self.find_root_for_term(term) {
            Some(id) => self.collect_members(id),
            None => bm_new(),
        }
    }
}

impl PrimeTree {
    /// The terms of the roots, in root order.
    pub fn terms(&self) -> (r: Vec<String>)
        ensures
            r@.map_values(|s: String| s@) == root_terms(self@, self@.roots.len()),
    {
        let mut r: Vec<String> = Vec::new();
        let mut i: usize = 0;
        while i < self.root_ids.len()
            invariant
                i <= self.root_ids@.len(),
                r@.map_values(|s: String| s@) == root_terms(self@, i as nat),
            decreases self.root_ids.len() - i,
        {
            let id = self.root_ids[i];
            let ghost before = r@;
            match self.nodes.get(&id) {
                Some(n) => {
                    proof {
                        assert(self@.nodes.contains_key(id));
                        assert(self@.nodes[id] == node_view(*n));
                    }
                    let t = n.term.clone();
                    r.push(t);
                    proof {
                        before.lemma_push_map_commute(|s: String| s@, t);
                    }
                },
                None => {
                    proof {
                        assert(!self@.nodes.contains_key(id));
                    }
                },
            }
            i = i + 1;
        }
        r
    }

    /// The number of distinct ids held anywhere in the tree.
    pub fn total_members(&self) -> (r: u64)
        ensures
            r == all_members(self@.nodes).len(),
    {
        let keys = crate::graph::keys_of(&self.nodes);
        let mut all = bm_new();
        let mut i: usize = 0;
        while i < keys.len()
            invariant
                i <= keys@.len(),
                keys@.to_set() == self.nodes@.dom(),
                bitmap_members(all) == Set::new(
                    |m: u32| exists|a: int| 0 <= a < i && #[trigger] self@.nodes[keys@[a]].members.contains(m),
                ),
            decreases keys.len() - i,
        {
            let k = keys[i];
            proof {
                assert(keys@.to_set().contains(k));
            }
            match self.nodes.get(&k) {
                Some(n) => {
                    proof {
                        assert(self@.nodes[k] == node_view(*n));
                    }
                    let ghost prev = bitmap_members(all);
                    bm_union_with(&mut all, &n.members);
                    proof {
                        let s1 = Set::new(
                            |m: u32| exists|a: int| 0 <= a < i + 1 && #[trigger] self@.nodes[keys@[a]].members.contains(m),
                        );
                        assert forall|m: u32| #[trigger] s1.contains(m) implies bitmap_members(all).contains(m) by {
                            let a = choose|a: int| 0 <= a < i + 1 && #[trigger] self@.nodes[keys@[a]].members.contains(m);
                            if a < i {
                                assert(prev.contains(m));
                            }
                        }
                        assert forall|m: u32| #[trigger] bitmap_members(all).contains(m) implies s1.contains(m) by {
                            if !prev.contains(m) {
                                assert(self@.nodes[keys@[i as int]].members.contains(m));
                            } else {
                                let a = choose|a: int| 0 <= a < i && #[trigger] self@.nodes[keys@[a]].members.contains(m);
                                assert(0 <= a < i + 1);
                            }
                        }
                        assert(bitmap_members(all) =~= Set::new(
                            |m: u32| exists|a: int| 0 <= a < i + 1 && #[trigger] self@.nodes[keys@[a]].members.contains(m),
                        ));
                    }
                },
                None => {
                    proof {
                        assert(false);
                    }
                },
            }
            i = i + 1;
        }
        proof {
            assert forall|m: u32| bitmap_members(all).contains(m) <==> all_members(self@.nodes).contains(m) by {
                if all_members(self@.nodes).contains(m) {
                    let k = choose|k: u64| self@.nodes.contains_key(k) && #[trigger] self@.nodes[k].members.contains(m);
                    assert(keys@.to_set().contains(k));
                    let a = choose|a: int| 0 <= a < keys@.len() && keys@[a] == k;
                    assert(self@.nodes[keys@[a]].members.contains(m));
                }
                if bitmap_members(all).contains(m) {
                    let a = choose|a: int| 0 <= a < keys@.len() && #[trigger] self@.nodes[keys@[a]].members.contains(m);
                    assert(keys@.to_set().contains(keys@[a]));
                }
            }
            assert(bitmap_members(all) =~= all_members(self@.nodes));
        }
        bm_len(&all)
    }

    /// A snapshot for persistence: every node once (in the order in which
    /// the node table yields them), the roots, and the next id.
    pub fn snapshot(&self) -> (r: PrimeTreeSnapshot)
        ensures
            r.root_ids@ == self@.roots,
            r.next_id == self@.next_id,
            exists|ks: Seq<u64>|
                {
                    &&& ks.no_duplicates()
                    &&& ks.to_set() == self@.nodes.dom()
                    &&& ks.len() == r.nodes@.len()
                    &&& forall|i: int| 0 <= i < ks.len() ==> #[trigger] node_view(r.nodes@[i]) == self@.nodes[ks[i]]
                },
    {
        let keys = crate::graph::keys_of(&self.nodes);
        let mut out: Vec<PrimeNode> = Vec::new();
        let mut i: usize = 0;
        while i < keys.len()
            invariant
                i <= keys@.len(),
                keys@.to_set() == self.nodes@.dom(),
                out@.len() == i,
                forall|a: int| 0 <= a < i ==> #[trigger] node_view(out@[a]) == self@.nodes[keys@[a]],
            decreases keys.len() - i,
        {
            let k = keys[i];
            proof {
                assert(keys@.to_set().contains(k));
            }
            match self.nodes.get(&k) {
                Some(n) => {
                    proof {
                        assert(self@.nodes[k] == node_view(*n));
                    }
                    out.push(copy_node(n));
                },
                None => {
                    proof {
                        assert(false);
                    }
                },
            }
            i = i + 1;
        }
        proof {
            assert(keys@.to_set() =~= self@.nodes.dom());
        }
        PrimeTreeSnapshot { nodes: out, root_ids: copy_ids(&self.root_ids), next_id: self.next_id }
    }

    /// Loads a snapshot: each node is stored under its id (a later node with
    /// the same id replaces an earlier one), and the roots and next id are
    /// taken from the snapshot.
    pub fn load_snapshot(&mut self, snap: PrimeTreeSnapshot)
        ensures
            final(self)@.nodes == with_nodes(
                old(self)@.nodes,
                snap.nodes@.map_values(|n: PrimeNode| node_view(n)),
            ),
            final(self)@.roots == snap.root_ids@,
            final(self)@.next_id == snap.next_id,
    {
        let ghost sv = snap.nodes@.map_values(|n: PrimeNode| node_view(n));
        let mut i: usize = 0;
        while i < snap.nodes.len()
            invariant
                i <= snap.nodes@.len(),
                sv == snap.nodes@.map_values(|n: PrimeNode| node_view(n)),
                self@.nodes == with_nodes(old(self)@.nodes, sv.take(i as int)),
            decreases snap.nodes.len() - i,
        {
            let n = copy_node(&snap.nodes[i]);
            let ghost before = self.nodes@;
            self.nodes.insert(n.id, n);
            proof {
                assert(sv.take(i + 1).drop_last() =~= sv.take(i as int));
                assert(sv.take(i + 1).last() == sv[i as int]);
                assert(self@.nodes =~= nodes_view(before).insert(sv[i as int].id, sv[i as int]));
            }
            i = i + 1;
        }
        proof {
            assert(sv.take(sv.len() as int) =~= sv);
        }
        self.root_ids = snap.root_ids;
        self.next_id = snap.next_id;
    }
}

/// Persistence round trip: loading the snapshot of a well-formed tree into
/// an empty tree gives back the same nodes, roots and next id.
pub proof fn snapshot_reload_restores(
    t: TreeView,
    nodes: Seq<NodeView>,
    ks: Seq<u64>,
)
    requires
        t.well_formed(),
        ks.no_duplicates(),
        ks.to_set() == t.nodes.dom(),
        ks.len() == nodes.len(),
        forall|i: int| 0 <= i < ks.len() ==> #[trigger] nodes[i] == t.nodes[ks[i]],
    ensures
        with_nodes(Map::empty(), nodes) == t.nodes,
    decreases nodes.len(),
{
    lemma_with_nodes_prefix(t, nodes, ks, nodes.len() as int);
    assert(nodes.take(nodes.len() as int) =~= nodes);
    assert forall|k: u64| #[trigger] t.nodes.contains_key(k) implies ks.take(nodes.len() as int).contains(k) by {
        assert(ks.to_set().contains(k));
        assert(ks.take(nodes.len() as int) =~= ks);
    }
    assert(t.nodes.restrict(ks.take(nodes.len() as int).to_set()) =~= t.nodes);
}

proof fn lemma_with_nodes_prefix(t: TreeView, nodes: Seq<NodeView>, ks: Seq<u64>, n: int)
    requires
        t.well_formed(),
        ks.no_duplicates(),
        ks.to_set() == t.nodes.dom(),
        ks.len() == nodes.len(),
        forall|i: int| 0 <= i < ks.len() ==> #[trigger] nodes[i] == t.nodes[ks[i]],
        0 <= n <= nodes.len(),
    ensures
        with_nodes(Map::empty(), nodes.take(n)) == t.nodes.restrict(ks.take(n).to_set()),
    decreases n,
{
    if n == 0 {
        assert(with_nodes(Map::empty(), nodes.take(0)) =~= t.nodes.restrict(ks.take(0).to_set()));
    } else {
        lemma_with_nodes_prefix(t, nodes, ks, n - 1);
        assert(nodes.take(n).drop_last() =~= nodes.take(n - 1));
        assert(nodes.take(n).last() == nodes[n - 1]);
        assert(ks.to_set().contains(ks[n - 1]));
        assert(nodes[n - 1].id == ks[n - 1]);
        ks.take(n - 1).lemma_push_to_set_commute(ks[n - 1]);
        assert(ks.take(n) =~= ks.take(n - 1).push(ks[n - 1]));
        assert(with_nodes(Map::empty(), nodes.take(n)) =~= t.nodes.restrict(ks.take(n).to_set()));
    }
}

impl PrimeTree {
    fn add_member(&mut self, id: u64, mid: u32)
        requires
            old(self).wf(),
        ensures
            final(self).wf(),
            final(self)@.roots == old(self)@.roots,
            final(self)@.next_id == old(self)@.next_id,
            final(self)@.nodes == with_member(old(self)@.nodes, id, mid),
    {
        let removed = self.nodes.remove(&id);
        match removed {
            Some(mut n) => {
                proof {
                    assert(old(self)@.nodes.contains_key(id));
                    assert(old(self)@.nodes[id] == node_view(n));
                }
                bm_insert(&mut n.members, mid);
                self.nodes.insert(id, n);
                proof {
                    assert(self@.nodes =~= with_member(old(self)@.nodes, id, mid));
                    assert(self@.nodes.dom() =~= old(self)@.nodes.dom());
                    lemma_wf_members_only(old(self)@, self@);
                }
            },
            None => {
                proof {
                    assert(self.nodes@ =~= old(self).nodes@);
                }
            },
        }
    }

    fn first_child_with_suffix(&self, cs: &Vec<u64>, suffix: &str) -> (r: Option<u64>)
        ensures
            r == first_suffixed(self@.nodes, cs@, suffix@, 0),
    {
        let mut i: usize = 0;
        while i < cs.len()
            invariant
                i <= cs@.len(),
                first_suffixed(self@.nodes, cs@, suffix@, 0) == first_suffixed(self@.nodes, cs@, suffix@, i as nat),
            decreases cs.len() - i,
        {
            let c = cs[i];
            match self.nodes.get(&c) {
                Some(n) => {
                    proof {
                        assert(self@.nodes.contains_key(c));
                        assert(self@.nodes[c] == node_view(*n));
                    }
                    let tc = chars_of(n.term.as_str());
                    if ends_with(tc.as_slice(), suffix) {
                        return Some(c);
                    }
                },
                None => {},
            }
            i = i + 1;
        }
        None
    }

    fn insert_into(&mut self, node_id: u64, memory_id: u32)
        requires
            old(self).wf(),
        ensures
            final(self).wf(),
            final(self)@.roots == old(self)@.roots,
            final(self)@.next_id == old(self)@.next_id,
            final(self)@.nodes == with_member(
                old(self)@.nodes,
                route(old(self)@.nodes, node_id, memory_id, depth_fuel(old(self)@.nodes, node_id)),
                memory_id,
            ),
        decreases depth_fuel(old(self)@.nodes, node_id),
    {
        let ghost nodes = self@.nodes;
        let ghost f = depth_fuel(nodes, node_id);
        let mut descend: Option<u64> = None;
        let mut here = false;
        match self.nodes.get(&node_id) {
            None => {
                proof {
                    assert(!nodes.contains_key(node_id));
                    assert(with_member(nodes, node_id, memory_id) == nodes);
                }
                return;
            },
            Some(node) => {
                proof {
                    assert(nodes.contains_key(node_id));
                    assert(nodes[node_id] == node_view(*node));
                }
                if node.children.len() == 0 {
                    here = true;
                } else {
                    let first = node.children[0];
                    let cp = match self.nodes.get(&first) {
                        Some(c) => {
                            proof {
                                assert(nodes.contains_key(first));
                                assert(nodes[first] == node_view(*c));
                                assert(nodes[first].prime > 0);
                            }
                            c.prime
                        },
                        None => 2,
                    };
                    let bucket = (memory_id as u64) % cp;
                    let mut suffix = String::new();
                    push_char(&mut suffix, ':');
                    push_decimal(&mut suffix, bucket);
                    proof {
                        assert(suffix@ =~= bucket_suffix(bucket as nat));
                    }
                    match self.first_child_with_suffix(&node.children, suffix.as_str()) {
                        Some(c) => {
                            descend = Some(c);
                        },
                        None => {
                            here = true;
                        },
                    }
                }
            },
        }
        if here {
            self.add_member(node_id, memory_id);
        } else {
            match descend {
                Some(c) => {
                    proof {
                        let cs = nodes[node_id].children;
                        let cp: u64 = if nodes.contains_key(cs[0]) { nodes[cs[0]].prime } else { 2 };
                        let suf = bucket_suffix(((memory_id as u64) % cp) as nat);
                        lemma_first_suffixed(nodes, cs, suf, 0);
                        let k = choose|k: int| 0 <= k < cs.len() && cs[k] == c;
                        assert(nodes[node_id].children[k] == c);
                        assert(nodes[c].depth == nodes[node_id].depth + 1);
                    }
                    self.insert_into(c, memory_id);
                },
                None => {},
            }
        }
    }
}

proof fn lemma_used_upto_len(ms: Set<u32>, cp: u64, n: nat)
    ensures
        used_upto(ms, cp, n).len() <= n,
        forall|j: int| 0 <= j < used_upto(ms, cp, n).len() ==> #[trigger] used_upto(ms, cp, n)[j] < n,
    decreases n,
{
    if n > 0 {
        lemma_used_upto_len(ms, cp, (n - 1) as nat);
    }
}

impl PrimeTree {
    fn alloc_id(&mut self) -> (r: u64)
        requires
            old(self).next_id < u64::MAX,
        ensures
            r == old(self).next_id,
            final(self).next_id == old(self).next_id + 1,
            final(self).nodes == old(self).nodes,
            final(self).root_ids == old(self).root_ids,
    {
        let id = self.next_id;
        self.next_id = self.next_id + 1;
        id
    }

    /// Splits a leaf holding more than one member into one child per bucket
    /// of the next depth's prime that its members fall in (`id % prime`),
    /// when there is more than one such bucket; the children are made in
    /// ascending bucket order and named `term:bucket`.
    pub fn split(&mut self, node_id: u64)
        requires
            old(self).wf(),
            old(self)@.next_id + 64 <= u64::MAX,
            old(self)@.nodes.contains_key(node_id) && old(self)@.nodes[node_id].members.len() > 1
                && old(self)@.nodes[node_id].children.len() == 0 ==> old(self)@.nodes[node_id].depth < u32::MAX,
        ensures
            final(self).wf(),
            final(self)@ == split_view(old(self)@, node_id),
    {
        let ghost t = self@;
        let (depth, mvec, term) = match self.nodes.get(&node_id) {
            None => {
                return;
            },
            Some(node) => {
                proof {
                    assert(t.nodes[node_id] == node_view(*node));
                }
                if bm_len(&node.members) <= 1 || node.children.len() != 0 {
                    return;
                }
                (node.depth, bm_to_vec(&node.members), node.term.clone())
            },
        };
        let ghost n = t.nodes[node_id];
        let child_depth = depth + 1;
        let cp = prime_for_depth(child_depth);
        let ghost bs = used_upto(n.members, cp, cp as nat);
        proof {
            lemma_used_upto_len(n.members, cp, cp as nat);
        }
        // Count the used buckets.
        let mut used: u64 = 0;
        let mut b: u64 = 0;
        while b < cp
            invariant
                b <= cp,
                cp >= 2,
                cp <= 53,
                mvec@.to_set() == n.members,
                used == used_upto(n.members, cp, b as nat).len(),
                used <= b,
            decreases cp - b,
        {
            if bucket_has(&mvec, cp, b) {
                used = used + 1;
            }
            b = b + 1;
        }
        if used <= 1 {
            return;
        }
        let base = self.next_id;
        let mut child_ids: Vec<u64> = Vec::new();
        let mut b: u64 = 0;
        while b < cp
            invariant
                self.wf(),
                b <= cp,
                cp >= 2,
                cp <= 53,
                cp == prime_at(n.depth + 1),
                mvec@.to_set() == n.members,
                term@ == n.term,
                depth == n.depth,
                child_depth == depth + 1,
                t.nodes.contains_key(node_id),
                n == t.nodes[node_id],
                base == t.next_id,
                base + 64 <= u64::MAX,
                child_ids@ == Seq::new(used_upto(n.members, cp, b as nat).len(), |j: int| (base + j) as u64),
                self@.next_id == base + used_upto(n.members, cp, b as nat).len(),
                self@.roots == t.roots,
                self@.nodes == with_bucket_children(t.nodes, n, cp, base, used_upto(n.members, cp, b as nat)),
            decreases cp - b,
        {
            if bucket_has(&mvec, cp, b) {
                proof {
                    lemma_used_upto_len(n.members, cp, b as nat);
                }
                let child_id = self.alloc_id();
                let members = bucket_bitmap(&mvec, cp, b);
                let mut cterm = term.clone();
                push_char(&mut cterm, ':');
                push_decimal(&mut cterm, b);
                let ghost before = self@;
                let ghost cterm_v = cterm@;
                let ghost members_v = bitmap_members(members);
                let newnode = PrimeNode {
                    id: child_id,
                    prime: cp,
                    term: cterm,
                    members,
                    children: Vec::new(),
                    depth: child_depth,
                };
                let ghost newv = node_view(newnode);
                self.nodes.insert(child_id, newnode);
                child_ids.push(child_id);
                proof {
                    let bs0 = used_upto(n.members, cp, b as nat);
                    let bs1 = used_upto(n.members, cp, (b + 1) as nat);
                    assert(bs1 == bs0.push(b));
                    assert(cterm_v =~= n.term + bucket_suffix(b as nat));
                    assert(members_v =~= n.members.filter(|m: u32| (m as u64) % cp == b));
                    assert(child_id == base + bs0.len());
                    let w = with_bucket_children(t.nodes, n, cp, base, bs1);
                    assert(newv == bucket_child(n, cp, b, child_id));
                    assert(bs1[bs0.len() as int] == b);
                    assert forall|k: u64| #[trigger] self@.nodes.contains_key(k) == w.contains_key(k) && (
                    self@.nodes.contains_key(k) ==> self@.nodes[k] == w[k]) by {
                        if k == child_id {
                            assert(self@.nodes[k] == newv);
                        } else {
                            assert(self@.nodes.contains_key(k) == before.nodes.contains_key(k));
                            if base <= k && k < base + bs0.len() {
                                assert(bs1[k - base] == bs0[k - base]);
                            }
                            if self@.nodes.contains_key(k) {
                                assert(self@.nodes[k] == before.nodes[k]);
                            }
                        }
                    }
                    assert(self@.nodes =~= w);
                    assert(child_ids@ =~= Seq::new(bs1.len(), |j: int| (base + j) as u64));
                    assert(self@.well_formed()) by {
                        assert forall|k: u64| #[trigger] self@.nodes.contains_key(k) implies self@.nodes[k].id == k
                            && k < self@.next_id && self@.nodes[k].prime > 0 by {
                            if k != child_id {
                                assert(before.nodes.contains_key(k));
                            }
                        }
                        assert forall|k: u64, j: int|
                            #![trigger self@.nodes[k].children[j]]
                            self@.nodes.contains_key(k) && 0 <= j < self@.nodes[k].children.len() implies child_ok(
                                self@,
                                k,
                                self@.nodes[k].children[j],
                            ) by {
                            if k != child_id {
                                assert(before.nodes.contains_key(k));
                                assert(child_ok(before, k, before.nodes[k].children[j]));
                                assert(self@.nodes[k] == before.nodes[k]);
                            }
                        }
                    }
                }
            } else {
                proof {
                    assert(used_upto(n.members, cp, (b + 1) as nat) == used_upto(n.members, cp, b as nat));
                }
            }
            b = b + 1;
        }
        let ghost mid_state = self@;
        let ghost kids = child_ids@;
        proof {
            assert(used_upto(n.members, cp, cp as nat) == bs);
            assert(mid_state.nodes.contains_key(node_id));
            assert(mid_state.nodes[node_id] == n) by {
                assert(!(base <= node_id && node_id < base + bs.len()));
            }
        }
        let removed = self.nodes.remove(&node_id);
        match removed {
            Some(mut parent) => {
                proof {
                    assert(node_view(parent) == n);
                }
                parent.members = bm_new();
                parent.children = child_ids;
                self.nodes.insert(node_id, parent);
                proof {
                    let pv = NodeView {
                        id: n.id,
                        prime: n.prime,
                        term: n.term,
                        members: Set::empty(),
                        children: kids,
                        depth: n.depth,
                    };
                    assert(node_view(parent) == pv);
                    assert(self@.nodes =~= mid_state.nodes.insert(node_id, pv));
                    assert(splits(t, node_id));
                    assert(kids =~= Seq::new(bs.len(), |j: int| (base + j) as u64));
                    assert(self@ == split_view(t, node_id));
                    assert(self@.well_formed()) by {
                        assert forall|k: u64| #[trigger] self@.nodes.contains_key(k) implies self@.nodes[k].id == k
                            && k < self@.next_id && self@.nodes[k].prime > 0 by {
                            if k != node_id {
                                assert(mid_state.nodes.contains_key(k));
                            } else {
                                assert(t.nodes.contains_key(node_id));
                            }
                        }
                        assert forall|k: u64, j: int|
                            #![trigger self@.nodes[k].children[j]]
                            self@.nodes.contains_key(k) && 0 <= j < self@.nodes[k].children.len() implies child_ok(
                                self@,
                                k,
                                self@.nodes[k].children[j],
                            ) by {
                            if k != node_id {
                                assert(mid_state.nodes.contains_key(k));
                                assert(child_ok(mid_state, k, mid_state.nodes[k].children[j]));
                                let c = self@.nodes[k].children[j];
                                assert(self@.nodes[k] == mid_state.nodes[k]);
                                if self@.nodes.contains_key(c) && c == node_id {
                                    assert(mid_state.nodes[c].depth == n.depth);
                                }
                            } else {
                                let c = kids[j];
                                assert(self@.nodes[k].children[j] == c);
                                assert(c == base + j);
                                assert(self@.nodes.contains_key(c));
                                assert(self@.nodes[c] == bucket_child(n, cp, bs[j], c));
                            }
                        }
                    }
                }
            },
            None => {
                proof {
                    assert(false);
                }
            },
        }
    }
}

fn bucket_has(v: &Vec<u32>, cp: u64, b: u64) -> (r: bool)
    requires
        cp > 0,
    ensures
        r == bucket_used(v@.to_set(), cp, b),
{
    let mut i: usize = 0;
    while i < v.len()
        invariant
            cp > 0,
            i <= v@.len(),
            forall|j: int| 0 <= j < i ==> (v@[j] as u64) % cp != b,
        decreases v.len() - i,
    {
        if (v[i] as u64) % cp == b {
            proof {
                assert(v@.to_set().contains(v@[i as int]));
            }
            return true;
        }
        i = i + 1;
    }
    proof {
        if bucket_used(v@.to_set(), cp, b) {
            let m = choose|m: u32| v@.to_set().contains(m) && #[trigger] ((m as u64) % cp) == b;
            let j = choose|j: int| 0 <= j < v@.len() && v@[j] == m;
        }
    }
    false
}

fn bucket_bitmap(v: &Vec<u32>, cp: u64, b: u64) -> (r: RoaringBitmap)
    requires
        cp > 0,
    ensures
        bitmap_members(r) == v@.to_set().filter(|m: u32| (m as u64) % cp == b),
{
    let mut r = bm_new();
    let mut i: usize = 0;
    while i < v.len()
        invariant
            cp > 0,
            i <= v@.len(),
            bitmap_members(r) == v@.take(i as int).to_set().filter(|m: u32| (m as u64) % cp == b),
        decreases v.len() - i,
    {
        let m = v[i];
        if (m as u64) % cp == b {
            bm_insert(&mut r, m);
        }
        proof {
            assert(v@.take(i + 1) =~= v@.take(i as int).push(m));
            v@.take(i as int).lemma_push_to_set_commute(m);
            assert(bitmap_members(r) =~= v@.take(i + 1).to_set().filter(|m: u32| (m as u64) % cp == b));
        }
        i = i + 1;
    }
    proof {
        assert(v@.take(v@.len() as int) =~= v@);
    }
    r
}

impl PrimeTree {
    fn maybe_split(&mut self, node_id: u64)
        requires
            old(self).wf(),
            old(self)@.next_id + 64 <= u64::MAX,
            old(self)@.nodes.contains_key(node_id) ==> old(self)@.nodes[node_id].depth == 0,
        ensures
            final(self).wf(),
            final(self)@ == (if overfull(old(self)@, node_id) {
                split_view(old(self)@, node_id)
            } else {
                old(self)@
            }),
    {
        let should_split = match self.nodes.get(&node_id) {
            Some(n) => {
                proof {
                    assert(self@.nodes[node_id] == node_view(*n));
                }
                n.children.len() == 0 && bm_len(&n.members) > n.prime
            },
            None => false,
        };
        if should_split {
            self.split(node_id);
        }
    }

    /// Inserts a memory into the partition for `term`, making the term's
    /// root if needed, and returns the root's id.  The memory goes down to
    /// the deepest matching partition; the root splits when it is a leaf
    /// holding more members than its prime.
    pub fn insert(&mut self, term: &str, memory_id: u32) -> (r: u64)
        requires
            old(self).wf(),
            old(self)@.next_id + 65 <= u64::MAX,
        ensures
            final(self).wf(),
            r == root_made(old(self)@, term@).1,
            final(self)@ == insert_view(old(self)@, term@, memory_id),
    {
        let node_id = match self.find_root_for_term(term) {
            Some(id) => {
                proof {
                    lemma_first_root(self@, term@, 0);
                }
                id
            },
            None => {
                let id = self.alloc_id();
                let prime = prime_for_depth(0);
                let node = PrimeNode {
                    id,
                    prime,
                    term: term.to_owned(),
                    members: bm_new(),
                    children: Vec::new(),
                    depth: 0,
                };
                let ghost nv = node_view(node);
                self.nodes.insert(id, node);
                self.root_ids.push(id);
                proof {
                    let t = old(self)@;
                    assert(prime == 2);
                    assert(self@.nodes =~= with_new_root(t, term@).nodes);
                    assert(self@ == with_new_root(t, term@));
                    assert(self@.well_formed()) by {
                        assert forall|k: u64, j: int|
                            #![trigger self@.nodes[k].children[j]]
                            self@.nodes.contains_key(k) && 0 <= j < self@.nodes[k].children.len() implies child_ok(
                                self@,
                                k,
                                self@.nodes[k].children[j],
                            ) by {
                            assert(k != id);
                            assert(t.nodes.contains_key(k));
                            assert(child_ok(t, k, t.nodes[k].children[j]));
                        }
                        assert forall|i: int|
                            #![trigger self@.roots[i]]
                            0 <= i < self@.roots.len() implies self@.roots[i] < self@.next_id && (
                            self@.nodes.contains_key(self@.roots[i]) ==> self@.nodes[self@.roots[i]].depth == 0) by {
                            if i < t.roots.len() {
                                assert(self@.roots[i] == t.roots[i]);
                            }
                        }
                        assert forall|k: u64| #[trigger] self@.nodes.contains_key(k) implies self@.nodes[k].id == k
                            && k < self@.next_id && self@.nodes[k].prime > 0 by {
                            if k != id {
                                assert(t.nodes.contains_key(k));
                            }
                        }
                    }
                }
                id
            },
        };
        proof {
            let t = old(self)@;
            lemma_first_root(t, term@, 0);
            if root_for(t, term@) is Some {
                let k = choose|k: int| 0 <= k < t.roots.len() && t.roots[k] == node_id;
                assert(t.roots[k] == node_id);
            }
            assert(self@.nodes.contains_key(node_id) ==> self@.nodes[node_id].depth == 0);
            assert(self@ == root_made(t, term@).0);
        }
        self.insert_into(node_id, memory_id);
        self.maybe_split(node_id);
        node_id
    }

    /// Collapses all descendants of a node back into it: they are removed,
    /// and the node holds every member that was under it, with no children.
    pub fn merge(&mut self, node_id: u64)
        requires
            old(self).wf(),
        ensures
            final(self).wf(),
            final(self)@ == merge_view(old(self)@, node_id),
    {
        let ghost t = self@;
        let members = self.collect_members(node_id);
        let child_ids = self.collect_descendant_ids(node_id);
        let ghost d = child_ids@.to_set();
        let mut i: usize = 0;
        while i < child_ids.len()
            invariant
                i <= child_ids@.len(),
                d == child_ids@.to_set(),
                self@.roots == t.roots,
                self@.next_id == t.next_id,
                self@.nodes == t.nodes.remove_keys(child_ids@.take(i as int).to_set()),
            decreases child_ids.len() - i,
        {
            let c = child_ids[i];
            let ghost before = self.nodes@;
            self.nodes.remove(&c);
            proof {
                assert(nodes_view(self.nodes@) =~= nodes_view(before).remove(c));
                assert(child_ids@.take(i + 1) =~= child_ids@.take(i as int).push(c));
                child_ids@.take(i as int).lemma_push_to_set_commute(c);
                assert(self@.nodes =~= t.nodes.remove_keys(child_ids@.take(i + 1).to_set()));
            }
            i = i + 1;
        }
        proof {
            assert(child_ids@.take(child_ids@.len() as int) =~= child_ids@);
        }
        let ghost n1 = self@.nodes;
        let removed = self.nodes.remove(&node_id);
        match removed {
            Some(mut node) => {
                node.members = members;
                node.children = Vec::new();
                self.nodes.insert(node_id, node);
                proof {
                    assert(self@.nodes =~= merge_view(t, node_id).nodes);
                }
            },
            None => {
                proof {
                    assert(self@.nodes =~= n1);
                }
            },
        }
        proof {
            assert(self@ == merge_view(t, node_id));
            let u = self@;
            assert(u.well_formed()) by {
                assert forall|k: u64| #[trigger] u.nodes.contains_key(k) implies u.nodes[k].id == k && k
                    < u.next_id && u.nodes[k].prime > 0 by {
                    assert(t.nodes.contains_key(k));
                }
                assert forall|k: u64, j: int|
                    #![trigger u.nodes[k].children[j]]
                    u.nodes.contains_key(k) && 0 <= j < u.nodes[k].children.len() implies child_ok(
                        u,
                        k,
                        u.nodes[k].children[j],
                    ) by {
                    assert(k != node_id);
                    assert(t.nodes.contains_key(k));
                    assert(u.nodes[k] == t.nodes[k]);
                    assert(child_ok(t, k, t.nodes[k].children[j]));
                    let c = u.nodes[k].children[j];
                    if u.nodes.contains_key(c) {
                        assert(t.nodes.contains_key(c));
                        if c == node_id {
                            assert(u.nodes[c].depth == t.nodes[c].depth);
                        } else {
                            assert(u.nodes[c] == t.nodes[c]);
                        }
                    }
                }
                assert forall|i: int|
                    #![trigger u.roots[i]]
                    0 <= i < u.roots.len() implies u.roots[i] < u.next_id && (u.nodes.contains_key(
                        u.roots[i],
                    ) ==> u.nodes[u.roots[i]].depth == 0) by {
                    assert(t.roots[i] == u.roots[i]);
                    if u.nodes.contains_key(u.roots[i]) {
                        assert(t.nodes.contains_key(u.roots[i]));
                    }
                }
            }
        }
    }
}

proof fn lemma_first_root(t: TreeView, term: Seq<char>, i: nat)
    ensures
        first_root(t, term, i) matches Some(id) ==> t.nodes.contains_key(id) && exists|k: int|
            i <= k < t.roots.len() && t.roots[k] == id,
    decreases t.roots.len() - i,
{
    if i < t.roots.len() {
        lemma_first_root(t, term, i + 1);
    }
}


fn contains_id(v: &Vec<u64>, x: u64) -> (r: bool)
    ensures
        r == v@.contains(x),
{
    let mut i: usize = 0;
    while i < v.len()
        invariant
            i <= v@.len(),
            forall|j: int| 0 <= j < i ==> v@[j] != x,
        decreases v.len() - i,
    {
        if v[i] == x {
            return true;
        }
        i = i + 1;
    }
    false
}

fn without_ids(v: &Vec<u64>, drop: &Vec<u64>) -> (r: Vec<u64>)
    ensures
        r@ == v@.filter(|c: u64| !drop@.contains(c)),
{
    let ghost f = |c: u64| !drop@.contains(c);
    let mut r: Vec<u64> = Vec::new();
    let mut i: usize = 0;
    while i < v.len()
        invariant
            i <= v@.len(),
            f == (|c: u64| !drop@.contains(c)),
            r@ == v@.take(i as int).filter(f),
        decreases v.len() - i,
    {
        let c = v[i];
        proof {
            assert(v@.take(i + 1) =~= v@.take(i as int).push(c));
            v@.take(i as int).lemma_filter_push(c, f);
        }
        if !contains_id(drop, c) {
            r.push(c);
        }
        i = i + 1;
    }
    proof {
        assert(v@.take(v@.len() as int) =~= v@);
    }
    r
}

impl PrimeTree {
    /// Removes a memory from every node, then prunes the leaves left
    /// without members: they leave the table, the roots and every children
    /// list.
    pub fn remove_member(&mut self, memory_id: u32)
        requires
            old(self).wf(),
        ensures
            final(self).wf(),
            final(self)@ == remove_member_view(old(self)@, memory_id),
    {
        let ghost t = self@;
        let ghost n1 = t.nodes.map_values(|n: NodeView| without_member(n, memory_id));
        let keys = crate::graph::keys_of(&self.nodes);
        // Every node loses the memory.
        let mut i: usize = 0;
        while i < keys.len()
            invariant
                i <= keys@.len(),
                keys@.to_set() == t.nodes.dom(),
                keys@.no_duplicates(),
                self@.roots == t.roots,
                self@.next_id == t.next_id,
                self@.nodes.dom() == t.nodes.dom(),
                forall|k: u64|
                    #[trigger] self@.nodes.contains_key(k) ==> self@.nodes[k] == (if keys@.take(i as int).contains(k) {
                        without_member(t.nodes[k], memory_id)
                    } else {
                        t.nodes[k]
                    }),
            decreases keys.len() - i,
        {
            let k = keys[i];
            proof {
                assert(keys@.to_set().contains(k));
                assert(keys@.take(i + 1) =~= keys@.take(i as int).push(k));
                assert(!keys@.take(i as int).contains(k));
            }
            let ghost before = self@.nodes;
            let removed = self.nodes.remove(&k);
            match removed {
                Some(mut n) => {
                    bm_remove(&mut n.members, memory_id);
                    self.nodes.insert(k, n);
                    proof {
                        assert forall|x: u64| #[trigger] self@.nodes.contains_key(x) implies self@.nodes[x] == (
                        if keys@.take(i + 1).contains(x) {
                            without_member(t.nodes[x], memory_id)
                        } else {
                            t.nodes[x]
                        }) by {
                            if x != k {
                                assert(self@.nodes[x] == before[x]);
                                assert(keys@.take(i + 1).contains(x) == keys@.take(i as int).contains(x));
                            } else {
                                assert(keys@.take(i + 1)[i as int] == k);
                                assert(keys@.take(i + 1).contains(k));
                            }
                        }
                        assert(self@.nodes.dom() =~= t.nodes.dom());
                    }
                },
                None => {
                    proof {
                        assert(false);
                    }
                },
            }
            i = i + 1;
        }
        proof {
            assert(keys@.take(keys@.len() as int) =~= keys@);
            assert forall|k: u64| #[trigger] self@.nodes.contains_key(k) implies keys@.contains(k) by {
                assert(keys@.to_set().contains(k));
            }
            assert(self@.nodes =~= n1);
        }
        // The leaves left without members.
        let mut empties: Vec<u64> = Vec::new();
        let mut i: usize = 0;
        while i < keys.len()
            invariant
                i <= keys@.len(),
                keys@.to_set() == t.nodes.dom(),
                n1 == t.nodes.map_values(|n: NodeView| without_member(n, memory_id)),
                self@.nodes == n1,
                self@.roots == t.roots,
                self@.next_id == t.next_id,
                empties@.to_set() == keys@.take(i as int).to_set().filter(
                    |k: u64| n1[k].children.len() == 0 && n1[k].members == Set::<u32>::empty(),
                ),
            decreases keys.len() - i,
        {
            let k = keys[i];
            proof {
                assert(keys@.to_set().contains(k));
                assert(keys@.take(i + 1) =~= keys@.take(i as int).push(k));
                keys@.take(i as int).lemma_push_to_set_commute(k);
            }
            let ghost before = empties@;
            proof {
                assert(keys@.to_set().contains(k));
                assert(t.nodes.dom().contains(k));
                assert(t.nodes.contains_key(k));
                assert(n1.contains_key(k));
                assert(self@.nodes.contains_key(k));
                assert(self.nodes@.contains_key(k));
            }
            match self.nodes.get(&k) {
                Some(n) => {
                    proof {
                        assert(n1[k] == node_view(*n));
                    }
                    if n.children.len() == 0 && bm_is_empty(&n.members) {
                        empties.push(k);
                        proof {
                            before.lemma_push_to_set_commute(k);
                        }
                    }
                },
                None => {
                    proof {
                        assert(false);
                    }
                },
            }
            proof {
                assert(empties@.to_set() =~= keys@.take(i + 1).to_set().filter(
                    |k: u64| n1[k].children.len() == 0 && n1[k].members == Set::<u32>::empty(),
                ));
            }
            i = i + 1;
        }
        let ghost e = empty_leaves(n1);
        proof {
            assert(keys@.take(keys@.len() as int) =~= keys@);
            assert(empties@.to_set() =~= e);
        }
        // Prune them from the table.
        let mut i: usize = 0;
        while i < empties.len()
            invariant
                i <= empties@.len(),
                self@.roots == t.roots,
                self@.next_id == t.next_id,
                self@.nodes == n1.remove_keys(empties@.take(i as int).to_set()),
            decreases empties.len() - i,
        {
            let x = empties[i];
            let ghost before = self.nodes@;
            self.nodes.remove(&x);
            proof {
                assert(nodes_view(self.nodes@) =~= nodes_view(before).remove(x));
                assert(empties@.take(i + 1) =~= empties@.take(i as int).push(x));
                empties@.take(i as int).lemma_push_to_set_commute(x);
                assert(self@.nodes =~= n1.remove_keys(empties@.take(i + 1).to_set()));
            }
            i = i + 1;
        }
        proof {
            assert(empties@.take(empties@.len() as int) =~= empties@);
        }
        let ghost n2 = self@.nodes;
        // Prune them from the roots.
        let roots = without_ids(&self.root_ids, &empties);
        self.root_ids = roots;
        // Prune them from every children list.
        let mut i: usize = 0;
        while i < keys.len()
            invariant
                i <= keys@.len(),
                keys@.to_set() == t.nodes.dom(),
                keys@.no_duplicates(),
                empties@.to_set() == e,
                self@.roots == t.roots.filter(|r: u64| !empties@.contains(r)),
                self@.next_id == t.next_id,
                self@.nodes.dom() == n2.dom(),
                forall|k: u64|
                    #[trigger] self@.nodes.contains_key(k) ==> self@.nodes[k] == (if keys@.take(i as int).contains(k) {
                        NodeView {
                            id: n2[k].id,
                            prime: n2[k].prime,
                            term: n2[k].term,
                            members: n2[k].members,
                            children: n2[k].children.filter(|c: u64| !empties@.contains(c)),
                            depth: n2[k].depth,
                        }
                    } else {
                        n2[k]
                    }),
            decreases keys.len() - i,
        {
            let k = keys[i];
            proof {
                assert(keys@.take(i + 1) =~= keys@.take(i as int).push(k));
                assert(!keys@.take(i as int).contains(k)) by {
                    if keys@.take(i as int).contains(k) {
                        let j = choose|j: int| 0 <= j < i && keys@[j] == k;
                        assert(keys@[i as int] == k);
                    }
                }
            }
            let ghost before = self@.nodes;
            let ghost before_raw = self.nodes@;
            let removed = self.nodes.remove(&k);
            match removed {
                Some(mut n) => {
                    let kept = without_ids(&n.children, &empties);
                    n.children = kept;
                    self.nodes.insert(k, n);
                    proof {
                        assert forall|x: u64| #[trigger] self@.nodes.contains_key(x) implies self@.nodes[x] == (
                        if keys@.take(i + 1).contains(x) {
                            NodeView {
                                id: n2[x].id,
                                prime: n2[x].prime,
                                term: n2[x].term,
                                members: n2[x].members,
                                children: n2[x].children.filter(|c: u64| !empties@.contains(c)),
                                depth: n2[x].depth,
                            }
                        } else {
                            n2[x]
                        }) by {
                            if x != k {
                                assert(self@.nodes[x] == before[x]);
                                assert(keys@.take(i + 1).contains(x) == keys@.take(i as int).contains(x));
                            } else {
                                assert(keys@.take(i + 1)[i as int] == k);
                                assert(keys@.take(i + 1).contains(k));
                            }
                        }
                        assert(self@.nodes.dom() =~= n2.dom());
                    }
                },
                None => {
                    proof {
                        assert(self.nodes@ =~= before_raw);
                        assert forall|x: u64| #[trigger] self@.nodes.contains_key(x) implies self@.nodes[x] == (
                        if keys@.take(i + 1).contains(x) {
                            NodeView {
                                id: n2[x].id,
                                prime: n2[x].prime,
                                term: n2[x].term,
                                members: n2[x].members,
                                children: n2[x].children.filter(|c: u64| !empties@.contains(c)),
                                depth: n2[x].depth,
                            }
                        } else {
                            n2[x]
                        }) by {
                            assert(x != k);
                            assert(keys@.take(i + 1).contains(x) == keys@.take(i as int).contains(x));
                        }
                    }
                },
            }
            i = i + 1;
        }
        proof {
            assert(keys@.take(keys@.len() as int) =~= keys@);
            let f1 = |c: u64| !empties@.contains(c);
            let f2 = |c: u64| !e.contains(c);
            assert(f1 =~= f2) by {
                assert forall|c: u64| #[trigger] f1(c) == f2(c) by {
                    assert(empties@.to_set().contains(c) == empties@.contains(c));
                }
            }
            let want = remove_member_view(t, memory_id);
            assert forall|k: u64| #[trigger] self@.nodes.contains_key(k) == want.nodes.contains_key(k) && (
            self@.nodes.contains_key(k) ==> self@.nodes[k] == want.nodes[k]) by {
                if self@.nodes.contains_key(k) {
                    assert(n2.contains_key(k));
                    assert(t.nodes.contains_key(k));
                    assert(keys@.to_set().contains(k));
                }
            }
            assert(self@.nodes =~= want.nodes);
            assert(self@ == want);
            let u = self@;
            assert(u.well_formed()) by {
                assert forall|k: u64| #[trigger] u.nodes.contains_key(k) implies u.nodes[k].id == k && k
                    < u.next_id && u.nodes[k].prime > 0 by {
                    assert(t.nodes.contains_key(k));
                }
                assert forall|k: u64, j: int|
                    #![trigger u.nodes[k].children[j]]
                    u.nodes.contains_key(k) && 0 <= j < u.nodes[k].children.len() implies child_ok(
                        u,
                        k,
                        u.nodes[k].children[j],
                    ) by {
                    assert(t.nodes.contains_key(k));
                    let c = u.nodes[k].children[j];
                    let cs = t.nodes[k].children;
                    assert(u.nodes[k].children == cs.filter(f2));
                    assert(cs.filter(f2)[j] == c);
                    assert(cs.filter(f2).contains(c));
                    cs.lemma_filter_contains_rev(f2, c);
                    let jj = choose|jj: int| 0 <= jj < cs.len() && cs[jj] == c;
                    assert(t.nodes[k].children[jj] == c);
                    assert(child_ok(t, k, c));
                    if u.nodes.contains_key(c) {
                        assert(t.nodes.contains_key(c));
                    }
                }
                assert forall|i: int|
                    #![trigger u.roots[i]]
                    0 <= i < u.roots.len() implies u.roots[i] < u.next_id && (u.nodes.contains_key(
                        u.roots[i],
                    ) ==> u.nodes[u.roots[i]].depth == 0) by {
                    let r = u.roots[i];
                    assert(u.roots == t.roots.filter(f2));
                    assert(t.roots.filter(f2)[i] == r);
                    assert(t.roots.filter(f2).contains(r));
                    t.roots.lemma_filter_contains_rev(f2, r);
                    let ii = choose|ii: int| 0 <= ii < t.roots.len() && t.roots[ii] == r;
                    assert(t.roots[ii] == r);
                    if u.nodes.contains_key(r) {
                        assert(t.nodes.contains_key(r));
                    }
                }
            }
        }
    }
}

impl PrimeTree {
    /// Searches for the members associated with a term, by prefix.
    pub fn search(&self, term: &str) -> (r: RoaringBitmap)
        requires
            self.wf(),
        ensures
            bitmap_members(r) == search_spec(self@, term@),
    {
        let ghost t = self@;
        let mut prefix = term.to_owned();
        push_char(&mut prefix, ':');
        proof {
            reveal_strlit(":");
            assert(prefix@ =~= term@ + ":"@);
        }
        let mut result = bm_new();
        let mut i: usize = 0;
        while i < self.root_ids.len()
            invariant
                self.wf(),
                t == self@,
                prefix@ == term@ + ":"@,
                i <= self.root_ids@.len(),
                bitmap_members(result) == Set::new(
                    |m: u32|
                        exists|a: int|
                            0 <= a < i && root_matches(t, term@, t.roots[a]) && #[trigger] members_under(
                                t.nodes,
                                t.roots[a],
                            ).contains(m),
                ),
            decreases self.root_ids.len() - i,
        {
            let id = self.root_ids[i];
            let ghost prev = bitmap_members(result);
            let mut hit = false;
            match self.nodes.get(&id) {
                Some(n) => {
                    proof {
                        assert(t.nodes[id] == node_view(*n));
                    }
                    let tc = chars_of(n.term.as_str());
                    hit = str_eq(n.term.as_str(), term) || starts_with(tc.as_slice(), prefix.as_str());
                },
                None => {},
            }
            proof {
                assert(t.roots[i as int] == id);
                reveal_strlit(":");
                assert(hit == root_matches(t, term@, id));
            }
            if hit {
                let sub = self.collect_members(id);
                bm_union_with(&mut result, &sub);
            }
            proof {
                let s1 = Set::new(
                    |m: u32|
                        exists|a: int|
                            0 <= a < i + 1 && root_matches(t, term@, t.roots[a]) && #[trigger] members_under(
                                t.nodes,
                                t.roots[a],
                            ).contains(m),
                );
                assert forall|m: u32| #[trigger] s1.contains(m) == bitmap_members(result).contains(m) by {
                    if s1.contains(m) {
                        let a = choose|a: int|
                            0 <= a < i + 1 && root_matches(t, term@, t.roots[a]) && #[trigger] members_under(
                                t.nodes,
                                t.roots[a],
                            ).contains(m);
                        if a < i {
                            assert(prev.contains(m));
                        }
                    }
                    if bitmap_members(result).contains(m) && !prev.contains(m) {
                        assert(members_under(t.nodes, t.roots[i as int]).contains(m));
                    }
                }
                assert(bitmap_members(result) =~= s1);
            }
            i = i + 1;
        }
        let ghost r1 = bitmap_members(result);
        proof {
            assert(r1 =~= root_hits(t, term@));
        }
        let keys = crate::graph::keys_of(&self.nodes);
        let mut i: usize = 0;
        while i < keys.len()
            invariant
                self.wf(),
                t == self@,
                keys@.to_set() == self.nodes@.dom(),
                r1 == root_hits(t, term@),
                i <= keys@.len(),
                r1 == Set::<u32>::empty() ==> bitmap_members(result) == r1,
                r1 != Set::<u32>::empty() ==> bitmap_members(result) == r1.union(
                    Set::new(
                        |m: u32|
                            exists|a: int|
                                0 <= a < i && seq_starts_with(t.nodes[keys@[a]].term, term@) && #[trigger] members_under(
                                    t.nodes,
                                    t.nodes[keys@[a]].id,
                                ).contains(m),
                    ),
                ),
            decreases keys.len() - i,
        {
            let k = keys[i];
            proof {
                assert(keys@.to_set().contains(k));
            }
            let ghost prev = bitmap_members(result);
            match self.nodes.get(&k) {
                Some(n) => {
                    proof {
                        assert(t.nodes[k] == node_view(*n));
                    }
                    let tc = chars_of(n.term.as_str());
                    if starts_with(tc.as_slice(), term) && !bm_is_empty(&result) {
                        let sub = self.collect_members(n.id);
                        bm_union_with(&mut result, &sub);
                    }
                    proof {
                        if r1 != Set::<u32>::empty() {
                            assert(prev != Set::<u32>::empty()) by {
                                assert(exists|m: u32| r1.contains(m)) by {
                                    if !(exists|m: u32| r1.contains(m)) {
                                        assert(r1 =~= Set::<u32>::empty());
                                    }
                                }
                                let m = choose|m: u32| r1.contains(m);
                                assert(prev.contains(m));
                            }
                            let s1 = Set::new(
                                |m: u32|
                                    exists|a: int|
                                        0 <= a < i + 1 && seq_starts_with(t.nodes[keys@[a]].term, term@)
                                            && #[trigger] members_under(t.nodes, t.nodes[keys@[a]].id).contains(m),
                            );
                            let s0 = Set::new(
                                |m: u32|
                                    exists|a: int|
                                        0 <= a < i && seq_starts_with(t.nodes[keys@[a]].term, term@)
                                            && #[trigger] members_under(t.nodes, t.nodes[keys@[a]].id).contains(m),
                            );
                            assert forall|m: u32| #[trigger] r1.union(s1).contains(m) == bitmap_members(result).contains(m) by {
                                if s1.contains(m) {
                                    let a = choose|a: int|
                                        0 <= a < i + 1 && seq_starts_with(t.nodes[keys@[a]].term, term@)
                                            && #[trigger] members_under(t.nodes, t.nodes[keys@[a]].id).contains(m);
                                    if a < i {
                                        assert(s0.contains(m));
                                    }
                                }
                                if bitmap_members(result).contains(m) && !prev.contains(m) {
                                    assert(members_under(t.nodes, t.nodes[keys@[i as int]].id).contains(m));
                                }
                                if prev.contains(m) && !r1.contains(m) {
                                    assert(s0.contains(m));
                                    let a = choose|a: int|
                                        0 <= a < i && seq_starts_with(t.nodes[keys@[a]].term, term@)
                                            && #[trigger] members_under(t.nodes, t.nodes[keys@[a]].id).contains(m);
                                    assert(0 <= a < i + 1);
                                }
                            }
                            assert(bitmap_members(result) =~= r1.union(s1));
                        }
                    }
                },
                None => {
                    proof {
                        assert(false);
                    }
                },
            }
            i = i + 1;
        }
        proof {
            if r1 != Set::<u32>::empty() {
                let s = Set::new(
                    |m: u32|
                        exists|a: int|
                            0 <= a < keys@.len() && seq_starts_with(t.nodes[keys@[a]].term, term@)
                                && #[trigger] members_under(t.nodes, t.nodes[keys@[a]].id).contains(m),
                );
                assert forall|m: u32| #[trigger] s.contains(m) == prefix_hits(t, term@).contains(m) by {
                    if prefix_hits(t, term@).contains(m) {
                        let k = choose|k: u64|
                            t.nodes.contains_key(k) && seq_starts_with(t.nodes[k].term, term@)
                                && #[trigger] members_under(t.nodes, t.nodes[k].id).contains(m);
                        assert(keys@.to_set().contains(k));
                        let a = choose|a: int| 0 <= a < keys@.len() && keys@[a] == k;
                        assert(members_under(t.nodes, t.nodes[keys@[a]].id).contains(m));
                    }
                    if s.contains(m) {
                        let a = choose|a: int|
                            0 <= a < keys@.len() && seq_starts_with(t.nodes[keys@[a]].term, term@)
                                && #[trigger] members_under(t.nodes, t.nodes[keys@[a]].id).contains(m);
                        assert(keys@.to_set().contains(keys@[a]));
                    }
                }
                assert(s =~= prefix_hits(t, term@));
            }
            assert(bitmap_members(result) =~= search_spec(t, term@));
        }
        result
    }
}

/// Merging a node keeps exactly the members that were under it.
pub proof fn merge_keeps_members(t: TreeView, id: u64)
    requires
        t.nodes.contains_key(id),
    ensures
        merge_view(t, id).nodes.contains_key(id) ==> members_under(merge_view(t, id).nodes, id)
            == members_under(t.nodes, id),
        merge_view(t, id).nodes.contains_key(id) ==> merge_view(t, id).nodes[id].children.len() == 0,
{
    let u = merge_view(t, id);
    if u.nodes.contains_key(id) {
        let f = depth_fuel(u.nodes, id);
        assert(children_union(u.nodes, u.nodes[id].children, f) =~= Set::<u32>::empty());
        assert(members_under(u.nodes, id) =~= members_under(t.nodes, id));
    }
}

/// After a memory is removed, no node holds it.
pub proof fn removed_member_is_gone(t: TreeView, mid: u32)
    ensures
        !all_members(remove_member_view(t, mid).nodes).contains(mid),
{
    let u = remove_member_view(t, mid);
    if all_members(u.nodes).contains(mid) {
        let k = choose|k: u64| u.nodes.contains_key(k) && #[trigger] u.nodes[k].members.contains(mid);
        assert(!u.nodes[k].members.contains(mid));
    }
}

proof fn lemma_children_union_contains(nodes: Map<u64, NodeView>, cs: Seq<u64>, f: nat, k: int, m: u32)
    requires
        0 <= k < cs.len(),
        f > 0,
        subtree(nodes, cs[k], (f - 1) as nat).contains(m),
    ensures
        children_union(nodes, cs, f).contains(m),
    decreases cs.len(),
{
    if k < cs.len() - 1 {
        assert(cs.drop_last()[k] == cs[k]);
        lemma_children_union_contains(nodes, cs.drop_last(), f, k, m);
    }
}

proof fn lemma_route_in_subtree(nodes: Map<u64, NodeView>, id: u64, mid: u32, f: nat)
    requires
        nodes.contains_key(id),
    ensures
        nodes.contains_key(route(nodes, id, mid, f)),
        subtree(with_member(nodes, route(nodes, id, mid, f), mid), id, f).contains(mid),
    decreases f,
{
    let tgt = route(nodes, id, mid, f);
    let w = with_member(nodes, tgt, mid);
    if nodes[id].children.len() == 0 {
        assert(w[id].members.contains(mid));
    } else {
        let cs = nodes[id].children;
        let cp: u64 = if nodes.contains_key(cs[0]) { nodes[cs[0]].prime } else { 2 };
        let suf = bucket_suffix(((mid as u64) % cp) as nat);
        lemma_first_suffixed(nodes, cs, suf, 0);
        match first_suffixed(nodes, cs, suf, 0) {
            Some(c) => {
                if f > 0 {
                    lemma_route_in_subtree(nodes, c, mid, (f - 1) as nat);
                    let k = choose|k: int| 0 <= k < cs.len() && cs[k] == c;
                    assert(w[id].children == cs);
                    lemma_children_union_contains(w, cs, f, k, mid);
                } else {
                    assert(w[id].members.contains(mid));
                }
            },
            None => {
                assert(w[id].members.contains(mid));
            },
        }
    }
}

proof fn lemma_used_upto_contains(ms: Set<u32>, cp: u64, n: nat, b: u64)
    requires
        b < n,
        bucket_used(ms, cp, b),
    ensures
        used_upto(ms, cp, n).contains(b),
    decreases n,
{
    if b < n - 1 {
        lemma_used_upto_contains(ms, cp, (n - 1) as nat, b);
        let j = choose|j: int| 0 <= j < used_upto(ms, cp, (n - 1) as nat).len() && #[trigger] used_upto(ms, cp, (n - 1) as nat)[j] == b;
        if bucket_used(ms, cp, (n - 1) as u64) {
            assert(used_upto(ms, cp, n)[j] == b);
        }
    } else {
        assert(used_upto(ms, cp, n).last() == b);
    }
}

proof fn lemma_kids_union(t: TreeView, id: u64, f: nat, j: nat)
    requires
        t.well_formed(),
        t.next_id + 64 <= u64::MAX,
        splits(t, id),
        f > 0,
        j <= used_upto(t.nodes[id].members, prime_at(t.nodes[id].depth + 1), prime_at(t.nodes[id].depth + 1) as nat).len(),
    ensures
        ({
            let n = t.nodes[id];
            let cp = prime_at(n.depth + 1);
            let bs = used_upto(n.members, cp, cp as nat);
            let u = split_view(t, id);
            children_union(u.nodes, u.nodes[id].children.take(j as int), f) == n.members.filter(
                |m: u32| exists|a: int| 0 <= a < j && (m as u64) % cp == #[trigger] bs[a],
            )
        }),
    decreases j,
{
    let n = t.nodes[id];
    let cp = prime_at(n.depth + 1);
    let bs = used_upto(n.members, cp, cp as nat);
    let u = split_view(t, id);
    let kids = u.nodes[id].children;
    if j == 0 {
        assert(kids.take(0) =~= Seq::<u64>::empty());
        assert(n.members.filter(|m: u32| exists|a: int| 0 <= a < j && (m as u64) % cp == #[trigger] bs[a])
            =~= Set::<u32>::empty());
    } else {
        lemma_kids_union(t, id, f, (j - 1) as nat);
        lemma_used_upto_len(n.members, cp, cp as nat);
        assert(cp <= 53);
        assert(kids.take(j as int).drop_last() =~= kids.take(j - 1));
        let c = kids[j - 1];
        assert(kids.take(j as int).last() == c);
        assert(c == t.next_id + (j - 1));
        assert(u.nodes.contains_key(c));
        assert(u.nodes[c] == bucket_child(n, cp, bs[j - 1], c));
        assert(children_union(u.nodes, u.nodes[c].children, (f - 1) as nat) =~= Set::<u32>::empty());
        assert(subtree(u.nodes, c, (f - 1) as nat) =~= n.members.filter(|m: u32| (m as u64) % cp == bs[j - 1]));
        assert(children_union(u.nodes, kids.take(j as int), f) =~= n.members.filter(
            |m: u32| exists|a: int| 0 <= a < j && (m as u64) % cp == #[trigger] bs[a],
        ));
    }
}

/// Splitting a leaf keeps exactly the members under it.
pub proof fn split_keeps_members(t: TreeView, id: u64)
    requires
        t.well_formed(),
        t.next_id + 64 <= u64::MAX,
        t.nodes.contains_key(id),
        t.nodes[id].children.len() == 0,
        t.nodes[id].depth < u32::MAX,
    ensures
        split_view(t, id).nodes.contains_key(id),
        members_under(split_view(t, id).nodes, id) == members_under(t.nodes, id),
{
    let n = t.nodes[id];
    let f = depth_fuel(t.nodes, id);
    assert(children_union(t.nodes, n.children, f) =~= Set::<u32>::empty());
    if splits(t, id) {
        let cp = prime_at(n.depth + 1);
        let bs = used_upto(n.members, cp, cp as nat);
        let u = split_view(t, id);
        let kids = u.nodes[id].children;
        lemma_used_upto_len(n.members, cp, cp as nat);
        assert(depth_fuel(u.nodes, id) == f);
        lemma_kids_union(t, id, f, bs.len());
        assert(kids.take(bs.len() as int) =~= kids);
        assert forall|m: u32| n.members.contains(m) implies (exists|a: int|
            0 <= a < bs.len() && (m as u64) % cp == #[trigger] bs[a]) by {
            assert(cp >= 2) by {
                assert(prime_at(n.depth + 1) >= 2);
            }
            let b = ((m as u64) % cp) as u64;
            assert(bucket_used(n.members, cp, b));
            lemma_used_upto_contains(n.members, cp, cp as nat, b);
        }
        assert(members_under(u.nodes, id) =~= members_under(t.nodes, id));
    }
}

proof fn lemma_first_root_same(a: TreeView, b: TreeView, term: Seq<char>, i: nat)
    requires
        a.roots == b.roots,
        forall|j: int|
            0 <= j < a.roots.len() ==> (a.nodes.contains_key(#[trigger] a.roots[j]) == b.nodes.contains_key(
                a.roots[j],
            )) && (a.nodes.contains_key(a.roots[j]) ==> a.nodes[a.roots[j]].term == b.nodes[a.roots[j]].term),
    ensures
        first_root(a, term, i) == first_root(b, term, i),
    decreases a.roots.len() - i,
{
    if i < a.roots.len() {
        lemma_first_root_same(a, b, term, i + 1);
    }
}

proof fn lemma_first_root_new(t: TreeView, term: Seq<char>, i: nat)
    requires
        t.well_formed(),
        i <= t.roots.len(),
        root_for(t, term) is None,
        first_root(t, term, i) is None,
    ensures
        first_root(with_new_root(t, term), term, i) == Some(t.next_id),
    decreases t.roots.len() - i,
{
    let t1 = with_new_root(t, term);
    if i < t.roots.len() {
        assert(t1.roots[i as int] == t.roots[i as int]);
        assert(t.roots[i as int] < t.next_id);
        lemma_first_root_new(t, term, i + 1);
    } else {
        assert(t1.roots[i as int] == t.next_id);
    }
}

proof fn lemma_new_root_wf(t: TreeView, term: Seq<char>)
    requires
        t.well_formed(),
        t.next_id < u64::MAX,
    ensures
        with_new_root(t, term).well_formed(),
{
    let u = with_new_root(t, term);
    assert forall|k: u64, j: int|
        #![trigger u.nodes[k].children[j]]
        u.nodes.contains_key(k) && 0 <= j < u.nodes[k].children.len() implies child_ok(u, k, u.nodes[k].children[j]) by {
        assert(k != t.next_id);
        assert(t.nodes.contains_key(k));
        assert(child_ok(t, k, t.nodes[k].children[j]));
    }
    assert forall|i: int| #![trigger u.roots[i]] 0 <= i < u.roots.len() implies u.roots[i] < u.next_id && (
    u.nodes.contains_key(u.roots[i]) ==> u.nodes[u.roots[i]].depth == 0) by {
        if i < t.roots.len() {
            assert(u.roots[i] == t.roots[i]);
        }
    }
    assert forall|k: u64| #[trigger] u.nodes.contains_key(k) implies u.nodes[k].id == k && k < u.next_id
        && u.nodes[k].prime > 0 by {
        if k != t.next_id {
            assert(t.nodes.contains_key(k));
        }
    }
}

/// An inserted memory is found by an exact search for its term: after
/// `insert`, the term has a root and the memory is among the members under
/// it.
pub proof fn insert_then_search_exact_finds(t: TreeView, term: Seq<char>, mid: u32)
    requires
        t.well_formed(),
        t.next_id + 65 <= u64::MAX,
    ensures
        ({
            let u = insert_view(t, term, mid);
            root_for(u, term) matches Some(id) && members_under(u.nodes, id).contains(mid)
        }),
{
    let (t1, id) = root_made(t, term);
    lemma_first_root(t, term, 0);
    if root_for(t, term) is None {
        lemma_first_root_new(t, term, 0);
        lemma_new_root_wf(t, term);
    } else {
        let k = choose|k: int| 0 <= k < t.roots.len() && t.roots[k] == id;
        assert(t.roots[k] == id);
    }
    assert(t1.well_formed());
    assert(root_for(t1, term) == Some(id));
    assert(t1.nodes.contains_key(id));
    assert(t1.nodes[id].depth == 0);
    let tgt = route(t1.nodes, id, mid, depth_fuel(t1.nodes, id));
    lemma_route_in_subtree(t1.nodes, id, mid, depth_fuel(t1.nodes, id));
    let t2 = TreeView { nodes: with_member(t1.nodes, tgt, mid), roots: t1.roots, next_id: t1.next_id };
    assert(depth_fuel(t2.nodes, id) == depth_fuel(t1.nodes, id));
    assert(members_under(t2.nodes, id).contains(mid));
    assert(t2.nodes.dom() =~= t1.nodes.dom());
    lemma_wf_members_only(t1, t2);
    lemma_first_root_same(t1, t2, term, 0);
    let u = insert_view(t, term, mid);
    if overfull(t2, id) {
        split_keeps_members(t2, id);
        assert(u == split_view(t2, id));
        if splits(t2, id) {
            let n = t2.nodes[id];
            let cp = prime_at(n.depth + 1);
            lemma_used_upto_len(n.members, cp, cp as nat);
            assert forall|j: int| 0 <= j < t2.roots.len() implies (t2.nodes.contains_key(#[trigger] t2.roots[j])
                == u.nodes.contains_key(t2.roots[j])) && (t2.nodes.contains_key(t2.roots[j])
                ==> t2.nodes[t2.roots[j]].term == u.nodes[t2.roots[j]].term) by {
                assert(t2.roots[j] < t2.next_id);
            }
            lemma_first_root_same(t2, u, term, 0);
        }
    } else {
        assert(u == t2);
    }
}

} // verus!
