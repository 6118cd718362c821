//! Graph storage with a fixed, densely-indexed node set: nodes are the
//! integers `0 .. node_count`, and each node owns a sorted list of outgoing
//! edges. The adjacency structure is abstracted as `Seq<Seq<Edge>>`, and all
//! traversal contracts are stated over that view.

#![verifier::loop_isolation(false)]

use vstd::prelude::*;

use crate::tracker::NodeTrackState;
use crate::tracker::StaticTracker;

verus! {

/// Whether an inserted edge is mirrored at its target.
#[derive(Clone, Copy, PartialEq, Eq, Structural, Debug)]
pub enum GraphType {
    Directed,
    Undirected,
}

/// One outgoing edge: its target node and its weight.
#[derive(Clone, Copy, PartialEq, Eq, Structural, Debug)]
pub struct Edge {
    pub to: usize,
    pub weight: u64,
}

/// The mathematical model of a graph: one edge list per node.
pub type GraphView = Seq<Seq<Edge>>;

/// Edge lists are strictly sorted by target, so each target occurs at most once.
pub open spec fn edges_sorted(edges: Seq<Edge>) -> bool {
    forall|i: int, j: int|
        0 <= i < j < edges.len() ==> #[trigger] edges[i].to < #[trigger] edges[j].to
}

/// Some edge in the list points at `to`.
pub open spec fn has_edge_to(edges: Seq<Edge>, to: int) -> bool {
    exists|j: int| 0 <= j < edges.len() && (#[trigger] edges[j]).to == to
}

/// Position of the edge pointing at `to` (unique when the list is sorted).
pub open spec fn edge_to_index(edges: Seq<Edge>, to: int) -> int {
    choose|j: int| 0 <= j < edges.len() && (#[trigger] edges[j]).to == to
}

/// The weight recorded for target `to`, if the node has such an edge.
pub open spec fn node_edge_weight(edges: Seq<Edge>, to: int) -> Option<u64> {
    if has_edge_to(edges, to) {
        Some(edges[edge_to_index(edges, to)].weight)
    } else {
        None
    }
}

/// Every edge list is sorted and every edge target is a real node.
pub open spec fn graph_wf(g: GraphView) -> bool {
    &&& forall|i: int| 0 <= i < g.len() ==> edges_sorted(#[trigger] g[i])
    &&& forall|i: int, j: int|
        0 <= i < g.len() && 0 <= j < g[i].len() ==> (#[trigger] g[i][j]).to < g.len()
}

/// The graph has an edge from `from` to `to`.
pub open spec fn spec_is_edge(g: GraphView, from: int, to: int) -> bool {
    &&& 0 <= from < g.len()
    &&& has_edge_to(g[from], to)
}

/// The weight of the edge from `from` to `to`, if it exists.
pub open spec fn spec_edge_weight(g: GraphView, from: int, to: int) -> Option<u64> {
    if 0 <= from < g.len() {
        node_edge_weight(g[from], to)
    } else {
        None
    }
}

/// In a sorted edge list the index of each target is unique, so the chosen
/// index of `edges[j].to` is `j` itself.
pub proof fn lemma_sorted_edge_index(edges: Seq<Edge>, j: int)
    requires
        edges_sorted(edges),
        0 <= j < edges.len(),
    ensures
        has_edge_to(edges, edges[j].to as int),
        edge_to_index(edges, edges[j].to as int) == j,
        node_edge_weight(edges, edges[j].to as int) == Some(edges[j].weight),
{
    let t = edges[j].to as int;
    assert(has_edge_to(edges, t));
    let j2 = edge_to_index(edges, t);
    assert(0 <= j2 < edges.len() && edges[j2].to == t);
    if j2 < j {
        assert(edges[j2].to < edges[j].to);
    } else if j < j2 {
        assert(edges[j].to < edges[j2].to);
    }
}

/// Every consecutive pair of nodes on the path is an edge of the graph. The
/// empty path and single-node paths are trivially valid.
pub open spec fn node_path_valid(g: GraphView, path: Seq<usize>) -> bool {
    forall|i: int|
        1 <= i < path.len() ==> #[trigger] spec_is_edge(g, path[i - 1] as int, path[i] as int)
}

/// `path` is a non-empty walk through the graph from `s` to `d`.
pub open spec fn is_path_between(g: GraphView, path: Seq<usize>, s: usize, d: usize) -> bool {
    &&& path.len() >= 1
    &&& node_path_valid(g, path)
    &&& forall|i: int| 0 <= i < path.len() ==> (#[trigger] path[i]) < g.len()
    &&& path[0] == s
    &&& path.last() == d
}

/// `d` can be reached from `s` by following edges. A node reaches itself by
/// the one-node walk, so this requires `s` to be a node of the graph.
pub open spec fn spec_reachable(g: GraphView, s: usize, d: usize) -> bool {
    exists|path: Seq<usize>| is_path_between(g, path, s, d)
}

/// A node of the graph reaches itself.
pub proof fn lemma_reachable_refl(g: GraphView, s: usize)
    requires
        s < g.len(),
    ensures
        spec_reachable(g, s, s),
{
    let path = seq![s];
    assert(is_path_between(g, path, s, s));
}

/// A walk can be extended across one more edge.
pub proof fn lemma_path_extend(g: GraphView, path: Seq<usize>, s: usize, p: usize, d: usize)
    requires
        is_path_between(g, path, s, p),
        spec_is_edge(g, p as int, d as int),
        d < g.len(),
    ensures
        is_path_between(g, path.push(d), s, d),
{
    let ext = path.push(d);
    assert(ext.last() == d);
    assert forall|i: int| 1 <= i < ext.len() implies #[trigger] spec_is_edge(
        g,
        ext[i - 1] as int,
        ext[i] as int,
    ) by {
        if i < path.len() {
            assert(spec_is_edge(g, path[i - 1] as int, path[i] as int));
        } else {
            assert(ext[i - 1] == path.last());
        }
    }
}

/// Reachability extends across a single edge.
pub proof fn lemma_reachable_step(g: GraphView, s: usize, p: usize, d: usize)
    requires
        spec_reachable(g, s, p),
        spec_is_edge(g, p as int, d as int),
        d < g.len(),
    ensures
        spec_reachable(g, s, d),
{
    let path = choose|path: Seq<usize>| is_path_between(g, path, s, p);
    lemma_path_extend(g, path, s, p, d);
}

/// Reachability is transitive.
pub proof fn lemma_reachable_trans(g: GraphView, a: usize, b: usize, c: usize)
    requires
        spec_reachable(g, a, b),
        spec_reachable(g, b, c),
    ensures
        spec_reachable(g, a, c),
{
    let p1 = choose|path: Seq<usize>| is_path_between(g, path, a, b);
    let p2 = choose|path: Seq<usize>| is_path_between(g, path, b, c);
    let joined = p1 + p2.subrange(1, p2.len() as int);
    assert(joined.len() == p1.len() + p2.len() - 1);
    assert(forall|i: int| 0 <= i < p1.len() ==> joined[i] == #[trigger] p1[i]);
    assert(forall|i: int| p1.len() <= i < joined.len() ==> joined[i] == #[trigger] p2[i - p1.len() + 1]);
    assert(joined[0] == a);
    assert(joined.last() == (if p2.len() == 1 { p1.last() } else { p2.last() }));
    assert forall|i: int| 1 <= i < joined.len() implies #[trigger] spec_is_edge(
        g,
        joined[i - 1] as int,
        joined[i] as int,
    ) by {
        if i < p1.len() {
            assert(spec_is_edge(g, p1[i - 1] as int, p1[i] as int));
        } else if i == p1.len() {
            assert(joined[i - 1] == p1.last() && p1.last() == b && p2[0] == b);
            assert(joined[i] == p2[1]);
            let i2: int = 1;
            assert(spec_is_edge(g, p2[i2 - 1] as int, p2[i2] as int));
        } else {
            assert(joined[i - 1] == p2[i - p1.len()] && joined[i] == p2[i - p1.len() + 1]);
            let i2: int = i - p1.len() + 1;
            assert(spec_is_edge(g, p2[i2 - 1] as int, p2[i2] as int));
        }
    }
    assert forall|i: int| 0 <= i < joined.len() implies (#[trigger] joined[i]) < g.len() by {
        if i < p1.len() {
            assert(p1[i] < g.len());
        } else {
            assert(p2[i - p1.len() + 1] < g.len());
        }
    }
    assert(is_path_between(g, joined, a, c));
}

/// The nodes marked in `seen` are closed under following edges: every edge
/// out of a marked node leads to a marked node.
pub open spec fn closed_under_edges(g: GraphView, seen: Seq<bool>) -> bool {
    forall|x: usize, y: usize|
        x < g.len() && seen[x as int] && #[trigger] spec_is_edge(g, x as int, y as int)
            ==> seen[y as int]
}

/// A set of marked nodes that contains `s` and is closed under following
/// edges contains every node reachable from `s`.
pub proof fn lemma_reach_in_closed(g: GraphView, seen: Seq<bool>, path: Seq<usize>, s: usize, d: usize)
    requires
        seen.len() == g.len(),
        seen[s as int],
        closed_under_edges(g, seen),
        is_path_between(g, path, s, d),
    ensures
        seen[d as int],
    decreases path.len(),
{
    if path.len() == 1 {
        assert(d == s);
    } else {
        let pre = path.drop_last();
        let p = path[path.len() - 2];
        assert(pre.last() == p);
        assert forall|i: int| 1 <= i < pre.len() implies #[trigger] spec_is_edge(
            g,
            pre[i - 1] as int,
            pre[i] as int,
        ) by {
            assert(spec_is_edge(g, path[i - 1] as int, path[i] as int));
        }
        assert(is_path_between(g, pre, s, p));
        lemma_reach_in_closed(g, seen, pre, s, p);
        assert(spec_is_edge(g, path[path.len() - 2] as int, path[path.len() - 1] as int));
        assert(path.last() == d);
    }
}

/// A node of the graph: the index of the node in the graph's node list is its
/// identity, and the node stores its outgoing edges sorted by target.
pub struct StaticNode {
    edges: Vec<Edge>,
}

impl View for StaticNode {
    type V = Seq<Edge>;

    closed spec fn view(&self) -> Seq<Edge> {
        self.edges@
    }
}

impl StaticNode {
    /// A node with no edges yet.
    pub fn new() -> (node: Self)
        ensures
            node@ == Seq::<Edge>::empty(),
    {
        StaticNode { edges: Vec::new() }
    }

    /// Record an edge to `neighbor`, replacing the weight if the edge already
    /// exists, and keeping the edge list sorted by target.
    pub fn add_edge(&mut self, neighbor: usize, weight: u64)
        requires
            edges_sorted(old(self)@),
        ensures
            edges_sorted(final(self)@),
            final(self)@.len() <= old(self)@.len() + 1,
            forall|t: int|
                node_edge_weight(final(self)@, t) == (if t == neighbor {
                    Some(weight)
                } else {
                    node_edge_weight(old(self)@, t)
                }),
    {
        let mut i: usize = 0;
        while i < self.edges.len() && self.edges[i].to < neighbor
            invariant
                i <= self.edges.len(),
                forall|k: int| 0 <= k < i ==> (#[trigger] self.edges@[k]).to < neighbor,
                self == old(self),
            decreases self.edges.len() - i,
        {
            i = i + 1;
        }
        let ghost pre = self.edges@;
        if i < self.edges.len() && self.edges[i].to == neighbor {
            self.edges.set(i, Edge { to: neighbor, weight });
            proof {
                let post = self.edges@;
                assert forall|t: int| node_edge_weight(post, t) == (if t == neighbor {
                    Some(weight)
                } else {
                    node_edge_weight(pre, t)
                }) by {
                    if t == neighbor {
                        lemma_sorted_edge_index(post, i as int);
                    } else {
                        if has_edge_to(post, t) {
                            let j = edge_to_index(post, t);
                            assert(0 <= j < post.len() && post[j].to == t);
                            assert(pre[j].to == t);
                            lemma_sorted_edge_index(post, j);
                            lemma_sorted_edge_index(pre, j);
                        }
                        if has_edge_to(pre, t) {
                            let j = edge_to_index(pre, t);
                            assert(0 <= j < pre.len() && pre[j].to == t);
                            assert(post[j].to == t);
                        }
                    }
                }
            }
        } else {
            self.edges.insert(i, Edge { to: neighbor, weight });
            proof {
                let post = self.edges@;
                assert(post.len() == pre.len() + 1);
                assert(forall|k: int| 0 <= k < i ==> post[k] == pre[k]);
                assert(forall|k: int| i < k < post.len() ==> post[k] == pre[k - 1]);
                assert(post[i as int].to == neighbor);
                assert forall|a: int, b: int| 0 <= a < b < post.len() implies post[a].to
                    < post[b].to by {
                    if i < pre.len() {
                        assert(pre[i as int].to > neighbor || pre[i as int].to == neighbor);
                        assert(pre[i as int].to != neighbor);
                    }
                }
                assert(edges_sorted(post));
                assert forall|t: int| node_edge_weight(post, t) == (if t == neighbor {
                    Some(weight)
                } else {
                    node_edge_weight(pre, t)
                }) by {
                    if t == neighbor {
                        lemma_sorted_edge_index(post, i as int);
                    } else {
                        if has_edge_to(post, t) {
                            let j = edge_to_index(post, t);
                            assert(0 <= j < post.len() && post[j].to == t);
                            assert(j != i);
                            let j0 = if j < i { j } else { j - 1 };
                            assert(pre[j0].to == t);
                            lemma_sorted_edge_index(post, j);
                            lemma_sorted_edge_index(pre, j0);
                        }
                        if has_edge_to(pre, t) {
                            let j0 = edge_to_index(pre, t);
                            assert(0 <= j0 < pre.len() && pre[j0].to == t);
                            let j = if j0 < i { j0 } else { j0 + 1 };
                            assert(post[j].to == t);
                        }
                    }
                }
            }
        }
    }

    /// The targets of this node's edges, in edge-list order.
    pub fn neighbors(&self) -> (targets: Vec<usize>)
        ensures
            targets@.len() == self@.len(),
            forall|j: int| 0 <= j < self@.len() ==> targets@[j] == (#[trigger] self@[j]).to,
    {
        let mut targets: Vec<usize> = Vec::new();
        let mut j: usize = 0;
        while j < self.edges.len()
            invariant
                j <= self.edges.len(),
                targets@.len() == j,
                forall|k: int| 0 <= k < j ==> targets@[k] == (#[trigger] self@[k]).to,
            decreases self.edges.len() - j,
        {
            targets.push(self.edges[j].to);
            j = j + 1;
        }
        targets
    }

    /// Whether this node has an edge to `to`.
    pub fn has_neighbor(&self, to: usize) -> (found: bool)
        ensures
            found == has_edge_to(self@, to as int),
    {
        let mut j: usize = 0;
        while j < self.edges.len()
            invariant
                j <= self.edges.len(),
                forall|k: int| 0 <= k < j ==> (#[trigger] self@[k]).to != to,
            decreases self.edges.len() - j,
        {
            if self.edges[j].to == to {
                return true;
            }
            j = j + 1;
        }
        false
    }

    /// The edge of this node pointing at `to`, if any.
    pub fn edge_to(&self, to: usize) -> (found: Option<Edge>)
        requires
            edges_sorted(self@),
        ensures
            found is Some <==> has_edge_to(self@, to as int),
            found matches Some(e) ==> e.to == to && node_edge_weight(self@, to as int) == Some(
                e.weight,
            ),
    {
        let mut j: usize = 0;
        while j < self.edges.len()
            invariant
                j <= self.edges.len(),
                forall|k: int| 0 <= k < j ==> (#[trigger] self@[k]).to != to,
            decreases self.edges.len() - j,
        {
            if self.edges[j].to == to {
                proof {
                    lemma_sorted_edge_index(self@, j as int);
                }
                return Some(self.edges[j]);
            }
            j = j + 1;
        }
        None
    }
}

/// A graph whose node set is fixed when it is created: node identities are
/// the indices `0 .. node_count`. Whether an inserted edge is mirrored is
/// decided once, by the graph type the graph is created with.
pub struct StaticGraph {
    nodes: Vec<StaticNode>,
    graph_type: GraphType,
}

impl View for StaticGraph {
    type V = GraphView;

    closed spec fn view(&self) -> GraphView {
        self.nodes@.map_values(|node: StaticNode| node@)
    }
}

impl StaticGraph {
    /// The graph type the graph was created with.
    pub closed spec fn spec_graph_type(&self) -> GraphType {
        self.graph_type
    }

    /// A graph with `node_count` nodes and no edges.
    pub fn new(node_count: usize, graph_type: GraphType) -> (g: Self)
        ensures
            g@.len() == node_count,
            forall|i: int| 0 <= i < node_count ==> (#[trigger] g@[i]).len() == 0,
            g.spec_graph_type() == graph_type,
            graph_wf(g@),
    {
        let mut nodes: Vec<StaticNode> = Vec::new();
        let mut i: usize = 0;
        while i < node_count
            invariant
                i <= node_count,
                nodes@.len() == i,
                forall|k: int| 0 <= k < i ==> (#[trigger] nodes@[k])@.len() == 0,
            decreases node_count - i,
        {
            nodes.push(StaticNode::new());
            i = i + 1;
        }
        let g = StaticGraph { nodes, graph_type };
        proof {
            assert(forall|k: int| 0 <= k < node_count ==> g@[k] == (#[trigger] g.nodes@[k])@);
        }
        g
    }

    /// How many nodes the graph has. The node set of this graph is known in
    /// advance, so this is never `None`.
    pub fn num_of_nodes(&self) -> (count: Option<usize>)
        ensures
            count matches Some(n) && n == self@.len(),
    {
        Some(self.nodes.len())
    }

    /// How many nodes the graph has, as a plain count.
    pub fn node_count(&self) -> (count: usize)
        ensures
            count == self@.len(),
    {
        self.nodes.len()
    }

    /// The graph type the graph was created with.
    pub fn graph_type(&self) -> (t: &GraphType)
        ensures
            *t == self.spec_graph_type(),
    {
        &self.graph_type
    }

    /// The node with identity `node_id`, or `None` when there is no such
    /// node. Absence means "the node does not exist", not "the node has no
    /// neighbors".
    pub fn node(&self, node_id: usize) -> (node: Option<&StaticNode>)
        ensures
            match node {
                Some(n) => node_id < self@.len() && n@ == self@[node_id as int],
                None => node_id >= self@.len(),
            },
    {
        if node_id < self.nodes.len() {
            Some(&self.nodes[node_id])
        } else {
            None
        }
    }

    /// Whether the graph has an edge from `from` to `to`. A `from` outside
    /// the node set simply has no edges.
    pub fn is_edge(&self, from: usize, to: usize) -> (r: bool)
        ensures
            r == spec_is_edge(self@, from as int, to as int),
    {
        if from < self.nodes.len() {
            self.nodes[from].has_neighbor(to)
        } else {
            false
        }
    }

    /// The edge from `from` to `to`, if the graph has one.
    pub fn get_edge(&self, from: usize, to: usize) -> (r: Option<Edge>)
        requires
            graph_wf(self@),
        ensures
            r is Some <==> spec_is_edge(self@, from as int, to as int),
            r matches Some(e) ==> e.to == to && spec_edge_weight(self@, from as int, to as int)
                == Some(e.weight),
    {
        if from < self.nodes.len() {
            self.nodes[from].edge_to(to)
        } else {
            None
        }
    }

    /// A fresh visited tracker sized for this graph: one slot per node, all
    /// unseen and without predecessor.
    pub fn visited_tracker(&self) -> (tracker: StaticTracker)
        ensures
            tracker@.len() == self@.len(),
            forall|i: int|
                0 <= i < self@.len() ==> tracker@[i] == (NodeTrackState(false, None::<usize>)),
    {
        StaticTracker::new(self.nodes.len())
    }

    /// Record an edge from `from` to `to`; when the graph is undirected the
    /// mirrored edge is recorded as well. Inserting an edge that already
    /// exists replaces its weight.
    pub fn insert_edge(&mut self, from: usize, to: usize, weight: u64)
        requires
            graph_wf(old(self)@),
            from < old(self)@.len(),
            to < old(self)@.len(),
        ensures
            graph_wf(final(self)@),
            final(self)@.len() == old(self)@.len(),
            final(self).spec_graph_type() == old(self).spec_graph_type(),
            forall|a: int, b: int|
                spec_edge_weight(final(self)@, a, b) == (if (a == from && b == to) || (old(
                    self,
                ).spec_graph_type() == GraphType::Undirected && a == to && b == from) {
                    Some(weight)
                } else {
                    spec_edge_weight(old(self)@, a, b)
                }),
    {
        let ghost pre = self@;
        proof {
            assert(pre[from as int] == self.nodes@[from as int]@);
        }
        self.nodes[from].add_edge(to, weight);
        proof {
            assert(self@ =~= pre.update(from as int, self.nodes@[from as int]@));
            self.lemma_insert_edge_effect(pre, from, to, weight);
        }
        if self.graph_type == GraphType::Undirected {
            let ghost mid = self@;
            proof {
                assert(mid[to as int] == self.nodes@[to as int]@);
            }
            self.nodes[to].add_edge(from, weight);
            proof {
                assert(self@ =~= mid.update(to as int, self.nodes@[to as int]@));
                self.lemma_insert_edge_effect(mid, to, from, weight);
            }
        }
    }

    /// After one row update that records target `to` in row `from`, the
    /// weight map of the whole graph changes at exactly `(from, to)`.
    proof fn lemma_insert_edge_effect(&self, pre: GraphView, from: usize, to: usize, weight: u64)
        requires
            pre.len() > from,
            graph_wf(pre),
            self@.len() == pre.len(),
            forall|i: int| 0 <= i < pre.len() && i != from ==> self@[i] == pre[i],
            edges_sorted(self@[from as int]),
            self@[from as int].len() <= pre[from as int].len() + 1,
            forall|t: int|
                node_edge_weight(self@[from as int], t) == (if t == to {
                    Some(weight)
                } else {
                    node_edge_weight(pre[from as int], t)
                }),
            to < pre.len(),
        ensures
            graph_wf(self@),
            forall|a: int, b: int|
                spec_edge_weight(self@, a, b) == (if a == from && b == to {
                    Some(weight)
                } else {
                    spec_edge_weight(pre, a, b)
                }),
    {
        let post = self@;
        assert forall|i: int| 0 <= i < post.len() implies edges_sorted(#[trigger] post[i]) by {
            if i != from {
                assert(post[i] == pre[i]);
            }
        }
        assert forall|i: int, j: int|
            0 <= i < post.len() && 0 <= j < post[i].len() implies (#[trigger] post[i][j]).to
            < post.len() by {
            if i == from {
                lemma_sorted_edge_index(post[i], j);
                let t = post[i][j].to as int;
                assert(node_edge_weight(post[i], t) is Some);
                if t != to {
                    assert(node_edge_weight(pre[i], t) is Some);
                    let j0 = edge_to_index(pre[i], t);
                    assert(0 <= j0 < pre[i].len() && pre[i][j0].to == t);
                    assert(pre[i][j0].to < pre.len());
                }
            }
        }
        assert forall|a: int, b: int|
            spec_edge_weight(post, a, b) == (if a == from && b == to {
                Some(weight)
            } else {
                spec_edge_weight(pre, a, b)
            }) by {
            if 0 <= a < post.len() {
                if a == from {
                    assert(node_edge_weight(post[a], b) == (if b == to {
                        Some(weight)
                    } else {
                        node_edge_weight(pre[a], b)
                    }));
                }
            }
        }
    }
}

} // verus!
