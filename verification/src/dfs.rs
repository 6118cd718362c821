//! Depth-first search. The recursive form visits nodes depth-first and
//! records every tree edge it takes; predecessor maps and connected
//! components are derived from it. The iterative, stack-based form covers
//! the same reachable set without call-stack recursion.

#![verifier::loop_isolation(false)]

use vstd::prelude::*;
use vstd::seq_lib::*;
use vstd::set_lib::*;

use crate::graph::GraphView;
use crate::graph::StaticGraph;
use crate::graph::closed_under_edges;
use crate::graph::graph_wf;
use crate::graph::is_path_between;
use crate::graph::lemma_reach_in_closed;
use crate::graph::lemma_reachable_refl;
use crate::graph::lemma_reachable_step;
use crate::graph::lemma_reachable_trans;
use crate::graph::spec_is_edge;
use crate::graph::spec_reachable;
use crate::path::chain_ends;
use crate::path::chain_seq;
use crate::path::lemma_chain_props;
use crate::path::lemma_rank_chain_ends;
use crate::path::prev_list_valid;
use crate::tracker::NodeTrackState;
use crate::tracker::count_unseen;
use crate::tracker::lemma_count_unseen_all_false;
use crate::tracker::lemma_count_unseen_mono;
use crate::tracker::lemma_count_unseen_update;
use crate::tracker::seen_flags;

verus! {

/// A seen set over `n` nodes with nothing seen yet.
pub open spec fn no_nodes_seen(n: nat) -> Seq<bool> {
    Seq::new(n, |i: int| false)
}

/// Some edge recorded at position `from_idx` or later has `x` as its child.
pub open spec fn edge_child_in(edges: Seq<(usize, usize)>, from_idx: int, x: int) -> bool {
    exists|k: int| from_idx <= k < edges.len() && (#[trigger] edges[k]).1 == x
}

/// The tree edges recorded from position `from_idx` on by a descent rooted
/// at `root`, against the seen set `seen0` as it was when the descent
/// started: every recorded edge is a real edge, each child was unseen at
/// the start and is recorded only once, and each parent is the root or an
/// earlier child.
pub open spec fn dfs_edges_ok(
    g: GraphView,
    seen0: Seq<bool>,
    root: usize,
    from_idx: int,
    edges: Seq<(usize, usize)>,
) -> bool {
    forall|k: int|
        from_idx <= k < edges.len() ==> {
            let e = #[trigger] edges[k];
            &&& spec_is_edge(g, e.0 as int, e.1 as int)
            &&& e.0 < g.len()
            &&& e.1 < g.len()
            &&& !seen0[e.1 as int]
            &&& e.1 != root
            &&& (forall|k2: int| from_idx <= k2 < k ==> (#[trigger] edges[k2]).1 != e.1)
            &&& (e.0 == root || exists|k2: int|
                from_idx <= k2 < k && (#[trigger] edges[k2]).1 == e.0)
        }
}

/// Recursive depth-first descent: mark `start_node` seen, then visit each
/// unseen neighbor in turn, recording the tree edge taken before descending
/// into the neighbor.
///
/// On return the nodes marked seen have grown by exactly `start_node` and
/// the recorded children; every such new node has all its neighbors seen
/// (nothing reachable was missed) and is reachable from `start_node`.
pub fn dfs_recursive_basic(
    g: &StaticGraph,
    start_node: usize,
    seen: &mut Vec<bool>,
    tree_edges: &mut Vec<(usize, usize)>,
)
    requires
        graph_wf(g@),
        start_node < g@.len(),
        old(seen)@.len() == g@.len(),
        !old(seen)@[start_node as int],
    ensures
        final(seen)@.len() == g@.len(),
        forall|x: int| 0 <= x < g@.len() && old(seen)@[x] ==> #[trigger] final(seen)@[x],
        final(seen)@[start_node as int],
        old(tree_edges)@.is_prefix_of(final(tree_edges)@),
        dfs_edges_ok(g@, old(seen)@, start_node, old(tree_edges)@.len() as int, final(tree_edges)@),
        forall|x: int|
            0 <= x < g@.len() ==> ((#[trigger] final(seen)@[x]) <==> (old(seen)@[x] || x
                == start_node as int || edge_child_in(
                final(tree_edges)@,
                old(tree_edges)@.len() as int,
                x,
            ))),
        forall|x: int, y: int|
            0 <= x < g@.len() && 0 <= y < g@.len() && (#[trigger] final(seen)@[x]) && !old(seen)@[x]
                && #[trigger] spec_is_edge(g@, x, y) ==> final(seen)@[y],
        forall|x: int|
            0 <= x < g@.len() && (#[trigger] final(seen)@[x]) && !old(seen)@[x] ==> spec_reachable(
                g@,
                start_node,
                x as usize,
            ),
    decreases count_unseen(old(seen)@),
{
    let ghost seen0 = seen@;
    let ghost e0 = tree_edges@.len() as int;
    seen.set(start_node, true);
    proof {
        lemma_count_unseen_update(seen0, start_node as int);
        lemma_reachable_refl(g@, start_node);
    }
    let node = g.node(start_node).unwrap();
    let nbrs = node.neighbors();
    let ghost row = g@[start_node as int];
    let mut j: usize = 0;
    while j < nbrs.len()
        invariant
            j <= nbrs@.len(),
            nbrs@.len() == row.len(),
            forall|k: int| 0 <= k < row.len() ==> nbrs@[k] == (#[trigger] row[k]).to,
            seen@.len() == g@.len(),
            forall|x: int| 0 <= x < g@.len() && seen0[x] ==> #[trigger] seen@[x],
            seen@[start_node as int],
            tree_edges@.len() >= e0,
            forall|k: int| 0 <= k < e0 ==> tree_edges@[k] == old(tree_edges)@[k],
            dfs_edges_ok(g@, seen0, start_node, e0, tree_edges@),
            forall|x: int|
                0 <= x < g@.len() ==> ((#[trigger] seen@[x]) <==> (seen0[x] || x
                    == start_node as int || edge_child_in(tree_edges@, e0, x))),
            forall|x: int, y: int|
                0 <= x < g@.len() && 0 <= y < g@.len() && (#[trigger] seen@[x]) && !seen0[x] && x
                    != start_node as int && #[trigger] spec_is_edge(g@, x, y) ==> seen@[y],
            forall|x: int|
                0 <= x < g@.len() && (#[trigger] seen@[x]) && !seen0[x] ==> spec_reachable(
                    g@,
                    start_node,
                    x as usize,
                ),
            forall|k: int| 0 <= k < j ==> seen@[(#[trigger] row[k]).to as int],
        decreases nbrs@.len() - j,
    {
        let neighbor = nbrs[j];
        proof {
            assert(row[j as int].to == neighbor);
            assert(neighbor < g@.len());
            assert(spec_is_edge(g@, start_node as int, neighbor as int));
        }
        if !seen[neighbor] {
            let ghost seen_mid = seen@;
            let ghost edges_mid = tree_edges@;
            tree_edges.push((start_node, neighbor));
            proof {
                assert forall|k: int|
                    e0 <= k < tree_edges@.len() implies {
                    let e = #[trigger] tree_edges@[k];
                    &&& spec_is_edge(g@, e.0 as int, e.1 as int)
                    &&& e.0 < g@.len()
                    &&& e.1 < g@.len()
                    &&& !seen0[e.1 as int]
                    &&& e.1 != start_node
                    &&& (forall|k2: int| e0 <= k2 < k ==> (#[trigger] tree_edges@[k2]).1 != e.1)
                    &&& (e.0 == start_node || exists|k2: int|
                        e0 <= k2 < k && (#[trigger] tree_edges@[k2]).1 == e.0)
                } by {
                    if k < edges_mid.len() {
                        assert(tree_edges@[k] == edges_mid[k]);
                        assert(forall|k2: int|
                            e0 <= k2 < k ==> tree_edges@[k2] == #[trigger] edges_mid[k2]);
                    } else {
                        assert(tree_edges@[k] == (start_node, neighbor));
                        assert forall|k2: int|
                            e0 <= k2 < k implies (#[trigger] tree_edges@[k2]).1
                            != neighbor as int by {
                            assert(edge_child_in(edges_mid, e0, tree_edges@[k2].1 as int));
                            assert(seen_mid[tree_edges@[k2].1 as int]);
                        }
                    }
                }
                assert(dfs_edges_ok(g@, seen0, start_node, e0, tree_edges@));
            }
            proof {
                lemma_count_unseen_mono(
                    seen0.update(start_node as int, true),
                    seen@,
                );
            }
            dfs_recursive_basic(g, neighbor, seen, tree_edges);
            proof {
                lemma_dfs_step(
                    g@,
                    seen0,
                    seen_mid,
                    seen@,
                    old(tree_edges)@,
                    edges_mid,
                    tree_edges@,
                    start_node,
                    neighbor,
                    e0,
                );
            }
        }
        j = j + 1;
    }
    proof {
        assert forall|x: int, y: int|
            0 <= x < g@.len() && 0 <= y < g@.len() && (#[trigger] seen@[x]) && !seen0[x]
                && #[trigger] spec_is_edge(g@, x, y) implies seen@[y] by {
            if x == start_node as int {
                let k = choose|k: int|
                    0 <= k < g@[start_node as int].len() && (#[trigger] g@[start_node as int][k]).to
                        == y;
                assert(seen@[(row[k]).to as int]);
            }
        }
    }
}

/// Stitching step for the recursive descent: the invariant of the neighbor
/// loop, holding before an edge was pushed and the descent into its child
/// ran, still holds afterwards.
proof fn lemma_dfs_step(
    g: GraphView,
    seen0: Seq<bool>,
    seen_mid: Seq<bool>,
    seen2: Seq<bool>,
    edges0: Seq<(usize, usize)>,
    edges_mid: Seq<(usize, usize)>,
    edges2: Seq<(usize, usize)>,
    root: usize,
    child: usize,
    e0: int,
)
    requires
        seen0.len() == g.len(),
        seen_mid.len() == g.len(),
        seen2.len() == g.len(),
        root < g.len(),
        child < g.len(),
        e0 <= edges_mid.len(),
        spec_is_edge(g, root as int, child as int),
        // state of the loop invariant before the push and descent
        forall|x: int| 0 <= x < g.len() && seen0[x] ==> #[trigger] seen_mid[x],
        seen_mid[root as int],
        !seen_mid[child as int],
        forall|k: int| 0 <= k < e0 ==> edges_mid[k] == edges0[k],
        e0 == edges0.len(),
        dfs_edges_ok(g, seen0, root, e0, edges_mid),
        forall|x: int|
            0 <= x < g.len() ==> ((#[trigger] seen_mid[x]) <==> (seen0[x] || x == root as int
                || edge_child_in(edges_mid, e0, x))),
        forall|x: int, y: int|
            0 <= x < g.len() && 0 <= y < g.len() && (#[trigger] seen_mid[x]) && !seen0[x] && x
                != root as int && #[trigger] spec_is_edge(g, x, y) ==> seen_mid[y],
        forall|x: int|
            0 <= x < g.len() && (#[trigger] seen_mid[x]) && !seen0[x] ==> spec_reachable(
                g,
                root,
                x as usize,
            ),
        // the pushed edge, then the descent's own guarantees
        edges_mid.push((root, child)).is_prefix_of(edges2),
        dfs_edges_ok(g, seen_mid, child, edges_mid.len() as int + 1, edges2),
        forall|x: int| 0 <= x < g.len() && seen_mid[x] ==> #[trigger] seen2[x],
        seen2[child as int],
        forall|x: int|
            0 <= x < g.len() ==> ((#[trigger] seen2[x]) <==> (seen_mid[x] || x == child as int
                || edge_child_in(edges2, edges_mid.len() as int + 1, x))),
        forall|x: int, y: int|
            0 <= x < g.len() && 0 <= y < g.len() && (#[trigger] seen2[x]) && !seen_mid[x]
                && #[trigger] spec_is_edge(g, x, y) ==> seen2[y],
        forall|x: int|
            0 <= x < g.len() && (#[trigger] seen2[x]) && !seen_mid[x] ==> spec_reachable(
                g,
                child,
                x as usize,
            ),
    ensures
        forall|x: int| 0 <= x < g.len() && seen0[x] ==> #[trigger] seen2[x],
        seen2[root as int],
        forall|k: int| 0 <= k < e0 ==> edges2[k] == edges0[k],
        dfs_edges_ok(g, seen0, root, e0, edges2),
        forall|x: int|
            0 <= x < g.len() ==> ((#[trigger] seen2[x]) <==> (seen0[x] || x == root as int
                || edge_child_in(edges2, e0, x))),
        forall|x: int, y: int|
            0 <= x < g.len() && 0 <= y < g.len() && (#[trigger] seen2[x]) && !seen0[x] && x
                != root as int && #[trigger] spec_is_edge(g, x, y) ==> seen2[y],
        forall|x: int|
            0 <= x < g.len() && (#[trigger] seen2[x]) && !seen0[x] ==> spec_reachable(
                g,
                root,
                x as usize,
            ),
{
    let em = edges_mid.len() as int;
    let pushed = edges_mid.push((root, child));
    assert(pushed.len() <= edges2.len());
    assert(pushed == edges2.subrange(0, pushed.len() as int));
    assert forall|k: int| 0 <= k <= em implies edges2[k] == pushed[k] by {
        assert(edges2.subrange(0, pushed.len() as int)[k] == edges2[k]);
    }
    assert(edges2[em] == (root, child));
    assert(forall|k: int| 0 <= k < em ==> edges2[k] == #[trigger] edges_mid[k]);

    // the recorded edges stay well-formed for the outer descent
    assert forall|k: int|
        e0 <= k < edges2.len() implies {
        let e = #[trigger] edges2[k];
        &&& spec_is_edge(g, e.0 as int, e.1 as int)
        &&& e.0 < g.len()
        &&& e.1 < g.len()
        &&& !seen0[e.1 as int]
        &&& e.1 != root
        &&& (forall|k2: int| e0 <= k2 < k ==> (#[trigger] edges2[k2]).1 != e.1)
        &&& (e.0 == root || exists|k2: int| e0 <= k2 < k && (#[trigger] edges2[k2]).1 == e.0)
    } by {
        if k < em {
            assert(edges2[k] == edges_mid[k]);
            assert(forall|k2: int| e0 <= k2 < k ==> edges2[k2] == #[trigger] edges_mid[k2]);
        } else if k == em {
            assert(edges2[k] == (root, child));
            assert forall|k2: int| e0 <= k2 < k implies (#[trigger] edges2[k2]).1
                != child as int by {
                assert(edges2[k2] == edges_mid[k2]);
                assert(edge_child_in(edges_mid, e0, edges_mid[k2].1 as int));
                assert(seen_mid[edges_mid[k2].1 as int]);
            }
        } else {
            let e = edges2[k];
            // a child of the inner descent
            assert(spec_is_edge(g, e.0 as int, e.1 as int));
            assert(!seen_mid[e.1 as int]);
            assert(!seen0[e.1 as int]);
            assert(e.1 != root as int);
            assert forall|k2: int| e0 <= k2 < k implies (#[trigger] edges2[k2]).1 != e.1 by {
                if k2 < em {
                    assert(edges2[k2] == edges_mid[k2]);
                    assert(edge_child_in(edges_mid, e0, edges_mid[k2].1 as int));
                    assert(seen_mid[edges_mid[k2].1 as int]);
                } else if k2 == em {
                    assert(edges2[k2].1 == child as int);
                    assert(e.1 != child);
                } else {
                    assert((#[trigger] edges2[k2]).1 != e.1);
                }
            }
            // its parent is grounded: the inner root `child` is itself the
            // child of the pushed edge at position `em`
            if e.0 == child {
                assert(edges2[em].1 == e.0);
                assert(exists|k2: int| e0 <= k2 < k && (#[trigger] edges2[k2]).1 == e.0);
            } else if e.0 != root {
                let k2 = choose|k2: int|
                    em + 1 <= k2 < k && (#[trigger] edges2[k2]).1 == e.0;
                assert(e0 <= k2 < k && edges2[k2].1 == e.0);
            }
        }
    }

    // membership: the new seen set is the old one plus the root and the
    // children recorded from `e0` on
    assert forall|x: int|
        0 <= x < g.len() implies ((#[trigger] seen2[x]) <==> (seen0[x] || x == root as int
            || edge_child_in(edges2, e0, x))) by {
        if seen2[x] {
            if seen_mid[x] {
                if !seen0[x] && x != root as int {
                    let k = choose|k: int| e0 <= k < edges_mid.len() && (#[trigger] edges_mid[k]).1 == x;
                    assert(edges2[k].1 == x);
                    assert(edge_child_in(edges2, e0, x));
                }
            } else if x == child as int {
                assert(edges2[em].1 == x);
                assert(edge_child_in(edges2, e0, x));
            } else {
                let k = choose|k: int| em + 1 <= k < edges2.len() && (#[trigger] edges2[k]).1 == x;
                assert(edge_child_in(edges2, e0, x));
            }
        } else {
            assert(!seen0[x] && x != root as int);
            if edge_child_in(edges2, e0, x) {
                let k = choose|k: int| e0 <= k < edges2.len() && (#[trigger] edges2[k]).1 == x;
                if k < em {
                    assert(edges_mid[k].1 == x);
                    assert(edge_child_in(edges_mid, e0, x));
                    assert(seen_mid[x]);
                } else if k == em {
                    assert(x == child as int);
                    assert(seen2[x]);
                } else {
                    assert(edge_child_in(edges2, em + 1, x));
                    assert(seen2[x]);
                }
                assert(false);
            }
        }
    }

    // every newly seen node is reachable from the outer root
    assert forall|x: int|
        0 <= x < g.len() && (#[trigger] seen2[x]) && !seen0[x] implies spec_reachable(
            g,
            root,
            x as usize,
        ) by {
        if !seen_mid[x] {
            assert(spec_reachable(g, child, x as usize));
            lemma_reachable_refl(g, root);
            lemma_reachable_step(g, root, root, child);
            lemma_reachable_trans(g, root, child, x as usize);
        }
    }
}

/// Depth-first search from a single node, recording the tree edges taken.
/// Only nodes reachable from `start_node` are visited: the recorded
/// children, together with the start node, are exactly the reachable nodes.
pub fn dfs_basic(g: &StaticGraph, start_node: usize) -> (tree_edges: Vec<(usize, usize)>)
    requires
        graph_wf(g@),
        start_node < g@.len(),
    ensures
        dfs_edges_ok(g@, no_nodes_seen(g@.len()), start_node, 0, tree_edges@),
        forall|x: int|
            0 <= x < g@.len() ==> ((x == start_node as int || edge_child_in(tree_edges@, 0, x))
                <==> #[trigger] spec_reachable(g@, start_node, x as usize)),
{
    let n = g.node_count();
    let mut seen: Vec<bool> = Vec::new();
    let mut i: usize = 0;
    while i < n
        invariant
            i <= n,
            seen@.len() == i,
            forall|k: int| 0 <= k < i ==> !(#[trigger] seen@[k]),
        decreases n - i,
    {
        seen.push(false);
        i = i + 1;
    }
    let mut tree_edges: Vec<(usize, usize)> = Vec::new();
    proof {
        assert(seen@ =~= no_nodes_seen(g@.len()));
    }
    dfs_recursive_basic(g, start_node, &mut seen, &mut tree_edges);
    proof {
        assert forall|x: int|
            0 <= x < g@.len() implies ((x == start_node as int || edge_child_in(tree_edges@, 0, x))
            <==> #[trigger] spec_reachable(g@, start_node, x as usize)) by {
            if spec_reachable(g@, start_node, x as usize) {
                let path = choose|path: Seq<usize>|
                    #[trigger] is_path_between(g@, path, start_node, x as usize);
                lemma_reach_in_closed(g@, seen@, path, start_node, x as usize);
                assert(seen@[x]);
            }
        }
    }
    tree_edges
}

/// No node with a smaller id reaches `x`: `x` is the least node of its
/// part of the graph, in the reachability sense. The whole-graph sweeps
/// start a fresh descent exactly at such nodes.
pub open spec fn least_reached(g: GraphView, x: usize) -> bool {
    forall|r: usize| r < x ==> !#[trigger] spec_reachable(g, r, x)
}

/// One recorded edge of a whole-graph sweep is well-formed: it is a real
/// edge, its child was not recorded before, and its parent is either an
/// earlier child or a root (a node that is never anyone's child).
pub open spec fn forest_edge_ok(g: GraphView, edges: Seq<(usize, usize)>, k: int) -> bool {
    let e = edges[k];
    &&& spec_is_edge(g, e.0 as int, e.1 as int)
    &&& e.0 < g.len()
    &&& e.1 < g.len()
    &&& (forall|k2: int| 0 <= k2 < k ==> (#[trigger] edges[k2]).1 != e.1)
    &&& ((forall|k2: int| 0 <= k2 < edges.len() ==> (#[trigger] edges[k2]).1 != e.0) || exists|
        k2: int|
        0 <= k2 < k && (#[trigger] edges[k2]).1 == e.0)
}

/// The tree edges of a whole-graph depth-first sweep: every recorded edge
/// is well-formed in the sense of `forest_edge_ok`.
pub open spec fn dfs_forest_ok(g: GraphView, edges: Seq<(usize, usize)>) -> bool {
    forall|k: int| 0 <= k < edges.len() ==> #[trigger] forest_edge_ok(g, edges, k)
}

/// The hypotheses shared by the sweep-step lemmas: the forest recorded so
/// far is well-formed with seen endpoints, and a descent from the unseen
/// root appended well-formed tree edges.
spec fn forest_step_pre(
    g: GraphView,
    seen1: Seq<bool>,
    edges1: Seq<(usize, usize)>,
    edges2: Seq<(usize, usize)>,
    root: usize,
) -> bool {
    &&& seen1.len() == g.len()
    &&& root < g.len()
    &&& !seen1[root as int]
    &&& dfs_forest_ok(g, edges1)
    &&& forall|k: int|
        0 <= k < edges1.len() ==> seen1[(#[trigger] edges1[k]).0 as int] && seen1[edges1[k].1
            as int]
    &&& edges1.len() <= edges2.len()
    &&& forall|k: int| 0 <= k < edges1.len() ==> edges2[k] == #[trigger] edges1[k]
    &&& dfs_edges_ok(g, seen1, root, edges1.len() as int, edges2)
}

/// An edge recorded before the sweep step stays well-formed afterwards.
proof fn lemma_forest_step_old_edge(
    g: GraphView,
    seen1: Seq<bool>,
    edges1: Seq<(usize, usize)>,
    edges2: Seq<(usize, usize)>,
    root: usize,
    k: int,
)
    requires
        forest_step_pre(g, seen1, edges1, edges2, root),
        0 <= k < edges1.len(),
    ensures
        forest_edge_ok(g, edges2, k),
{
    let e1 = edges1.len() as int;
    let e = edges2[k];
    assert(forest_edge_ok(g, edges1, k));
    assert(e == edges1[k]);
    assert forall|k2: int| 0 <= k2 < k implies (#[trigger] edges2[k2]).1 != e.1 by {
        assert(edges2[k2] == edges1[k2]);
        assert(edges1[k2].1 != edges1[k].1);
    }
    // the parent stays grounded: new children were unseen when the sweep
    // step began, old endpoints were already seen
    if forall|k2: int| 0 <= k2 < edges1.len() ==> (#[trigger] edges1[k2]).1 != e.0 {
        assert forall|k2: int| 0 <= k2 < edges2.len() implies (#[trigger] edges2[k2]).1
            != e.0 by {
            if k2 < e1 {
                assert(edges2[k2] == edges1[k2]);
            } else {
                assert(!seen1[edges2[k2].1 as int]);
                assert(seen1[e.0 as int]);
            }
        }
    } else {
        let k2 = choose|k2: int| 0 <= k2 < k && (#[trigger] edges1[k2]).1 == e.0;
        assert(edges2[k2] == edges1[k2]);
        assert(exists|k2: int| 0 <= k2 < k && (#[trigger] edges2[k2]).1 == e.0);
    }
}

/// An edge recorded by the sweep step's descent is well-formed in the
/// accumulated forest.
proof fn lemma_forest_step_new_edge(
    g: GraphView,
    seen1: Seq<bool>,
    edges1: Seq<(usize, usize)>,
    edges2: Seq<(usize, usize)>,
    root: usize,
    k: int,
)
    requires
        forest_step_pre(g, seen1, edges1, edges2, root),
        edges1.len() <= k < edges2.len(),
    ensures
        forest_edge_ok(g, edges2, k),
{
    let e1 = edges1.len() as int;
    let e = edges2[k];
    assert(!seen1[e.1 as int]);
    assert forall|k2: int| 0 <= k2 < k implies (#[trigger] edges2[k2]).1 != e.1 by {
        if k2 < e1 {
            assert(edges2[k2] == edges1[k2]);
            assert(seen1[edges1[k2].1 as int]);
        }
    }
    if e.0 == root {
        // the root of this sweep step is nobody's child: children recorded
        // before it were seen while it was not, children recorded by its
        // own descent are distinct from it
        assert forall|k2: int| 0 <= k2 < edges2.len() implies (#[trigger] edges2[k2]).1
            != e.0 by {
            if k2 < e1 {
                assert(edges2[k2] == edges1[k2]);
                assert(seen1[edges1[k2].1 as int]);
            } else {
                assert(edges2[k2].1 != root);
            }
        }
    } else {
        let k2 = choose|k2: int| e1 <= k2 < k && (#[trigger] edges2[k2]).1 == e.0;
        assert(exists|k2: int| 0 <= k2 < k && (#[trigger] edges2[k2]).1 == e.0);
    }
}

/// One sweep step of the whole-graph search keeps its coverage facts: the
/// seen set stays closed under edges, a seen node that is nobody's child
/// is the least node reached in its part, and every child is reachable
/// from a smaller node that is nobody's child.
#[verifier::rlimit(100)]
proof fn lemma_forest_cover_step(
    g: GraphView,
    seen1: Seq<bool>,
    seen2: Seq<bool>,
    edges1: Seq<(usize, usize)>,
    edges2: Seq<(usize, usize)>,
    root: usize,
)
    requires
        graph_wf(g),
        seen1.len() == g.len(),
        seen2.len() == g.len(),
        root < g.len(),
        !seen1[root as int],
        forall|z: int| 0 <= z < root ==> seen1[z],
        edges1.len() <= edges2.len(),
        forall|k: int| 0 <= k < edges1.len() ==> edges2[k] == #[trigger] edges1[k],
        dfs_edges_ok(g, seen1, root, edges1.len() as int, edges2),
        forall|k: int|
            0 <= k < edges1.len() ==> seen1[(#[trigger] edges1[k]).0 as int] && seen1[edges1[k].1
                as int],
        // what the descent from `root` guarantees
        forall|x: int| 0 <= x < g.len() && seen1[x] ==> #[trigger] seen2[x],
        seen2[root as int],
        forall|x: int|
            0 <= x < g.len() ==> ((#[trigger] seen2[x]) <==> (seen1[x] || x == root as int
                || edge_child_in(edges2, edges1.len() as int, x))),
        forall|x: int, y: int|
            0 <= x < g.len() && 0 <= y < g.len() && (#[trigger] seen2[x]) && !seen1[x]
                && #[trigger] spec_is_edge(g, x, y) ==> seen2[y],
        forall|x: int|
            0 <= x < g.len() && (#[trigger] seen2[x]) && !seen1[x] ==> spec_reachable(
                g,
                root,
                x as usize,
            ),
        // the coverage facts before the sweep step
        forall|x: int, y: int|
            0 <= x < g.len() && 0 <= y < g.len() && (#[trigger] seen1[x]) && #[trigger]
                spec_is_edge(g, x, y) ==> seen1[y],
        forall|x: usize|
            x < g.len() && seen1[x as int] && !(#[trigger] edge_child_in(edges1, 0, x as int))
                ==> least_reached(g, x),
        forall|x: usize|
            x < g.len() && #[trigger] edge_child_in(edges1, 0, x as int) ==> (exists|r: usize|
                r < x && seen1[r as int] && !edge_child_in(edges1, 0, r as int) && #[trigger]
                    spec_reachable(g, r, x)),
    ensures
        forall|x: int, y: int|
            0 <= x < g.len() && 0 <= y < g.len() && (#[trigger] seen2[x]) && #[trigger]
                spec_is_edge(g, x, y) ==> seen2[y],
        forall|x: usize|
            x < g.len() && seen2[x as int] && !(#[trigger] edge_child_in(edges2, 0, x as int))
                ==> least_reached(g, x),
        forall|x: usize|
            x < g.len() && #[trigger] edge_child_in(edges2, 0, x as int) ==> (exists|r: usize|
                r < x && seen2[r as int] && !edge_child_in(edges2, 0, r as int) && #[trigger]
                    spec_reachable(g, r, x)),
{
    let e1 = edges1.len() as int;
    // a node seen before the step is a child of the grown forest exactly
    // when it was one before: the step's new children were all unseen
    assert forall|x: int|
        0 <= x < g.len() && seen1[x] implies (edge_child_in(edges2, 0, x) <==> edge_child_in(
        edges1,
        0,
        x,
    )) by {
        if edge_child_in(edges2, 0, x) {
            let k = choose|k: int| 0 <= k < edges2.len() && (#[trigger] edges2[k]).1 == x;
            if k >= e1 {
                assert(!seen1[edges2[k].1 as int]);
            } else {
                assert(edges1[k].1 == x as usize);
            }
        }
        if edge_child_in(edges1, 0, x) {
            let k = choose|k: int| 0 <= k < edges1.len() && (#[trigger] edges1[k]).1 == x;
            assert(edges2[k].1 == x as usize);
        }
    }
    // the seen set stays closed under edges
    assert forall|x: int, y: int|
        0 <= x < g.len() && 0 <= y < g.len() && (#[trigger] seen2[x]) && #[trigger] spec_is_edge(
            g,
            x,
            y,
        ) implies seen2[y] by {
        if seen1[x] {
            assert(seen1[y]);
        }
    }
    // the root itself is the least node reached in its part: everything
    // below it was already seen, and the seen set absorbs whole walks
    assert(closed_under_edges(g, seen1)) by {
        assert forall|x: usize, y: usize|
            x < g.len() && seen1[x as int] && #[trigger] spec_is_edge(g, x as int, y as int)
            implies seen1[y as int] by {
            let k = choose|k: int|
                0 <= k < g[x as int].len() && (#[trigger] g[x as int][k]).to == y as int;
            assert(g[x as int][k].to < g.len());
        }
    }
    assert forall|r: usize| r < root implies !spec_reachable(g, r, root) by {
        if spec_reachable(g, r, root) {
            let path = choose|path: Seq<usize>| #[trigger] is_path_between(g, path, r, root);
            lemma_reach_in_closed(g, seen1, path, r, root);
            assert(seen1[root as int]);
        }
    }
    assert(least_reached(g, root));
    assert forall|x: usize|
        x < g.len() && seen2[x as int] && !(#[trigger] edge_child_in(edges2, 0, x as int))
        implies least_reached(g, x) by {
        if seen1[x as int] {
            assert(!edge_child_in(edges1, 0, x as int));
        } else {
            assert(x == root || edge_child_in(edges2, e1, x as int));
            if x != root {
                let k = choose|k: int| e1 <= k < edges2.len() && (#[trigger] edges2[k]).1 == x;
                assert(edge_child_in(edges2, 0, x as int));
            }
        }
    }
    assert forall|x: usize|
        x < g.len() && #[trigger] edge_child_in(edges2, 0, x as int) implies (exists|r: usize|
        r < x && seen2[r as int] && !edge_child_in(edges2, 0, r as int) && #[trigger]
            spec_reachable(g, r, x)) by {
        let k = choose|k: int| 0 <= k < edges2.len() && (#[trigger] edges2[k]).1 == x;
        if k < e1 {
            assert(edges1[k].1 == x as usize);
            assert(edge_child_in(edges1, 0, x as int));
            let r = choose|r: usize|
                r < x && seen1[r as int] && !edge_child_in(edges1, 0, r as int) && #[trigger]
                    spec_reachable(g, r, x);
            assert(seen2[r as int] && !edge_child_in(edges2, 0, r as int));
        } else {
            // a child of this step's descent: the root discovered it
            assert(!seen1[x as int] && x != root);
            assert(x > root);
            assert(edge_child_in(edges2, e1, x as int));
            assert(seen2[x as int]);
            assert(spec_reachable(g, root, x));
            assert(!edge_child_in(edges2, 0, root as int)) by {
                if edge_child_in(edges2, 0, root as int) {
                    let k2 = choose|k2: int|
                        0 <= k2 < edges2.len() && (#[trigger] edges2[k2]).1 == root;
                    if k2 < e1 {
                        assert(seen1[edges1[k2].1 as int]);
                    } else {
                        assert(edges2[k2].1 != root);
                    }
                }
            }
        }
    }
}

/// One sweep step of the whole-graph search keeps the forest well-formed
/// and its edge endpoints seen.
proof fn lemma_forest_step(
    g: GraphView,
    seen1: Seq<bool>,
    seen2: Seq<bool>,
    edges1: Seq<(usize, usize)>,
    edges2: Seq<(usize, usize)>,
    root: usize,
)
    requires
        seen1.len() == g.len(),
        seen2.len() == g.len(),
        root < g.len(),
        !seen1[root as int],
        dfs_forest_ok(g, edges1),
        forall|k: int|
            0 <= k < edges1.len() ==> seen1[(#[trigger] edges1[k]).0 as int] && seen1[edges1[k].1
                as int],
        edges1.is_prefix_of(edges2),
        dfs_edges_ok(g, seen1, root, edges1.len() as int, edges2),
        forall|x: int| 0 <= x < g.len() && seen1[x] ==> #[trigger] seen2[x],
        seen2[root as int],
        forall|x: int|
            0 <= x < g.len() ==> ((#[trigger] seen2[x]) <==> (seen1[x] || x == root as int
                || edge_child_in(edges2, edges1.len() as int, x))),
    ensures
        dfs_forest_ok(g, edges2),
        forall|k: int|
            0 <= k < edges2.len() ==> seen2[(#[trigger] edges2[k]).0 as int] && seen2[edges2[k].1
                as int],
{
    let e1 = edges1.len() as int;
    assert(edges1 == edges2.subrange(0, e1));
    assert forall|k: int| 0 <= k < e1 implies edges2[k] == #[trigger] edges1[k] by {
        assert(edges2.subrange(0, e1)[k] == edges2[k]);
    }
    assert(forest_step_pre(g, seen1, edges1, edges2, root));
    assert forall|k: int|
        0 <= k < edges2.len() implies seen2[(#[trigger] edges2[k]).0 as int] && seen2[edges2[k].1
        as int] by {
        if k < e1 {
            assert(forest_edge_ok(g, edges1, k));
            assert(edges1[k].0 < g.len() && edges1[k].1 < g.len());
            assert(seen1[edges1[k].0 as int] && seen1[edges1[k].1 as int]);
            assert(seen2[edges1[k].0 as int] && seen2[edges1[k].1 as int]);
            assert(edges2[k] == edges1[k]);
        } else {
            let e = edges2[k];
            assert(e.0 < g.len() && e.1 < g.len());
            assert(edge_child_in(edges2, e1, e.1 as int));
            assert(seen2[e.1 as int]);
            if e.0 == root {
                assert(seen2[e.0 as int]);
            } else {
                let k2 = choose|k2: int| e1 <= k2 < k && (#[trigger] edges2[k2]).1 == e.0;
                assert(edge_child_in(edges2, e1, e.0 as int));
                assert(seen2[e.0 as int]);
            }
        }
    }
    assert forall|k: int| 0 <= k < edges2.len() implies #[trigger] forest_edge_ok(
        g,
        edges2,
        k,
    ) by {
        if k < e1 {
            lemma_forest_step_old_edge(g, seen1, edges1, edges2, root, k);
        } else {
            lemma_forest_step_new_edge(g, seen1, edges1, edges2, root, k);
        }
    }
}

/// Whole-graph depth-first sweep: iterate all node ids in increasing order
/// and start a fresh descent from each node not yet seen, so disconnected
/// parts are all covered. Returns the accumulated tree edges of all sweeps.
pub fn dfs_basic_all(g: &StaticGraph) -> (tree_edges: Vec<(usize, usize)>)
    requires
        graph_wf(g@),
    ensures
        dfs_forest_ok(g@, tree_edges@),
        forall|x: usize|
            x < g@.len() && !(#[trigger] edge_child_in(tree_edges@, 0, x as int))
                ==> least_reached(g@, x),
        forall|x: usize|
            x < g@.len() && #[trigger] edge_child_in(tree_edges@, 0, x as int) ==> (exists|
                r: usize|
                r < x && !edge_child_in(tree_edges@, 0, r as int) && #[trigger] spec_reachable(
                    g@,
                    r,
                    x,
                )),
{
    let n = g.node_count();
    let mut seen: Vec<bool> = Vec::new();
    let mut i: usize = 0;
    while i < n
        invariant
            i <= n,
            seen@.len() == i,
            forall|k: int| 0 <= k < i ==> !(#[trigger] seen@[k]),
        decreases n - i,
    {
        seen.push(false);
        i = i + 1;
    }
    let mut tree_edges: Vec<(usize, usize)> = Vec::new();
    let mut node_id: usize = 0;
    while node_id < n
        invariant
            node_id <= n,
            seen@.len() == g@.len(),
            n == g@.len(),
            dfs_forest_ok(g@, tree_edges@),
            forall|k: int|
                0 <= k < tree_edges@.len() ==> seen@[(#[trigger] tree_edges@[k]).0 as int]
                    && seen@[tree_edges@[k].1 as int],
            forall|x: int| 0 <= x < node_id ==> #[trigger] seen@[x],
            forall|x: int, y: int|
                0 <= x < n && 0 <= y < n && (#[trigger] seen@[x]) && #[trigger] spec_is_edge(
                    g@,
                    x,
                    y,
                ) ==> seen@[y],
            forall|x: usize|
                x < n && seen@[x as int] && !(#[trigger] edge_child_in(tree_edges@, 0, x as int))
                    ==> least_reached(g@, x),
            forall|x: usize|
                x < n && #[trigger] edge_child_in(tree_edges@, 0, x as int) ==> (exists|r: usize|
                    r < x && seen@[r as int] && !edge_child_in(tree_edges@, 0, r as int)
                        && #[trigger] spec_reachable(g@, r, x)),
        decreases n - node_id,
    {
        if !seen[node_id] {
            let ghost seen1 = seen@;
            let ghost edges1 = tree_edges@;
            dfs_recursive_basic(g, node_id, &mut seen, &mut tree_edges);
            proof {
                assert(forall|k: int|
                    0 <= k < edges1.len() ==> tree_edges@[k] == #[trigger] edges1[k]) by {
                    assert(edges1.is_prefix_of(tree_edges@));
                    assert(forall|k: int|
                        0 <= k < edges1.len() ==> tree_edges@.subrange(0, edges1.len() as int)[k]
                            == #[trigger] tree_edges@[k]);
                }
                lemma_forest_step(g@, seen1, seen@, edges1, tree_edges@, node_id);
                lemma_forest_cover_step(g@, seen1, seen@, edges1, tree_edges@, node_id);
            }
        }
        node_id = node_id + 1;
    }
    tree_edges
}

/// Position of the tree edge whose child is `x` (unique when children are
/// distinct).
pub open spec fn child_index(edges: Seq<(usize, usize)>, x: int) -> int {
    choose|k: int| 0 <= k < edges.len() && (#[trigger] edges[k]).1 == x
}

/// With distinct children, the index found for `edges[k].1` is `k` itself.
proof fn lemma_child_index(edges: Seq<(usize, usize)>, k: int)
    requires
        forall|a: int, b: int|
            0 <= a < b < edges.len() ==> (#[trigger] edges[a]).1 != (#[trigger] edges[b]).1,
        0 <= k < edges.len(),
    ensures
        edge_child_in(edges, 0, edges[k].1 as int),
        child_index(edges, edges[k].1 as int) == k,
{
    assert(edge_child_in(edges, 0, edges[k].1 as int));
    let k2 = child_index(edges, edges[k].1 as int);
    assert(0 <= k2 < edges.len() && edges[k2].1 == edges[k].1);
    if k2 < k {
        assert(edges[k2].1 != edges[k].1);
    } else if k < k2 {
        assert(edges[k].1 != edges[k2].1);
    }
}

/// A list of distinct values below `n`, none of them `excluded`, has at
/// most `n - 1` entries.
proof fn lemma_distinct_children_bound(edges: Seq<(usize, usize)>, n: int, excluded: usize)
    requires
        excluded < n,
        forall|k: int|
            0 <= k < edges.len() ==> (#[trigger] edges[k]).1 < n && edges[k].1 != excluded,
        forall|a: int, b: int|
            0 <= a < b < edges.len() ==> (#[trigger] edges[a]).1 != (#[trigger] edges[b]).1,
    ensures
        edges.len() <= n - 1,
{
    let children = Seq::new(edges.len(), |k: int| edges[k].1 as int);
    assert(children.no_duplicates()) by {
        assert forall|a: int, b: int|
            0 <= a < children.len() && 0 <= b < children.len() && a != b implies children[a]
            != children[b] by {
            if a < b {
                assert(edges[a].1 != edges[b].1);
            } else {
                assert(edges[b].1 != edges[a].1);
            }
        }
    }
    children.unique_seq_to_set();
    let bound = set_int_range(0, n).remove(excluded as int);
    lemma_int_range(0, n);
    vstd::set::axiom_set_remove_len(set_int_range(0, n), excluded as int);
    vstd::set::axiom_set_remove_finite(set_int_range(0, n), excluded as int);
    assert(bound.len() == n - 1);
    assert forall|c: int| children.to_set().contains(c) implies bound.contains(c) by {
        assert(children.contains(c));
        let i = choose|i: int| 0 <= i < children.len() && children[i] == c;
        assert(edges[i].1 < n && edges[i].1 != excluded);
    }
    lemma_len_subset(children.to_set(), bound);
}

/// The tree edges of a single-source descent over a fresh seen set form a
/// well-formed forest (with the start node as its only root).
proof fn lemma_edges_to_forest(g: GraphView, root: usize, edges: Seq<(usize, usize)>)
    requires
        dfs_edges_ok(g, no_nodes_seen(g.len()), root, 0, edges),
    ensures
        dfs_forest_ok(g, edges),
        forall|a: int, b: int|
            0 <= a < b < edges.len() ==> (#[trigger] edges[a]).1 != (#[trigger] edges[b]).1,
{
    assert forall|k: int| 0 <= k < edges.len() implies #[trigger] forest_edge_ok(
        g,
        edges,
        k,
    ) by {
        let e = edges[k];
        if e.0 == root {
            assert forall|k2: int| 0 <= k2 < edges.len() implies (#[trigger] edges[k2]).1
                != e.0 by {
                assert(edges[k2].1 != root);
            }
        }
    }
    assert forall|a: int, b: int|
        0 <= a < b < edges.len() implies (#[trigger] edges[a]).1 != (#[trigger] edges[b]).1 by {
        assert(forall|k2: int| 0 <= k2 < b ==> (#[trigger] edges[k2]).1 != edges[b].1);
    }
}

/// Build the predecessor map a tree-edge list encodes: each child's
/// predecessor is its recorded parent, every other node keeps `None`.
fn prev_from_tree_edges(node_count: usize, tree_edges: &Vec<(usize, usize)>) -> (prev: Vec<
    Option<usize>,
>)
    requires
        forall|k: int|
            0 <= k < tree_edges@.len() ==> (#[trigger] tree_edges@[k]).1 < node_count,
        forall|a: int, b: int|
            0 <= a < b < tree_edges@.len() ==> (#[trigger] tree_edges@[a]).1 != (
            #[trigger] tree_edges@[b]).1,
    ensures
        prev@.len() == node_count,
        forall|x: int|
            0 <= x < node_count ==> ((#[trigger] prev@[x]) is Some <==> edge_child_in(
                tree_edges@,
                0,
                x,
            )),
        forall|k: int|
            0 <= k < tree_edges@.len() ==> prev@[(#[trigger] tree_edges@[k]).1 as int] == Some(
                tree_edges@[k].0,
            ),
{
    let mut prev: Vec<Option<usize>> = Vec::new();
    let mut i: usize = 0;
    while i < node_count
        invariant
            i <= node_count,
            prev@.len() == i,
            forall|x: int| 0 <= x < i ==> (#[trigger] prev@[x]) is None,
        decreases node_count - i,
    {
        prev.push(None);
        i = i + 1;
    }
    let mut k: usize = 0;
    while k < tree_edges.len()
        invariant
            k <= tree_edges@.len(),
            prev@.len() == node_count,
            forall|x: int|
                0 <= x < node_count ==> ((#[trigger] prev@[x]) is Some <==> exists|k2: int|
                    0 <= k2 < k && (#[trigger] tree_edges@[k2]).1 == x),
            forall|k2: int|
                0 <= k2 < k ==> prev@[(#[trigger] tree_edges@[k2]).1 as int] == Some(
                    tree_edges@[k2].0,
                ),
        decreases tree_edges@.len() - k,
    {
        let edge = tree_edges[k];
        prev.set(edge.1, Some(edge.0));
        k = k + 1;
    }
    prev
}

/// The predecessor map built from a well-formed forest is valid for the
/// graph and all its chains end.
proof fn lemma_forest_prev(g: GraphView, edges: Seq<(usize, usize)>, prev: Seq<Option<usize>>)
    requires
        dfs_forest_ok(g, edges),
        forall|a: int, b: int|
            0 <= a < b < edges.len() ==> (#[trigger] edges[a]).1 != (#[trigger] edges[b]).1,
        prev.len() == g.len(),
        forall|x: int|
            0 <= x < prev.len() ==> ((#[trigger] prev[x]) is Some <==> edge_child_in(edges, 0, x)),
        forall|k: int|
            0 <= k < edges.len() ==> prev[(#[trigger] edges[k]).1 as int] == Some(edges[k].0),
    ensures
        prev_list_valid(g, prev),
        forall|d: usize| d < prev.len() ==> chain_ends(prev, d, prev.len() as nat),
        forall|x: int|
            0 <= x < prev.len() && (#[trigger] prev[x]) is Some ==> prev[x]->0 < prev.len(),
{
    let n = prev.len() as int;
    assert forall|x: int|
        0 <= x < prev.len() && (#[trigger] prev[x]) is Some implies spec_is_edge(
        g,
        prev[x]->0 as int,
        x,
    ) && prev[x]->0 < prev.len() by {
        let k = child_index(edges, x);
        assert(0 <= k < edges.len() && edges[k].1 == x);
        assert(forest_edge_ok(g, edges, k));
        assert(prev[x] == Some(edges[k].0));
    }
    assert(prev_list_valid(g, prev));
    if edges.len() == 0 {
        assert forall|d: usize| d < prev.len() implies chain_ends(prev, d, prev.len() as nat) by {
            assert(!edge_child_in(edges, 0, d as int));
            assert(prev[d as int] is None);
        }
    } else {
        assert(forest_edge_ok(g, edges, 0));
        let root0 = edges[0].0;
        assert(forall|k2: int| 0 <= k2 < edges.len() ==> (#[trigger] edges[k2]).1 != root0);
        assert forall|k: int| 0 <= k < edges.len() implies (#[trigger] edges[k]).1 < n
            && edges[k].1 != root0 by {
            assert(forest_edge_ok(g, edges, k));
        }
        lemma_distinct_children_bound(edges, n, root0);
        let rank = Seq::new(
            prev.len(),
            |x: int| if edge_child_in(edges, 0, x) {
                child_index(edges, x) + 1
            } else {
                0int
            },
        );
        assert forall|x: int|
            0 <= x < prev.len() && (#[trigger] prev[x]) is Some implies prev[x]->0 < prev.len()
            && 0 <= rank[prev[x]->0 as int] && rank[prev[x]->0 as int] < rank[x] by {
            let k = child_index(edges, x);
            assert(0 <= k < edges.len() && edges[k].1 == x);
            assert(forest_edge_ok(g, edges, k));
            let p = edges[k].0;
            assert(prev[x] == Some(p));
            assert(rank[x] == k + 1);
            if forall|k2: int| 0 <= k2 < edges.len() ==> (#[trigger] edges[k2]).1 != p {
                assert(!edge_child_in(edges, 0, p as int));
                assert(rank[p as int] == 0);
            } else {
                let k2 = choose|k2: int| 0 <= k2 < k && (#[trigger] edges[k2]).1 == p;
                lemma_child_index(edges, k2);
                assert(rank[p as int] == k2 + 1);
            }
        }
        assert forall|d: usize| d < prev.len() implies chain_ends(prev, d, prev.len() as nat) by {
            if prev[d as int] is Some {
                let k = child_index(edges, d as int);
                assert(0 <= k < edges.len() && edges[k].1 == d);
                assert(rank[d as int] == k + 1);
                assert(rank[d as int] < n);
            }
            lemma_rank_chain_ends(prev, rank, d, prev.len() as nat);
        }
    }
}

/// Every chain through a predecessor map whose entries point into the
/// marked set, and in which the start node is the only marked node without
/// a predecessor, begins at the start node.
proof fn lemma_chain_root(
    prev: Seq<Option<usize>>,
    flags: Seq<bool>,
    s: usize,
    d: usize,
    fuel: nat,
)
    requires
        prev.len() == flags.len(),
        d < prev.len(),
        flags[d as int],
        forall|x: int|
            0 <= x < prev.len() && (#[trigger] prev[x]) is Some ==> prev[x]->0 < prev.len()
                && flags[prev[x]->0 as int],
        forall|x: int| 0 <= x < prev.len() && (#[trigger] flags[x]) && x != s ==> prev[x] is Some,
        chain_ends(prev, d, fuel),
    ensures
        chain_seq(prev, d, fuel)[0] == s,
    decreases fuel,
{
    match prev[d as int] {
        None => {
            assert(d == s);
        },
        Some(p) => {
            lemma_chain_root(prev, flags, s, p, (fuel - 1) as nat);
        },
    }
}

/// Depth-first search from a single node, recording path information as a
/// predecessor map: each node discovered by the descent records the node
/// that discovered it, all other nodes (the start node and everything
/// unreachable from it) keep `None`.
pub fn dfs_recursive_path(g: &StaticGraph, start_node: usize) -> (prev: Vec<Option<usize>>)
    requires
        graph_wf(g@),
        start_node < g@.len(),
    ensures
        prev@.len() == g@.len(),
        prev@[start_node as int] is None,
        prev_list_valid(g@, prev@),
        forall|d: usize| d < prev@.len() ==> chain_ends(prev@, d, prev@.len() as nat),
        forall|d: usize|
            d < prev@.len() ==> ((#[trigger] prev@[d as int]) is Some <==> (spec_reachable(
                g@,
                start_node,
                d,
            ) && d != start_node)),
        forall|d: usize|
            d < prev@.len() && #[trigger] spec_reachable(g@, start_node, d) ==> is_path_between(
                g@,
                chain_seq(prev@, d, prev@.len() as nat),
                start_node,
                d,
            ),
{
    let tree_edges = dfs_basic(g, start_node);
    let n = g.node_count();
    proof {
        lemma_edges_to_forest(g@, start_node, tree_edges@);
        assert forall|k: int|
            0 <= k < tree_edges@.len() implies (#[trigger] tree_edges@[k]).1 < n by {
            assert(forest_edge_ok(g@, tree_edges@, k));
        }
    }
    let prev = prev_from_tree_edges(n, &tree_edges);
    proof {
        lemma_forest_prev(g@, tree_edges@, prev@);
        assert(!edge_child_in(tree_edges@, 0, start_node as int));
        assert(prev@[start_node as int] is None);
        let flags = Seq::new(
            prev@.len(),
            |x: int| x == start_node as int || edge_child_in(tree_edges@, 0, x),
        );
        assert forall|d: usize| d < prev@.len() implies ((#[trigger] prev@[d as int]) is Some
            <==> (spec_reachable(g@, start_node, d) && d != start_node)) by {
            let x: int = d as int;
            assert((x == start_node as int || edge_child_in(tree_edges@, 0, x))
                <==> spec_reachable(g@, start_node, x as usize));
            assert(x as usize == d);
            assert(prev@[x] is Some <==> edge_child_in(tree_edges@, 0, x));
        }
        assert forall|d: usize|
            d < prev@.len() && #[trigger] spec_reachable(g@, start_node, d) implies is_path_between(
            g@,
            chain_seq(prev@, d, prev@.len() as nat),
            start_node,
            d,
        ) by {
            lemma_chain_props(g@, prev@, d, prev@.len() as nat);
            assert(flags[d as int]);
            assert forall|x: int|
                0 <= x < prev@.len() && (#[trigger] prev@[x]) is Some implies prev@[x]->0
                < prev@.len() && flags[prev@[x]->0 as int] by {
                let k = child_index(tree_edges@, x);
                assert(0 <= k < tree_edges@.len() && tree_edges@[k].1 == x);
                assert(forest_edge_ok(g@, tree_edges@, k));
                let p = tree_edges@[k].0;
                assert(prev@[x] == Some(p));
                assert(p == start_node || edge_child_in(tree_edges@, 0, p as int));
            }
            assert forall|x: int|
                0 <= x < prev@.len() && (#[trigger] flags[x]) && x != start_node implies prev@[x]
                is Some by {
                assert(edge_child_in(tree_edges@, 0, x));
            }
            lemma_chain_root(prev@, flags, start_node, d, prev@.len() as nat);
        }
    }
    prev
}

/// Whole-graph depth-first search recording path information as a
/// predecessor map. Behaves like `dfs_recursive_path` on a connected
/// graph; on a graph with disconnected parts every partition is covered,
/// and a `None` predecessor marks the first node discovered in each
/// partition. Each node's chain walks back to the root of its partition.
pub fn dfs_recursive_path_all(g: &StaticGraph) -> (prev: Vec<Option<usize>>)
    requires
        graph_wf(g@),
    ensures
        prev@.len() == g@.len(),
        prev_list_valid(g@, prev@),
        forall|d: usize| d < prev@.len() ==> chain_ends(prev@, d, prev@.len() as nat),
        forall|d: usize|
            d < prev@.len() ==> ({
                let c = #[trigger] chain_seq(prev@, d, prev@.len() as nat);
                prev@[c[0] as int] is None && is_path_between(g@, c, c[0], d)
            }),
        forall|d: usize|
            d < prev@.len() ==> ((#[trigger] prev@[d as int]) is None <==> least_reached(g@, d)),
{
    let tree_edges = dfs_basic_all(g);
    let n = g.node_count();
    proof {
        assert forall|k: int|
            0 <= k < tree_edges@.len() implies (#[trigger] tree_edges@[k]).1 < n by {
            assert(forest_edge_ok(g@, tree_edges@, k));
        }
        assert forall|a: int, b: int|
            0 <= a < b < tree_edges@.len() implies (#[trigger] tree_edges@[a]).1 != (
        #[trigger] tree_edges@[b]).1 by {
            assert(forest_edge_ok(g@, tree_edges@, b));
        }
    }
    let prev = prev_from_tree_edges(n, &tree_edges);
    proof {
        lemma_forest_prev(g@, tree_edges@, prev@);
        assert forall|d: usize| d < prev@.len() implies ({
            let c = #[trigger] chain_seq(prev@, d, prev@.len() as nat);
            prev@[c[0] as int] is None && is_path_between(g@, c, c[0], d)
        }) by {
            lemma_chain_props(g@, prev@, d, prev@.len() as nat);
        }
        assert forall|d: usize| d < prev@.len() implies ((#[trigger] prev@[d as int]) is None
            <==> least_reached(g@, d)) by {
            assert(prev@[d as int] is Some <==> edge_child_in(tree_edges@, 0, d as int));
            if edge_child_in(tree_edges@, 0, d as int) {
                let r = choose|r: usize|
                    r < d && !edge_child_in(tree_edges@, 0, r as int) && #[trigger]
                        spec_reachable(g@, r, d);
                assert(spec_reachable(g@, r, d));
                assert(!least_reached(g@, d));
            } else {
                assert(least_reached(g@, d));
            }
        }
    }
    prev
}

/// A predecessor map over `n` nodes with nothing recorded.
pub open spec fn no_prev(n: nat) -> Seq<Option<usize>> {
    Seq::new(n, |i: int| None::<usize>)
}

/// The degrees of the nodes not yet seen, summed over nodes `0 .. i`: an
/// upper bound on how many stack pushes the search can still make.
#[verifier::opaque]
pub open spec fn unseen_degree(g: GraphView, seen: Seq<bool>, i: int) -> nat
    decreases i,
{
    if i <= 0 {
        0
    } else if 0 <= i - 1 < seen.len() && seen[i - 1] {
        unseen_degree(g, seen, i - 1)
    } else {
        unseen_degree(g, seen, i - 1) + g[i - 1].len()
    }
}

/// Marking one unseen node seen removes exactly its degree from the sum.
proof fn lemma_unseen_degree_update(g: GraphView, seen: Seq<bool>, u: int, i: int)
    requires
        0 <= u < seen.len(),
        !seen[u],
    ensures
        u < i ==> unseen_degree(g, seen.update(u, true), i) + g[u].len() == unseen_degree(
            g,
            seen,
            i,
        ),
        u >= i ==> unseen_degree(g, seen.update(u, true), i) == unseen_degree(g, seen, i),
    decreases i,
{
    reveal_with_fuel(unseen_degree, 1);
    if i > 0 {
        lemma_unseen_degree_update(g, seen, u, i - 1);
    }
}

/// One neighbor-scan pass of the stack-based search: handle the neighbors
/// of `u` from position `j` on, in the graph's enumeration order. Each
/// neighbor not yet seen has its predecessor overwritten with `u` -- the
/// last push before the neighbor is first popped wins -- and is pushed.
#[verifier::opaque]
pub open spec fn dfs_scan(
    g: GraphView,
    u: usize,
    j: int,
    seen: Seq<bool>,
    prev: Seq<Option<usize>>,
    stack: Seq<usize>,
) -> (Seq<bool>, Seq<Option<usize>>, Seq<usize>)
    decreases g[u as int].len() - j,
{
    if (u as int) >= g.len() || j < 0 || j >= g[u as int].len() {
        (seen, prev, stack)
    } else {
        let y = g[u as int][j].to;
        if (y as int) < seen.len() && !seen[y as int] {
            dfs_scan(g, u, j + 1, seen, prev.update(y as int, Some(u)), stack.push(y))
        } else {
            dfs_scan(g, u, j + 1, seen, prev, stack)
        }
    }
}

/// Run the stack-based search to completion: pop the top of the stack,
/// skip it when already seen, otherwise mark it seen and scan its
/// neighbors. One unit of fuel is spent per pop; every push is popped at
/// most once, so one unit per possible push suffices.
#[verifier::opaque]
pub open spec fn dfs_stack_run(
    g: GraphView,
    seen: Seq<bool>,
    prev: Seq<Option<usize>>,
    stack: Seq<usize>,
    fuel: nat,
) -> Seq<Option<usize>>
    decreases fuel,
{
    if stack.len() == 0 || fuel == 0 {
        prev
    } else {
        let u = stack.last();
        let popped = stack.drop_last();
        if (u as int) < seen.len() && seen[u as int] {
            dfs_stack_run(g, seen, prev, popped, (fuel - 1) as nat)
        } else if (u as int) < seen.len() {
            let scanned = dfs_scan(g, u, 0, seen.update(u as int, true), prev, popped);
            dfs_stack_run(g, scanned.0, scanned.1, scanned.2, (fuel - 1) as nat)
        } else {
            dfs_stack_run(g, seen, prev, popped, (fuel - 1) as nat)
        }
    }
}

/// The predecessor map the stack-based search computes, as a function of
/// the graph and the start node alone. This fixes the result completely,
/// including which predecessor a node pushed several times keeps.
#[verifier::opaque]
pub open spec fn spec_dfs_stack(g: GraphView, s: usize) -> Seq<Option<usize>> {
    dfs_stack_run(
        g,
        no_nodes_seen(g.len()),
        no_prev(g.len()),
        seq![s],
        unseen_degree(g, no_nodes_seen(g.len()), g.len() as int) + 1,
    )
}

/// Unfold one handled neighbor of the scan pass: the neighbor was unseen,
/// so its predecessor is overwritten and it is pushed.
proof fn lemma_dfs_scan_push(
    g: GraphView,
    u: usize,
    j: int,
    seen: Seq<bool>,
    prev: Seq<Option<usize>>,
    stack: Seq<usize>,
    y: usize,
)
    requires
        (u as int) < g.len(),
        0 <= j < g[u as int].len(),
        g[u as int][j].to == y,
        (y as int) < seen.len(),
        !seen[y as int],
    ensures
        dfs_scan(g, u, j, seen, prev, stack) == dfs_scan(
            g,
            u,
            j + 1,
            seen,
            prev.update(y as int, Some(u)),
            stack.push(y),
        ),
{
    reveal_with_fuel(dfs_scan, 1);
}

/// Unfold one skipped neighbor of the scan pass: it was already seen.
proof fn lemma_dfs_scan_skip(
    g: GraphView,
    u: usize,
    j: int,
    seen: Seq<bool>,
    prev: Seq<Option<usize>>,
    stack: Seq<usize>,
)
    requires
        (u as int) < g.len(),
        0 <= j < g[u as int].len(),
        !((g[u as int][j].to as int) < seen.len() && !seen[g[u as int][j].to as int]),
    ensures
        dfs_scan(g, u, j, seen, prev, stack) == dfs_scan(g, u, j + 1, seen, prev, stack),
{
    reveal_with_fuel(dfs_scan, 1);
}

/// A finished scan pass leaves the state as it stands.
proof fn lemma_dfs_scan_done(
    g: GraphView,
    u: usize,
    j: int,
    seen: Seq<bool>,
    prev: Seq<Option<usize>>,
    stack: Seq<usize>,
)
    requires
        j >= g[u as int].len() || (u as int) >= g.len(),
    ensures
        dfs_scan(g, u, j, seen, prev, stack) == (seen, prev, stack),
{
    reveal_with_fuel(dfs_scan, 1);
}

/// Unfold one pop of an already-seen node: it is discarded.
proof fn lemma_dfs_run_pop_seen(
    g: GraphView,
    seen: Seq<bool>,
    prev: Seq<Option<usize>>,
    stack: Seq<usize>,
    fuel: nat,
)
    requires
        stack.len() > 0,
        fuel > 0,
        (stack.last() as int) < seen.len(),
        seen[stack.last() as int],
    ensures
        dfs_stack_run(g, seen, prev, stack, fuel) == dfs_stack_run(
            g,
            seen,
            prev,
            stack.drop_last(),
            (fuel - 1) as nat,
        ),
{
    reveal_with_fuel(dfs_stack_run, 1);
}

/// Unfold one pop of an unseen node: it is marked seen and its neighbors
/// are scanned.
proof fn lemma_dfs_run_pop_unseen(
    g: GraphView,
    seen: Seq<bool>,
    prev: Seq<Option<usize>>,
    stack: Seq<usize>,
    fuel: nat,
)
    requires
        stack.len() > 0,
        fuel > 0,
        (stack.last() as int) < seen.len(),
        !seen[stack.last() as int],
    ensures
        dfs_stack_run(g, seen, prev, stack, fuel) == ({
            let u = stack.last();
            let scanned = dfs_scan(g, u, 0, seen.update(u as int, true), prev, stack.drop_last());
            dfs_stack_run(g, scanned.0, scanned.1, scanned.2, (fuel - 1) as nat)
        }),
{
    reveal_with_fuel(dfs_stack_run, 1);
}

/// A run with an empty stack returns the predecessor map as it stands.
proof fn lemma_dfs_run_done(
    g: GraphView,
    seen: Seq<bool>,
    prev: Seq<Option<usize>>,
    stack: Seq<usize>,
    fuel: nat,
)
    requires
        stack.len() == 0,
    ensures
        dfs_stack_run(g, seen, prev, stack, fuel) == prev,
{
    reveal_with_fuel(dfs_stack_run, 1);
}

/// The state invariant of the stack-based search. `rank` is each seen
/// node's position in the order nodes were marked seen (`-1` when unseen),
/// `ctr` how many nodes have been marked seen.
spec fn stack_inv(
    g: GraphView,
    s: usize,
    states: Seq<NodeTrackState>,
    stack: Seq<usize>,
    rank: Seq<int>,
    ctr: int,
) -> bool {
    &&& states.len() == g.len()
    &&& rank.len() == g.len()
    &&& s < g.len()
    &&& 0 <= ctr
    &&& ctr + count_unseen(seen_flags(states)) == g.len()
    &&& forall|i: int|
        0 <= i < stack.len() ==> (#[trigger] stack[i]) < g.len() && spec_reachable(
            g,
            s,
            stack[i],
        ) && (stack[i] == s || states[stack[i] as int].1 is Some)
    &&& forall|x: int|
        0 <= x < g.len() && (#[trigger] states[x]).0 ==> spec_reachable(g, s, x as usize) && 0
            <= rank[x] < ctr && (x != s ==> states[x].1 is Some)
    &&& forall|x: int| 0 <= x < g.len() && !(#[trigger] states[x]).0 ==> rank[x] == -1
    &&& forall|x: int|
        0 <= x < g.len() && (#[trigger] states[x]).1 is Some ==> x != s && states[x].1->0
            < g.len() && states[states[x].1->0 as int].0 && spec_is_edge(
            g,
            states[x].1->0 as int,
            x,
        ) && 0 <= rank[states[x].1->0 as int] && (states[x].0 ==> rank[states[x].1->0 as int]
            < rank[x]) && (!states[x].0 ==> exists|i: int|
            0 <= i < stack.len() && stack[i] == x as usize)
    &&& states[s as int].1 is None
    &&& (states[s as int].0 || (stack.len() == 1 && stack[0] == s))
}

/// Every neighbor of a node the stack-based search has marked seen (apart
/// from the node `except`) is either seen too or still waiting on the stack.
spec fn stack_closure_except(
    g: GraphView,
    states: Seq<NodeTrackState>,
    stack: Seq<usize>,
    except: int,
) -> bool {
    forall|x: int, y: int|
        0 <= x < g.len() && 0 <= y < g.len() && x != except && (#[trigger] states[x]).0
            && #[trigger] spec_is_edge(g, x, y) ==> (states[y].0 || exists|i: int|
            0 <= i < stack.len() && stack[i] == y as usize)
}

/// Popping an already-seen node keeps the search invariant and the
/// closure bookkeeping: the node is simply discarded.
#[verifier::rlimit(100)]
proof fn lemma_stack_pop_seen(
    g: GraphView,
    s: usize,
    states: Seq<NodeTrackState>,
    stack0: Seq<usize>,
    rank: Seq<int>,
    ctr: int,
)
    requires
        stack_inv(g, s, states, stack0, rank, ctr),
        stack_closure_except(g, states, stack0, -1),
        stack0.len() > 0,
        states[stack0.last() as int].0,
    ensures
        stack_inv(g, s, states, stack0.drop_last(), rank, ctr),
        stack_closure_except(g, states, stack0.drop_last(), -1),
{
    let popped = stack0.drop_last();
    let u = stack0.last();
    assert forall|x: int|
        0 <= x < g.len() && (#[trigger] states[x]).1 is Some && !states[x].0 implies exists|
        i: int|
        0 <= i < popped.len() && popped[i] == x as usize by {
        let i = choose|i: int| 0 <= i < stack0.len() && stack0[i] == x as usize;
        assert(i < stack0.len() - 1);
        assert(popped[i] == x as usize);
    }
    assert forall|x: int, y: int|
        0 <= x < g.len() && 0 <= y < g.len() && x != -1 && (#[trigger] states[x]).0
            && #[trigger] spec_is_edge(g, x, y) implies (states[y].0 || exists|i: int|
        0 <= i < popped.len() && popped[i] == y as usize) by {
        if !states[y].0 {
            let i = choose|i: int| 0 <= i < stack0.len() && stack0[i] == y as usize;
            assert(i < stack0.len() - 1);
            assert(popped[i] == y as usize);
        }
    }
}

/// Popping an unseen node and marking it seen keeps the search invariant;
/// the closure bookkeeping then holds for every seen node but the popped
/// one, whose neighbors are about to be scanned.
#[verifier::rlimit(100)]
proof fn lemma_stack_mark(
    g: GraphView,
    s: usize,
    states0: Seq<NodeTrackState>,
    states1: Seq<NodeTrackState>,
    stack0: Seq<usize>,
    rank0: Seq<int>,
    rank1: Seq<int>,
    ctr0: int,
    u: usize,
)
    requires
        stack_inv(g, s, states0, stack0, rank0, ctr0),
        stack_closure_except(g, states0, stack0, -1),
        stack0.len() > 0,
        stack0.last() == u,
        !states0[u as int].0,
        states1 == states0.update(u as int, (NodeTrackState(true, states0[u as int].1))),
        rank1 == rank0.update(u as int, ctr0),
    ensures
        stack_inv(g, s, states1, stack0.drop_last(), rank1, ctr0 + 1),
        stack_closure_except(g, states1, stack0.drop_last(), u as int),
        count_unseen(seen_flags(states1)) + 1 == count_unseen(seen_flags(states0)),
        states1[u as int].0,
        states1[s as int].0,
        u < g.len(),
{
    let popped = stack0.drop_last();
    assert(seen_flags(states1) =~= seen_flags(states0).update(u as int, true));
    lemma_count_unseen_update(seen_flags(states0), u as int);
    assert forall|x: int|
        0 <= x < g.len() && (#[trigger] states1[x]).1 is Some && !states1[x].0 implies exists|
        i: int|
        0 <= i < popped.len() && popped[i] == x as usize by {
        assert(states0[x].1 is Some && !states0[x].0);
        let i = choose|i: int| 0 <= i < stack0.len() && stack0[i] == x as usize;
        assert(i < stack0.len() - 1);
        assert(popped[i] == x as usize);
    }
    lemma_stack_mark_inv(g, s, states0, states1, stack0, rank0, rank1, ctr0, u);
    assert forall|x: int, y: int|
        0 <= x < g.len() && 0 <= y < g.len() && x != u as int && (#[trigger] states1[x]).0
            && #[trigger] spec_is_edge(g, x, y) implies (states1[y].0 || exists|i: int|
        0 <= i < popped.len() && popped[i] == y as usize) by {
        assert(states0[x].0);
        if !states1[y].0 {
            let i = choose|i: int| 0 <= i < stack0.len() && stack0[i] == y as usize;
            assert(i < stack0.len() - 1);
            assert(popped[i] == y as usize);
        }
    }
}

/// The state part of `lemma_stack_mark`: marking the popped node seen with
/// the next rank keeps the invariant over the remaining stack.
#[verifier::rlimit(100)]
proof fn lemma_stack_mark_inv(
    g: GraphView,
    s: usize,
    states0: Seq<NodeTrackState>,
    states1: Seq<NodeTrackState>,
    stack0: Seq<usize>,
    rank0: Seq<int>,
    rank1: Seq<int>,
    ctr0: int,
    u: usize,
)
    requires
        stack_inv(g, s, states0, stack0, rank0, ctr0),
        stack0.len() > 0,
        stack0.last() == u,
        !states0[u as int].0,
        states1 == states0.update(u as int, (NodeTrackState(true, states0[u as int].1))),
        rank1 == rank0.update(u as int, ctr0),
        count_unseen(seen_flags(states1)) + 1 == count_unseen(seen_flags(states0)),
        forall|x: int|
            0 <= x < g.len() && (#[trigger] states1[x]).1 is Some && !states1[x].0 ==> exists|
                i: int|
                0 <= i < stack0.drop_last().len() && stack0.drop_last()[i] == x as usize,
    ensures
        stack_inv(g, s, states1, stack0.drop_last(), rank1, ctr0 + 1),
{
    let popped = stack0.drop_last();
    assert forall|x: int|
        0 <= x < g.len() && (#[trigger] states1[x]).0 implies spec_reachable(g, s, x as usize)
        && 0 <= rank1[x] < ctr0 + 1 && (x != s ==> states1[x].1 is Some) by {
        if x != u as int {
            assert(states0[x].0);
        }
    }
    assert forall|x: int|
        0 <= x < g.len() && (#[trigger] states1[x]).1 is Some implies x != s && states1[x].1->0
        < g.len() && states1[states1[x].1->0 as int].0 && spec_is_edge(
        g,
        states1[x].1->0 as int,
        x,
    ) && 0 <= rank1[states1[x].1->0 as int] && (states1[x].0 ==> rank1[states1[x].1->0 as int]
        < rank1[x]) by {
        assert(states0[x].1 is Some);
        let p = states0[x].1->0;
        assert(states0[p as int].0);
    }
}

/// Once every neighbor of the just-processed node is seen or waiting on
/// the stack, the closure bookkeeping holds without exception again.
proof fn lemma_stack_neighbors_done(
    g: GraphView,
    states: Seq<NodeTrackState>,
    stack: Seq<usize>,
    u: usize,
)
    requires
        graph_wf(g),
        u < g.len(),
        states.len() == g.len(),
        stack_closure_except(g, states, stack, u as int),
        forall|k: int|
            0 <= k < g[u as int].len() ==> (states[(#[trigger] g[u as int][k]).to as int].0
                || exists|i: int| 0 <= i < stack.len() && stack[i] == g[u as int][k].to),
    ensures
        stack_closure_except(g, states, stack, -1),
{
    assert forall|x: int, y: int|
        0 <= x < g.len() && 0 <= y < g.len() && x != -1 && (#[trigger] states[x]).0
            && #[trigger] spec_is_edge(g, x, y) implies (states[y].0 || exists|i: int|
        0 <= i < stack.len() && stack[i] == y as usize) by {
        if x == u as int {
            let k = choose|k: int|
                0 <= k < g[u as int].len() && (#[trigger] g[u as int][k]).to == y;
            assert(states[(g[u as int][k]).to as int].0 || exists|i: int|
                0 <= i < stack.len() && stack[i] == g[u as int][k].to);
        }
    }
}

/// The postconditions of the stack-based search follow from its invariants
/// once the stack is empty.
proof fn lemma_stack_post(
    g: GraphView,
    s: usize,
    states: Seq<NodeTrackState>,
    rank: Seq<int>,
    ctr: int,
    prev: Seq<Option<usize>>,
)
    requires
        graph_wf(g),
        stack_inv(g, s, states, Seq::<usize>::empty(), rank, ctr),
        stack_closure_except(g, states, Seq::<usize>::empty(), -1),
        prev.len() == states.len(),
        forall|x: int| 0 <= x < prev.len() ==> prev[x] == (#[trigger] states[x]).1,
    ensures
        prev.len() == g.len(),
        prev[s as int] is None,
        prev_list_valid(g, prev),
        forall|d: usize| d < prev.len() ==> chain_ends(prev, d, prev.len() as nat),
        forall|d: usize|
            d < prev.len() ==> ((#[trigger] prev[d as int]) is Some <==> (spec_reachable(g, s, d)
                && d != s)),
        forall|d: usize|
            d < prev.len() && #[trigger] spec_reachable(g, s, d) ==> is_path_between(
                g,
                chain_seq(prev, d, prev.len() as nat),
                s,
                d,
            ),
{
    let nn = g.len();
    let flags = seen_flags(states);
    assert(forall|x: int| 0 <= x < nn ==> flags[x] == (#[trigger] states[x]).0);
    assert(states[s as int].0);
    assert forall|x: usize, y: usize|
        x < g.len() && flags[x as int] && #[trigger] spec_is_edge(g, x as int, y as int)
            implies flags[y as int] by {
        let k = choose|k: int|
            0 <= k < g[x as int].len() && (#[trigger] g[x as int][k]).to == y as int;
        assert(g[x as int][k].to < nn);
        assert(states[x as int].0 && spec_is_edge(g, x as int, y as int));
        assert(states[y as int].0);
    }
    assert(closed_under_edges(g, flags));
    assert forall|x: int| 0 <= x < nn && (#[trigger] prev[x]) is Some implies states[x].1 is Some
        && prev[x]->0 == states[x].1->0 && states[x].0 by {
        assert(prev[x] == states[x].1);
    }
    assert(prev_list_valid(g, prev));
    assert(prev[s as int] is None);
    assert(ctr <= nn);
    assert forall|d: usize| d < prev.len() implies chain_ends(prev, d, prev.len() as nat) by {
        lemma_rank_chain_ends(prev, rank, d, nn as nat);
    }
    assert forall|d: usize| d < prev.len() implies ((#[trigger] prev[d as int]) is Some <==> (
    spec_reachable(g, s, d) && d != s)) by {
        if spec_reachable(g, s, d) && d != s {
            let path = choose|path: Seq<usize>| is_path_between(g, path, s, d);
            lemma_reach_in_closed(g, flags, path, s, d);
            assert(states[d as int].0);
        }
    }
    assert forall|d: usize|
        d < prev.len() && #[trigger] spec_reachable(g, s, d) implies is_path_between(
        g,
        chain_seq(prev, d, prev.len() as nat),
        s,
        d,
    ) by {
        let path = choose|path: Seq<usize>| is_path_between(g, path, s, d);
        lemma_reach_in_closed(g, flags, path, s, d);
        assert(states[d as int].0);
        lemma_chain_props(g, prev, d, prev.len() as nat);
        lemma_chain_root(prev, flags, s, d, prev.len() as nat);
    }
}

/// Stack-based depth-first search from `start_node`, returning the
/// predecessor map. Covers the same reachable set as the recursive form
/// without call-stack recursion. A node pushed several times before it is
/// first popped keeps the predecessor from the last such push: the
/// recorded predecessor is overwritten on every push while the node is
/// still unseen, and frozen when the node is popped. The result is fixed
/// exactly: it equals `spec_dfs_stack`, the stack search written out as a
/// function of the graph and start node, overwrite rule included.
#[verifier::loop_isolation(true)]
#[verifier::rlimit(100)]
#[verifier::spinoff_prover]
pub fn dfs_stack_path(g: &StaticGraph, start_node: usize) -> (prev: Vec<Option<usize>>)
    requires
        graph_wf(g@),
        start_node < g@.len(),
    ensures
        prev@.len() == g@.len(),
        prev@[start_node as int] is None,
        prev_list_valid(g@, prev@),
        forall|d: usize| d < prev@.len() ==> chain_ends(prev@, d, prev@.len() as nat),
        forall|d: usize|
            d < prev@.len() ==> ((#[trigger] prev@[d as int]) is Some <==> (spec_reachable(
                g@,
                start_node,
                d,
            ) && d != start_node)),
        forall|d: usize|
            d < prev@.len() && #[trigger] spec_reachable(g@, start_node, d) ==> is_path_between(
                g@,
                chain_seq(prev@, d, prev@.len() as nat),
                start_node,
                d,
            ),
        prev@ == spec_dfs_stack(g@, start_node),
{
    let mut stack: Vec<usize> = Vec::new();
    stack.push(start_node);
    let mut tracker = g.visited_tracker();
    let ghost mut rank: Seq<int> = Seq::new(g@.len(), |i: int| -1int);
    let ghost mut ctr: int = 0;
    let ghost mut mirror_seen: Seq<bool> = no_nodes_seen(g@.len());
    let ghost mut mirror_prev: Seq<Option<usize>> = no_prev(g@.len());
    let ghost mut fuel_now: nat = unseen_degree(g@, no_nodes_seen(g@.len()), g@.len() as int) + 1;
    proof {
        assert(forall|i: int| 0 <= i < g@.len() ==> !(#[trigger] seen_flags(tracker@)[i]));
        lemma_count_unseen_all_false(seen_flags(tracker@));
        lemma_reachable_refl(g@, start_node);
        assert(stack_inv(g@, start_node, tracker@, stack@, rank, ctr));
        reveal(spec_dfs_stack);
        assert(stack@ =~= seq![start_node]);
        assert(forall|x: int|
            0 <= x < g@.len() ==> mirror_seen[x] == (#[trigger] tracker@[x]).0 && mirror_prev[x]
                == tracker@[x].1);
        assert(spec_dfs_stack(g@, start_node) == dfs_stack_run(
            g@,
            mirror_seen,
            mirror_prev,
            stack@,
            fuel_now,
        ));
    }
    while stack.len() > 0
        invariant
            graph_wf(g@),
            start_node < g@.len(),
            stack_inv(g@, start_node, tracker@, stack@, rank, ctr),
            stack_closure_except(g@, tracker@, stack@, -1),
            mirror_seen.len() == g@.len(),
            mirror_prev.len() == g@.len(),
            forall|x: int|
                0 <= x < g@.len() ==> mirror_seen[x] == (#[trigger] tracker@[x]).0
                    && mirror_prev[x] == tracker@[x].1,
            fuel_now >= stack@.len() + unseen_degree(g@, mirror_seen, g@.len() as int),
            spec_dfs_stack(g@, start_node) == dfs_stack_run(
                g@,
                mirror_seen,
                mirror_prev,
                stack@,
                fuel_now,
            ),
        decreases count_unseen(seen_flags(tracker@)), stack@.len(),
    {
        let ghost stack0 = stack@;
        let ghost pre_seen = mirror_seen;
        let ghost pre_prev = mirror_prev;
        let ghost pre_fuel = fuel_now;
        let node_id = stack.pop().unwrap();
        proof {
            assert(stack0[stack0.len() - 1] == node_id);
            assert(stack@ =~= stack0.drop_last());
        }
        if !tracker.has_seen(node_id) {
            let ghost states0 = tracker@;
            let ghost rank0 = rank;
            let ghost ctr0 = ctr;
            tracker.set_seen(node_id);
            proof {
                assert(tracker@ =~= states0.update(
                    node_id as int,
                    (NodeTrackState(true, states0[node_id as int].1)),
                ));
                rank = rank.update(node_id as int, ctr);
                ctr = ctr + 1;
                lemma_stack_mark(
                    g@,
                    start_node,
                    states0,
                    tracker@,
                    stack0,
                    rank0,
                    rank,
                    ctr0,
                    node_id,
                );
                mirror_seen = mirror_seen.update(node_id as int, true);
                fuel_now = (fuel_now - 1) as nat;
                lemma_unseen_degree_update(g@, pre_seen, node_id as int, g@.len() as int);
            }
            let node = g.node(node_id).unwrap();
            let nbrs = node.neighbors();
            let ghost row = g@[node_id as int];
            let ghost entry_seen = mirror_seen;
            let ghost entry_prev = mirror_prev;
            let ghost entry_stack = stack@;
            let mut j: usize = 0;
            while j < nbrs.len()
                invariant
                    graph_wf(g@),
                    start_node < g@.len(),
                    j <= nbrs@.len(),
                    nbrs@.len() == row.len(),
                    forall|k: int| 0 <= k < row.len() ==> nbrs@[k] == (#[trigger] row[k]).to,
                    row == g@[node_id as int],
                    node_id < g@.len(),
                    tracker@[node_id as int].0,
                    tracker@[start_node as int].0,
                    stack_inv(g@, start_node, tracker@, stack@, rank, ctr),
                    stack_closure_except(g@, tracker@, stack@, node_id as int),
                    forall|k: int|
                        0 <= k < j ==> (tracker@[(#[trigger] row[k]).to as int].0 || exists|i: int|
                            0 <= i < stack@.len() && stack@[i] == row[k].to),
                    mirror_seen == entry_seen,
                    mirror_seen.len() == g@.len(),
                    mirror_prev.len() == g@.len(),
                    forall|x: int|
                        0 <= x < g@.len() ==> mirror_seen[x] == (#[trigger] tracker@[x]).0
                            && mirror_prev[x] == tracker@[x].1,
                    stack@.len() <= entry_stack.len() + j,
                    dfs_scan(g@, node_id, j as int, mirror_seen, mirror_prev, stack@) == dfs_scan(
                        g@,
                        node_id,
                        0,
                        entry_seen,
                        entry_prev,
                        entry_stack,
                    ),
                decreases nbrs@.len() - j,
            {
                let neighbor = nbrs[j];
                proof {
                    assert(row[j as int].to == neighbor);
                    assert(neighbor < g@.len());
                    assert(spec_is_edge(g@, node_id as int, neighbor as int));
                }
                if !tracker.has_seen(neighbor) {
                    let ghost states1 = tracker@;
                    let ghost stack1 = stack@;
                    let ghost prevm1 = mirror_prev;
                    tracker.set_prev(neighbor, node_id);
                    stack.push(neighbor);
                    proof {
                        assert(tracker@ =~= states1.update(
                            neighbor as int,
                            (NodeTrackState(states1[neighbor as int].0, Some(node_id))),
                        ));
                        assert(seen_flags(tracker@) =~= seen_flags(states1));
                        assert(!mirror_seen[neighbor as int]);
                        lemma_dfs_scan_push(
                            g@,
                            node_id,
                            j as int,
                            mirror_seen,
                            prevm1,
                            stack1,
                            neighbor,
                        );
                        mirror_prev = mirror_prev.update(neighbor as int, Some(node_id));
                        assert(stack@[stack@.len() - 1] == neighbor);
                        lemma_reachable_step(g@, start_node, node_id, neighbor);
                        assert forall|x: int|
                            0 <= x < g@.len() && (#[trigger] tracker@[x]).1 is Some
                                && !tracker@[x].0 implies exists|i: int|
                            0 <= i < stack@.len() && stack@[i] == x as usize by {
                            if x == neighbor as int {
                                assert(stack@[stack@.len() - 1] == x as usize);
                            } else {
                                let i = choose|i: int|
                                    0 <= i < stack1.len() && stack1[i] == x as usize;
                                assert(stack@[i] == x as usize);
                            }
                        }
                        assert(stack_inv(g@, start_node, tracker@, stack@, rank, ctr));
                        assert forall|x: int, y: int|
                            0 <= x < g@.len() && 0 <= y < g@.len() && x != node_id as int && (
                            #[trigger] tracker@[x]).0 && #[trigger] spec_is_edge(g@, x, y)
                            implies (tracker@[y].0 || exists|i: int|
                            0 <= i < stack@.len() && stack@[i] == y as usize) by {
                            if !tracker@[y].0 {
                                let i = choose|i: int|
                                    0 <= i < stack1.len() && stack1[i] == y as usize;
                                assert(stack@[i] == y as usize);
                            }
                        }
                    }
                } else {
                    proof {
                        assert(mirror_seen[neighbor as int]);
                        lemma_dfs_scan_skip(
                            g@,
                            node_id,
                            j as int,
                            mirror_seen,
                            mirror_prev,
                            stack@,
                        );
                    }
                }
                j = j + 1;
            }
            proof {
                lemma_stack_neighbors_done(g@, tracker@, stack@, node_id);
                lemma_dfs_scan_done(
                    g@,
                    node_id,
                    row.len() as int,
                    mirror_seen,
                    mirror_prev,
                    stack@,
                );
                assert(dfs_scan(g@, node_id, 0, entry_seen, entry_prev, entry_stack) == (
                    mirror_seen,
                    mirror_prev,
                    stack@,
                ));
                assert(pre_fuel > 0);
                lemma_dfs_run_pop_unseen(g@, pre_seen, pre_prev, stack0, pre_fuel);
                assert(dfs_stack_run(g@, pre_seen, pre_prev, stack0, pre_fuel)
                    == dfs_stack_run(g@, mirror_seen, mirror_prev, stack@, fuel_now));
            }
        } else {
            proof {
                lemma_stack_pop_seen(g@, start_node, tracker@, stack0, rank, ctr);
                assert(pre_seen[node_id as int]);
                assert(pre_fuel > 0);
                lemma_dfs_run_pop_seen(g@, pre_seen, pre_prev, stack0, pre_fuel);
                fuel_now = (fuel_now - 1) as nat;
            }
        }
    }
    let prev = tracker.prev_node_list();
    proof {
        assert(stack@ =~= Seq::<usize>::empty());
        lemma_stack_post(g@, start_node, tracker@, rank, ctr, prev@);
        assert forall|i: int| 0 <= i < prev@.len() implies prev@[i] == mirror_prev[i] by {
            assert(prev@[i] == tracker@[i].1);
            assert(mirror_prev[i] == tracker@[i].1);
        }
        assert(prev@ =~= mirror_prev);
        lemma_dfs_run_done(g@, mirror_seen, mirror_prev, stack@, fuel_now);
        assert(spec_dfs_stack(g@, start_node) == mirror_prev);
    }
    prev
}

/// A marking over `n` nodes with every node marked.
pub open spec fn all_nodes(n: nat) -> Seq<bool> {
    Seq::new(n, |i: int| true)
}

/// The component of `x` has a least member `r`: `r`'s label equals `x`'s,
/// `x` is reachable from `r`, and no marked node before `r` carries the
/// label.
pub open spec fn comp_rooted_in(
    g: GraphView,
    comp: Seq<usize>,
    marked: Seq<bool>,
    x: usize,
) -> bool {
    exists|r: usize|
        r <= x && marked[r as int] && comp[r as int] == comp[x as int] && #[trigger]
            spec_reachable(g, r, x) && (forall|z: int|
            0 <= z < r ==> marked[z] && comp[z] != comp[x as int])
}

/// Some node with the given component label exists.
pub open spec fn comp_used(comp: Seq<usize>, assigned: Seq<bool>, c: int) -> bool {
    exists|y: int| 0 <= y < comp.len() && assigned[y] && comp[y] == c
}

/// `x` is the least member of its component: no node with a smaller id
/// carries the same label.
pub open spec fn is_comp_root(comp: Seq<usize>, x: int) -> bool {
    forall|z: int| 0 <= z < x ==> (#[trigger] comp[z]) != comp[x]
}

/// A component labeling that is constant across edges is constant along
/// every walk.
proof fn lemma_comp_path(g: GraphView, comp: Seq<usize>, path: Seq<usize>, s: usize, d: usize)
    requires
        comp.len() == g.len(),
        forall|a: int, b: int|
            0 <= a < g.len() && 0 <= b < g.len() && #[trigger] spec_is_edge(g, a, b) ==> comp[b]
                == comp[a],
        is_path_between(g, path, s, d),
    ensures
        comp[s as int] == comp[d as int],
    decreases path.len(),
{
    if path.len() > 1 {
        let pre = path.drop_last();
        let p = path[path.len() - 2];
        assert forall|i: int| 1 <= i < pre.len() implies #[trigger] spec_is_edge(
            g,
            pre[i - 1] as int,
            pre[i] as int,
        ) by {
            assert(spec_is_edge(g, path[i - 1] as int, path[i] as int));
        }
        assert(is_path_between(g, pre, s, p));
        lemma_comp_path(g, comp, pre, s, p);
        assert(spec_is_edge(g, path[path.len() - 2] as int, path[path.len() - 1] as int));
        assert(path.last() == d);
    }
}

/// Partition all nodes into components: sweep node ids in increasing
/// order, and whenever a node has no component yet, run a full depth-first
/// reachability traversal from it and give everything reached the current
/// component counter.
///
/// Component ids are assigned in increasing order of first visitation:
/// each component's id is bounded by its least member, ids are contiguous,
/// every member is reachable from the component's least member, and a
/// neighbor's id is never larger. On an undirected graph (edges mirrored)
/// connected nodes therefore share a component; on a directed graph the
/// labeling is reachability-based, not strongly-connected components.
#[verifier::loop_isolation(true)]
#[verifier::rlimit(100)]
#[verifier::spinoff_prover]
pub fn dfs_connected_components(g: &StaticGraph) -> (components: Vec<usize>)
    requires
        graph_wf(g@),
    ensures
        components@.len() == g@.len(),
        forall|x: int| 0 <= x < g@.len() ==> (#[trigger] components@[x]) <= x,
        forall|x: int, y: int|
            0 <= x < g@.len() && 0 <= y < g@.len() && #[trigger] spec_is_edge(g@, x, y)
                ==> components@[y] <= components@[x],
        forall|x: int, y: int|
            0 <= x < g@.len() && 0 <= y < g@.len() && #[trigger] spec_is_edge(g@, x, y)
                && spec_is_edge(g@, y, x) ==> components@[x] == components@[y],
        forall|x: int, c: int|
            0 <= x < g@.len() && 0 <= c < (#[trigger] components@[x]) ==> #[trigger] comp_used(
                components@,
                all_nodes(g@.len()),
                c,
            ),
        forall|x: usize|
            x < g@.len() ==> #[trigger] comp_rooted_in(g@, components@, all_nodes(g@.len()), x),
        forall|x: int, y: int|
            0 <= x < g@.len() && 0 <= y < g@.len() && #[trigger] is_comp_root(components@, x)
                && #[trigger] is_comp_root(components@, y) && components@[x] < components@[y]
                ==> x < y,
        (forall|a: int, b: int|
            0 <= a < g@.len() && 0 <= b < g@.len() ==> (#[trigger] spec_is_edge(g@, a, b)
                <==> spec_is_edge(g@, b, a))) ==> (forall|x: usize, y: usize|
            x < g@.len() && y < g@.len() && #[trigger] spec_reachable(g@, x, y)
                ==> components@[x as int] == components@[y as int]),
{
    let n = g.node_count();
    let mut assigned: Vec<bool> = Vec::new();
    let mut components: Vec<usize> = Vec::new();
    let mut i: usize = 0;
    while i < n
        invariant
            i <= n,
            assigned@.len() == i,
            components@.len() == i,
            forall|k: int| 0 <= k < i ==> !(#[trigger] assigned@[k]),
            forall|k: int| 0 <= k < i ==> (#[trigger] components@[k]) == 0,
        decreases n - i,
    {
        assigned.push(false);
        components.push(0);
        i = i + 1;
    }
    let mut curr_comp: usize = 0;
    let mut node_id: usize = 0;
    let ghost mut roots: Seq<usize> = Seq::empty();
    while node_id < n
        invariant
            graph_wf(g@),
            n == g@.len(),
            node_id <= n,
            curr_comp <= node_id,
            roots.len() == curr_comp,
            forall|c: int|
                0 <= c < curr_comp ==> (#[trigger] roots[c]) < node_id && assigned@[roots[c] as int]
                    && components@[roots[c] as int] == c && (forall|z: int|
                    0 <= z < roots[c] ==> components@[z] != c),
            forall|c1: int, c2: int| 0 <= c1 < c2 < curr_comp ==> roots[c1] < roots[c2],
            assigned@.len() == n,
            components@.len() == n,
            forall|x: int| 0 <= x < node_id ==> #[trigger] assigned@[x],
            forall|x: int|
                0 <= x < n && #[trigger] assigned@[x] ==> components@[x] < curr_comp
                    && components@[x] <= x,
            forall|x: int, y: int|
                0 <= x < n && 0 <= y < n && (#[trigger] assigned@[x]) && #[trigger] spec_is_edge(
                    g@,
                    x,
                    y,
                ) ==> assigned@[y] && components@[y] <= components@[x],
            forall|c: int|
                0 <= c < curr_comp ==> #[trigger] comp_used(components@, assigned@, c),
            forall|x: usize|
                x < n && assigned@[x as int] ==> #[trigger] comp_rooted_in(
                    g@,
                    components@,
                    assigned@,
                    x,
                ),
        decreases n - node_id,
    {
        if !assigned[node_id] {
            let ghost assigned0 = assigned@;
            let ghost comp0 = components@;
            let mut tree_edges: Vec<(usize, usize)> = Vec::new();
            dfs_recursive_basic(g, node_id, &mut assigned, &mut tree_edges);
            components.set(node_id, curr_comp);
            let mut k: usize = 0;
            proof {
                assert forall|k2: int|
                    0 <= k2 < tree_edges@.len() implies (#[trigger] tree_edges@[k2]).1 < n
                    && tree_edges@[k2].1 != node_id by {}
            }
            while k < tree_edges.len()
                invariant
                    k <= tree_edges@.len(),
                    components@.len() == n,
                    comp0.len() == n,
                    node_id < n,
                    forall|k2: int|
                        0 <= k2 < tree_edges@.len() ==> (#[trigger] tree_edges@[k2]).1 < n
                            && tree_edges@[k2].1 != node_id,
                    components@[node_id as int] == curr_comp,
                    forall|k2: int|
                        0 <= k2 < k ==> components@[(#[trigger] tree_edges@[k2]).1 as int]
                            == curr_comp,
                    forall|x: int|
                        0 <= x < n && x != node_id as int && (forall|k2: int|
                            0 <= k2 < k ==> (#[trigger] tree_edges@[k2]).1 != x) ==> (
                        #[trigger] components@[x]) == comp0[x],
                decreases tree_edges@.len() - k,
            {
                let edge = tree_edges[k];
                components.set(edge.1, curr_comp);
                k = k + 1;
            }
            proof {
                assert forall|x: int|
                    0 <= x < n && x != node_id as int && !edge_child_in(tree_edges@, 0, x)
                    implies (#[trigger] components@[x]) == comp0[x] by {
                    assert(forall|k2: int|
                        0 <= k2 < tree_edges@.len() ==> (#[trigger] tree_edges@[k2]).1 != x);
                }
                lemma_components_step(
                    g@,
                    assigned0,
                    assigned@,
                    comp0,
                    components@,
                    tree_edges@,
                    node_id,
                    curr_comp as int,
                );
                roots = roots.push(node_id);
                assert forall|c: int|
                    0 <= c < curr_comp + 1 implies (#[trigger] roots[c]) < node_id + 1
                    && assigned@[roots[c] as int] && components@[roots[c] as int] == c && (forall|
                    z: int|
                    0 <= z < roots[c] ==> components@[z] != c) by {
                    if c < curr_comp {
                        assert(assigned0[roots[c] as int]);
                        assert(components@[roots[c] as int] == comp0[roots[c] as int]);
                        assert forall|z: int| 0 <= z < roots[c] implies components@[z] != c by {
                            assert(assigned0[z]);
                            assert(components@[z] == comp0[z]);
                        }
                    } else {
                        assert(roots[c] == node_id);
                        assert forall|z: int| 0 <= z < node_id implies components@[z] != c by {
                            assert(assigned0[z]);
                            assert(components@[z] == comp0[z]);
                            assert(comp0[z] < curr_comp);
                        }
                    }
                }
            }
            curr_comp = curr_comp + 1;
        }
        node_id = node_id + 1;
    }
    proof {
        assert forall|x: int| 0 <= x < g@.len() implies (#[trigger] components@[x]) <= x by {
            assert(assigned@[x]);
        }
        assert forall|x: int, y: int|
            0 <= x < g@.len() && 0 <= y < g@.len() && #[trigger] spec_is_edge(g@, x, y)
            implies components@[y] <= components@[x] by {
            assert(assigned@[x]);
        }
        assert forall|x: int, y: int|
            0 <= x < g@.len() && 0 <= y < g@.len() && #[trigger] spec_is_edge(g@, x, y)
            && spec_is_edge(g@, y, x) implies components@[x] == components@[y] by {
            assert(assigned@[x] && assigned@[y]);
        }
        assert forall|x: usize| x < g@.len() implies #[trigger] comp_rooted_in(
            g@,
            components@,
            all_nodes(g@.len()),
            x,
        ) by {
            assert(assigned@[x as int]);
            assert(comp_rooted_in(g@, components@, assigned@, x));
            let r = choose|r: usize|
                r <= x && assigned@[r as int] && components@[r as int] == components@[x as int]
                    && #[trigger] spec_reachable(g@, r, x) && (forall|z: int|
                    0 <= z < r ==> assigned@[z] && components@[z] != components@[x as int]);
            assert forall|z: int|
                0 <= z < r implies all_nodes(g@.len())[z] && components@[z]
                != components@[x as int] by {
                assert(assigned@[z] && components@[z] != components@[x as int]);
            }
        }
        assert forall|x: int, c: int|
            0 <= x < g@.len() && 0 <= c < (#[trigger] components@[x]) implies #[trigger] comp_used(
            components@,
            all_nodes(g@.len()),
            c,
        ) by {
            assert(assigned@[x]);
            assert(components@[x] < curr_comp);
            assert(comp_used(components@, assigned@, c));
            let y = choose|y: int|
                0 <= y < components@.len() && assigned@[y] && components@[y] == c;
            assert(all_nodes(g@.len())[y]);
            assert(comp_used(components@, all_nodes(g@.len()), c));
        }
        assert forall|x: int, y: int|
            0 <= x < g@.len() && 0 <= y < g@.len() && #[trigger] is_comp_root(components@, x)
                && #[trigger] is_comp_root(components@, y) && components@[x] < components@[y]
            implies x < y by {
            assert(assigned@[x] && assigned@[y]);
            let cx = components@[x] as int;
            let cy = components@[y] as int;
            assert(0 <= cx < curr_comp && 0 <= cy < curr_comp);
            // the least member of each component is exactly its sweep root
            assert(x == roots[cx]) by {
                assert(components@[roots[cx] as int] == cx);
                if roots[cx] < x {
                    assert(components@[roots[cx] as int] != components@[x]);
                } else if x < roots[cx] {
                    assert(components@[x] != cx);
                }
            }
            assert(y == roots[cy]) by {
                assert(components@[roots[cy] as int] == cy);
                if roots[cy] < y {
                    assert(components@[roots[cy] as int] != components@[y]);
                } else if y < roots[cy] {
                    assert(components@[y] != cy);
                }
            }
            assert(roots[cx] < roots[cy]);
        }
        if forall|a: int, b: int|
            0 <= a < g@.len() && 0 <= b < g@.len() ==> (#[trigger] spec_is_edge(g@, a, b)
                <==> spec_is_edge(g@, b, a)) {
            assert forall|a: int, b: int|
                0 <= a < g@.len() && 0 <= b < g@.len() && #[trigger] spec_is_edge(g@, a, b)
                implies components@[b] == components@[a] by {
                assert(spec_is_edge(g@, b, a));
                assert(assigned@[a] && assigned@[b]);
            }
            assert forall|x: usize, y: usize|
                x < g@.len() && y < g@.len() && #[trigger] spec_reachable(g@, x, y)
                implies components@[x as int] == components@[y as int] by {
                let path = choose|path: Seq<usize>| is_path_between(g@, path, x, y);
                lemma_comp_path(g@, components@, path, x, y);
            }
        }
    }
    components
}

/// One sweep step of the component labeling keeps its invariants: the
/// nodes a descent from an unlabeled root reached all get the current
/// counter, and nothing else changes.
#[verifier::rlimit(100)]
proof fn lemma_components_step(
    g: GraphView,
    assigned0: Seq<bool>,
    assigned1: Seq<bool>,
    comp0: Seq<usize>,
    comp1: Seq<usize>,
    edges: Seq<(usize, usize)>,
    root: usize,
    curr: int,
)
    requires
        graph_wf(g),
        assigned0.len() == g.len(),
        assigned1.len() == g.len(),
        comp0.len() == g.len(),
        comp1.len() == g.len(),
        root < g.len(),
        !assigned0[root as int],
        0 <= curr,
        curr <= root,
        forall|x: int| 0 <= x < root ==> #[trigger] assigned0[x],
        forall|x: int|
            0 <= x < g.len() && #[trigger] assigned0[x] ==> comp0[x] < curr && comp0[x] <= x,
        forall|x: int, y: int|
            0 <= x < g.len() && 0 <= y < g.len() && (#[trigger] assigned0[x])
                && #[trigger] spec_is_edge(g, x, y) ==> assigned0[y] && comp0[y] <= comp0[x],
        forall|c: int| 0 <= c < curr ==> #[trigger] comp_used(comp0, assigned0, c),
        forall|x: usize|
            x < g.len() && assigned0[x as int] ==> #[trigger] comp_rooted_in(
                g,
                comp0,
                assigned0,
                x,
            ),
        // what the descent guarantees
        forall|x: int| 0 <= x < g.len() && assigned0[x] ==> #[trigger] assigned1[x],
        assigned1[root as int],
        dfs_edges_ok(g, assigned0, root, 0, edges),
        forall|x: int|
            0 <= x < g.len() ==> ((#[trigger] assigned1[x]) <==> (assigned0[x] || x == root as int
                || edge_child_in(edges, 0, x))),
        forall|x: int, y: int|
            0 <= x < g.len() && 0 <= y < g.len() && (#[trigger] assigned1[x]) && !assigned0[x]
                && #[trigger] spec_is_edge(g, x, y) ==> assigned1[y],
        forall|x: int|
            0 <= x < g.len() && (#[trigger] assigned1[x]) && !assigned0[x] ==> spec_reachable(
                g,
                root,
                x as usize,
            ),
        // what the labeling loop did
        comp1[root as int] == curr,
        forall|k2: int|
            0 <= k2 < edges.len() ==> comp1[(#[trigger] edges[k2]).1 as int] == curr,
        forall|x: int|
            0 <= x < g.len() && x != root as int && !edge_child_in(edges, 0, x) ==> comp1[x]
                == comp0[x],
    ensures
        forall|x: int| 0 <= x < g.len() && #[trigger] assigned0[x] ==> comp1[x] == comp0[x],
        forall|x: int|
            0 <= x < g.len() && #[trigger] assigned1[x] ==> comp1[x] < curr + 1 && comp1[x] <= x,
        forall|x: int, y: int|
            0 <= x < g.len() && 0 <= y < g.len() && (#[trigger] assigned1[x])
                && #[trigger] spec_is_edge(g, x, y) ==> assigned1[y] && comp1[y] <= comp1[x],
        forall|c: int| 0 <= c < curr + 1 ==> #[trigger] comp_used(comp1, assigned1, c),
        forall|x: usize|
            x < g.len() && assigned1[x as int] ==> #[trigger] comp_rooted_in(
                g,
                comp1,
                assigned1,
                x,
            ),
{
    // a node the descent reached carries the new counter, everything else
    // its old label
    assert forall|x: int|
        0 <= x < g.len() && (#[trigger] assigned1[x]) && !assigned0[x] implies comp1[x]
        == curr by {
        if x != root as int {
            assert(edge_child_in(edges, 0, x));
            let k2 = choose|k2: int| 0 <= k2 < edges.len() && (#[trigger] edges[k2]).1 == x;
            assert(comp1[edges[k2].1 as int] == curr);
        }
    }
    assert forall|x: int| 0 <= x < g.len() && (#[trigger] assigned0[x]) implies comp1[x]
        == comp0[x] by {
        assert(x != root as int);
        if edge_child_in(edges, 0, x) {
            let k2 = choose|k2: int| 0 <= k2 < edges.len() && (#[trigger] edges[k2]).1 == x;
            assert(!assigned0[edges[k2].1 as int]);
            assert(false);
        }
    }
    assert forall|x: int|
        0 <= x < g.len() && #[trigger] assigned1[x] implies comp1[x] < curr + 1 && comp1[x]
        <= x by {
        if !assigned0[x] {
            assert(comp1[x] == curr);
            if x < root {
                assert(assigned0[x]);
            }
        }
    }
    assert forall|x: int, y: int|
        0 <= x < g.len() && 0 <= y < g.len() && (#[trigger] assigned1[x])
            && #[trigger] spec_is_edge(g, x, y) implies assigned1[y] && comp1[y] <= comp1[x] by {
        if assigned0[x] {
            assert(assigned0[y] && comp0[y] <= comp0[x]);
        } else {
            assert(assigned1[y]);
            assert(comp1[x] == curr);
            if assigned0[y] {
                assert(comp1[y] == comp0[y] && comp0[y] < curr);
            } else {
                assert(comp1[y] == curr);
            }
        }
    }
    assert forall|c: int| 0 <= c < curr + 1 implies #[trigger] comp_used(comp1, assigned1, c) by {
        if c < curr {
            assert(comp_used(comp0, assigned0, c));
            let y = choose|y: int| 0 <= y < comp0.len() && assigned0[y] && comp0[y] == c;
            assert(assigned1[y] && comp1[y] == c);
        } else {
            assert(assigned1[root as int] && comp1[root as int] == c);
        }
    }
    assert forall|x: usize|
        x < g.len() && assigned1[x as int] implies #[trigger] comp_rooted_in(
        g,
        comp1,
        assigned1,
        x,
    ) by {
        if assigned0[x as int] {
            assert(comp_rooted_in(g, comp0, assigned0, x));
            let r = choose|r: usize|
                r <= x && assigned0[r as int] && comp0[r as int] == comp0[x as int] && #[trigger]
                    spec_reachable(g, r, x) && (forall|z: int|
                    0 <= z < r ==> assigned0[z] && comp0[z] != comp0[x as int]);
            assert(assigned0[r as int]);
            assert(comp1[r as int] == comp0[r as int]);
            assert forall|z: int| 0 <= z < r implies assigned1[z] && comp1[z] != comp1[x as int] by {
                assert(assigned0[z] && comp0[z] != comp0[x as int]);
                assert(comp1[z] == comp0[z]);
            }
        } else {
            assert(comp1[x as int] == curr);
            assert(x as int >= root);
            assert(spec_reachable(g, root, x));
            assert forall|z: int| 0 <= z < root implies assigned1[z] && comp1[z]
                != comp1[x as int] by {
                assert(assigned0[z]);
                assert(comp0[z] < curr);
                assert(comp1[z] == comp0[z]);
            }
            assert(root <= x && assigned1[root as int] && comp1[root as int]
                == comp1[x as int] && spec_reachable(g, root, x));
        }
    }
}

} // verus!
