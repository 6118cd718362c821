//! Breadth-first search: level-order traversal from a start node, producing
//! a predecessor map. Every node reachable from the start is discovered
//! exactly once, the predecessor chain of any discovered node is a shortest
//! path (by edge count) back to the start, and unreachable nodes keep no
//! predecessor.

#![verifier::loop_isolation(false)]

use vstd::prelude::*;

use crate::graph::GraphView;
use crate::graph::StaticGraph;
use crate::graph::closed_under_edges;
use crate::graph::graph_wf;
use crate::graph::is_path_between;
use crate::graph::lemma_reach_in_closed;
use crate::graph::lemma_reachable_refl;
use crate::graph::lemma_reachable_step;
use crate::graph::spec_is_edge;
use crate::graph::spec_reachable;
use crate::path::chain_ends;
use crate::path::chain_seq;
use crate::path::lemma_chain_props;
use crate::path::lemma_rank_chain_ends;
use crate::path::prev_list_valid;
use crate::tracker::NodeTrackState;
use crate::tracker::count_unseen;
use crate::tracker::lemma_count_unseen_all_false;
use crate::tracker::lemma_count_unseen_update;
use crate::tracker::seen_flags;

verus! {

/// One neighbor-scan pass of the level-order search: handle the neighbors
/// of `u` from position `j` on, in the graph's enumeration order, marking
/// each unseen one seen with `u` as its predecessor and appending it to the
/// discovery sequence.
#[verifier::opaque]
pub open spec fn bfs_scan(
    g: GraphView,
    u: usize,
    j: int,
    seen: Seq<bool>,
    prev: Seq<Option<usize>>,
    q: Seq<usize>,
) -> (Seq<bool>, Seq<Option<usize>>, Seq<usize>)
    decreases g[u as int].len() - j,
{
    if (u as int) >= g.len() || j < 0 || j >= g[u as int].len() {
        (seen, prev, q)
    } else {
        let y = g[u as int][j].to;
        if (y as int) < seen.len() && !seen[y as int] {
            bfs_scan(
                g,
                u,
                j + 1,
                seen.update(y as int, true),
                prev.update(y as int, Some(u)),
                q.push(y),
            )
        } else {
            bfs_scan(g, u, j + 1, seen, prev, q)
        }
    }
}

/// Run the level-order search to completion: process the discovery
/// sequence entry at position `h`, then continue. One unit of fuel is spent
/// per entry, and the number of entries never exceeds the node count, so
/// fuel equal to the node count suffices.
#[verifier::opaque]
pub open spec fn bfs_run(
    g: GraphView,
    seen: Seq<bool>,
    prev: Seq<Option<usize>>,
    q: Seq<usize>,
    h: int,
    fuel: nat,
) -> Seq<Option<usize>>
    decreases fuel,
{
    if h < 0 || h >= q.len() || fuel == 0 {
        prev
    } else {
        let scanned = bfs_scan(g, q[h], 0, seen, prev, q);
        bfs_run(g, scanned.0, scanned.1, scanned.2, h + 1, (fuel - 1) as nat)
    }
}

/// The initial seen set of the search: only the start node.
pub open spec fn bfs_init_seen(n: nat, s: usize) -> Seq<bool> {
    Seq::new(n, |i: int| i == s as int)
}

/// The initial predecessor map: nothing recorded.
pub open spec fn bfs_init_prev(n: nat) -> Seq<Option<usize>> {
    Seq::new(n, |i: int| None::<usize>)
}

/// The predecessor map breadth-first search computes, as a function of the
/// graph and the start node alone. This fixes the result completely --
/// neighbors are taken in exactly the graph's enumeration order, so the
/// search is deterministic given a deterministic graph.
#[verifier::opaque]
pub open spec fn spec_bfs(g: GraphView, s: usize) -> Seq<Option<usize>> {
    bfs_run(g, bfs_init_seen(g.len(), s), bfs_init_prev(g.len()), seq![s], 0, g.len())
}

/// Unfold one handled neighbor of the scan pass: the neighbor was unseen,
/// so it is marked, recorded, and enqueued.
proof fn lemma_bfs_scan_push(
    g: GraphView,
    u: usize,
    j: int,
    seen: Seq<bool>,
    prev: Seq<Option<usize>>,
    q: Seq<usize>,
    y: usize,
)
    requires
        (u as int) < g.len(),
        0 <= j < g[u as int].len(),
        g[u as int][j].to == y,
        (y as int) < seen.len(),
        !seen[y as int],
    ensures
        bfs_scan(g, u, j, seen, prev, q) == bfs_scan(
            g,
            u,
            j + 1,
            seen.update(y as int, true),
            prev.update(y as int, Some(u)),
            q.push(y),
        ),
{
    reveal_with_fuel(bfs_scan, 1);
}

/// Unfold one skipped neighbor of the scan pass: the neighbor was already
/// seen, so nothing changes.
proof fn lemma_bfs_scan_skip(
    g: GraphView,
    u: usize,
    j: int,
    seen: Seq<bool>,
    prev: Seq<Option<usize>>,
    q: Seq<usize>,
)
    requires
        (u as int) < g.len(),
        0 <= j < g[u as int].len(),
        !((g[u as int][j].to as int) < seen.len() && !seen[g[u as int][j].to as int]),
    ensures
        bfs_scan(g, u, j, seen, prev, q) == bfs_scan(g, u, j + 1, seen, prev, q),
{
    reveal_with_fuel(bfs_scan, 1);
}

/// A finished scan pass leaves the state as it stands.
proof fn lemma_bfs_scan_done(
    g: GraphView,
    u: usize,
    j: int,
    seen: Seq<bool>,
    prev: Seq<Option<usize>>,
    q: Seq<usize>,
)
    requires
        j >= g[u as int].len() || (u as int) >= g.len(),
    ensures
        bfs_scan(g, u, j, seen, prev, q) == (seen, prev, q),
{
    reveal_with_fuel(bfs_scan, 1);
}

/// Unfold one step of the run: the entry at position `h` is scanned and
/// the run continues behind it.
proof fn lemma_bfs_run_step(
    g: GraphView,
    seen: Seq<bool>,
    prev: Seq<Option<usize>>,
    q: Seq<usize>,
    h: int,
    fuel: nat,
)
    requires
        0 <= h < q.len(),
        fuel > 0,
    ensures
        bfs_run(g, seen, prev, q, h, fuel) == ({
            let scanned = bfs_scan(g, q[h], 0, seen, prev, q);
            bfs_run(g, scanned.0, scanned.1, scanned.2, h + 1, (fuel - 1) as nat)
        }),
{
    reveal_with_fuel(bfs_run, 1);
}

/// A finished run returns the predecessor map as it stands.
proof fn lemma_bfs_run_done(
    g: GraphView,
    seen: Seq<bool>,
    prev: Seq<Option<usize>>,
    q: Seq<usize>,
    h: int,
    fuel: nat,
)
    requires
        h >= q.len(),
    ensures
        bfs_run(g, seen, prev, q, h, fuel) == prev,
{
    reveal_with_fuel(bfs_run, 1);
}

/// The state invariant of the search. `q` is the discovery sequence (every
/// node ever enqueued, in order), `dist` the discovery distance of each seen
/// node (`-1` when unseen), `rank` each seen node's position in `q` (`-1`
/// when unseen).
spec fn bfs_inv(
    g: GraphView,
    s: usize,
    states: Seq<NodeTrackState>,
    q: Seq<usize>,
    dist: Seq<int>,
    rank: Seq<int>,
) -> bool {
    &&& states.len() == g.len()
    &&& dist.len() == g.len()
    &&& rank.len() == g.len()
    &&& s < g.len()
    &&& q.len() >= 1
    &&& q[0] == s
    &&& states[s as int].0
    &&& dist[s as int] == 0
    &&& states[s as int].1 is None
    &&& forall|i: int|
        0 <= i < q.len() ==> (#[trigger] q[i]) < g.len() && states[q[i] as int].0
            && rank[q[i] as int] == i
    &&& forall|x: int|
        0 <= x < g.len() && (#[trigger] states[x]).0 ==> 0 <= rank[x] < q.len() && q[rank[x]]
            == x && dist[x] >= 0 && spec_reachable(g, s, x as usize)
    &&& forall|x: int|
        0 <= x < g.len() && !(#[trigger] states[x]).0 ==> rank[x] == -1 && dist[x] == -1
            && states[x].1 is None
    &&& forall|x: int|
        0 <= x < g.len() && (#[trigger] states[x]).1 is Some ==> x != s && states[x].0
            && states[x].1->0 < g.len() && states[states[x].1->0 as int].0 && spec_is_edge(
            g,
            states[x].1->0 as int,
            x,
        ) && dist[x] == dist[states[x].1->0 as int] + 1 && rank[states[x].1->0 as int] < rank[x]
    &&& forall|x: int|
        0 <= x < g.len() && (#[trigger] states[x]).0 && x != s ==> states[x].1 is Some
    &&& forall|i: int, j: int|
        0 <= i <= j < q.len() ==> dist[(#[trigger] q[i]) as int] <= dist[(#[trigger] q[j]) as int]
    &&& count_unseen(seen_flags(states)) + q.len() == g.len()
}

/// Every neighbor of an already-processed entry of the discovery sequence
/// has been seen, at a discovery distance at most one greater.
spec fn bfs_processed(
    g: GraphView,
    states: Seq<NodeTrackState>,
    q: Seq<usize>,
    dist: Seq<int>,
    h: int,
) -> bool {
    forall|i: int, y: int|
        0 <= i < h && 0 <= y < g.len() && #[trigger] spec_is_edge(g, q[i] as int, y)
            ==> states[y].0 && dist[y] <= dist[q[i] as int] + 1
}

/// The reconstructed chain of a seen node starts at the start node and has
/// one node more than the node's discovery distance.
proof fn lemma_chain_shape(prev: Seq<Option<usize>>, dist: Seq<int>, s: usize, d: usize, fuel: nat)
    requires
        dist.len() == prev.len(),
        s < prev.len(),
        d < prev.len(),
        prev[s as int] is None,
        dist[s as int] == 0,
        dist[d as int] >= 0,
        forall|x: int|
            0 <= x < prev.len() && dist[x] >= 0 && x != s ==> (#[trigger] prev[x]) is Some,
        forall|x: int|
            0 <= x < prev.len() && (#[trigger] prev[x]) is Some ==> prev[x]->0 < prev.len()
                && dist[prev[x]->0 as int] >= 0 && dist[x] == dist[prev[x]->0 as int] + 1,
        chain_ends(prev, d, fuel),
    ensures
        chain_seq(prev, d, fuel)[0] == s,
        chain_seq(prev, d, fuel).len() == dist[d as int] + 1,
    decreases fuel,
{
    match prev[d as int] {
        None => {
            assert(d == s);
        },
        Some(p) => {
            lemma_chain_shape(prev, dist, s, p, (fuel - 1) as nat);
        },
    }
}

/// Discovery distances bound every walk: when the seen set is closed under
/// edges with distances growing by at most one per edge, any walk from the
/// start to `d` has at least `dist[d]` edges.
proof fn lemma_bfs_min(
    g: GraphView,
    states: Seq<NodeTrackState>,
    dist: Seq<int>,
    s: usize,
    path: Seq<usize>,
    d: usize,
)
    requires
        states.len() == g.len(),
        dist.len() == g.len(),
        s < g.len(),
        states[s as int].0,
        dist[s as int] == 0,
        forall|x: int, y: int|
            0 <= x < g.len() && 0 <= y < g.len() && (#[trigger] states[x]).0
                && #[trigger] spec_is_edge(g, x, y) ==> states[y].0 && dist[y] <= dist[x] + 1,
        is_path_between(g, path, s, d),
    ensures
        states[d as int].0,
        dist[d as int] <= path.len() - 1,
    decreases path.len(),
{
    if path.len() > 1 {
        let pre = path.drop_last();
        let p = path[path.len() - 2];
        assert forall|i: int| 1 <= i < pre.len() implies #[trigger] spec_is_edge(
            g,
            pre[i - 1] as int,
            pre[i] as int,
        ) by {
            assert(spec_is_edge(g, path[i - 1] as int, path[i] as int));
        }
        assert(is_path_between(g, pre, s, p));
        lemma_bfs_min(g, states, dist, s, pre, p);
        assert(spec_is_edge(g, path[path.len() - 2] as int, path[path.len() - 1] as int));
        assert(path.last() == d);
    }
}

/// Breadth-first search from `start_node`, returning the predecessor map.
///
/// The result is fixed exactly: it equals `spec_bfs`, the level-order
/// search written out as a function of the graph and start node, taking
/// neighbors in the graph's enumeration order -- so the search is
/// deterministic given a deterministic graph. In addition, the map has one
/// slot per node; the start node and every unreachable node keep `None`.
/// Every other reachable node records the neighbor that discovered it, the
/// recorded edges are real, the predecessor chains are acyclic, and the
/// chain of any reachable node, read back to front, is a shortest path
/// from the start to that node: no walk through the graph between the two
/// is strictly shorter.
#[verifier::loop_isolation(true)]
#[verifier::rlimit(100)]
#[verifier::spinoff_prover]
pub fn bfs(graph: &StaticGraph, start_node: usize) -> (prev: Vec<Option<usize>>)
    requires
        graph_wf(graph@),
        start_node < graph@.len(),
    ensures
        prev@ == spec_bfs(graph@, start_node),
        prev@.len() == graph@.len(),
        prev@[start_node as int] is None,
        prev_list_valid(graph@, prev@),
        forall|d: usize| d < prev@.len() ==> chain_ends(prev@, d, prev@.len() as nat),
        forall|d: usize|
            d < prev@.len() ==> ((#[trigger] prev@[d as int]) is Some <==> (spec_reachable(
                graph@,
                start_node,
                d,
            ) && d != start_node)),
        forall|d: usize|
            d < prev@.len() && #[trigger] spec_reachable(graph@, start_node, d) ==> ({
                let path = chain_seq(prev@, d, prev@.len() as nat);
                &&& is_path_between(graph@, path, start_node, d)
                &&& forall|other: Seq<usize>|
                    #[trigger] is_path_between(graph@, other, start_node, d) ==> path.len()
                        <= other.len()
            }),
{
    let n = graph.node_count();
    let mut tracker = graph.visited_tracker();
    let ghost init_states = tracker@;
    proof {
        assert(forall|i: int|
            0 <= i < n ==> !(#[trigger] seen_flags(init_states)[i]));
        lemma_count_unseen_all_false(seen_flags(init_states));
    }
    tracker.set_seen(start_node);
    let mut queue: Vec<usize> = Vec::new();
    queue.push(start_node);
    let mut head: usize = 0;
    let ghost mut dist: Seq<int> = Seq::new(
        n as nat,
        |i: int| if i == start_node as int {
            0int
        } else {
            -1int
        },
    );
    let ghost mut rank: Seq<int> = Seq::new(
        n as nat,
        |i: int| if i == start_node as int {
            0int
        } else {
            -1int
        },
    );
    let ghost mut mirror_seen: Seq<bool> = bfs_init_seen(graph@.len(), start_node);
    let ghost mut mirror_prev: Seq<Option<usize>> = bfs_init_prev(graph@.len());
    proof {
        assert(seen_flags(tracker@) =~= seen_flags(init_states).update(start_node as int, true));
        lemma_count_unseen_update(seen_flags(init_states), start_node as int);
        lemma_reachable_refl(graph@, start_node);
        assert(bfs_inv(graph@, start_node, tracker@, queue@, dist, rank));
        reveal(spec_bfs);
        assert(queue@ =~= seq![start_node]);
        assert(forall|x: int|
            0 <= x < graph@.len() ==> mirror_seen[x] == (#[trigger] tracker@[x]).0
                && mirror_prev[x] == tracker@[x].1);
        assert(spec_bfs(graph@, start_node) == bfs_run(
            graph@,
            mirror_seen,
            mirror_prev,
            queue@,
            0,
            graph@.len(),
        ));
    }
    while head < queue.len()
        invariant
            graph_wf(graph@),
            start_node < graph@.len(),
            head <= queue@.len(),
            bfs_inv(graph@, start_node, tracker@, queue@, dist, rank),
            bfs_processed(graph@, tracker@, queue@, dist, head as int),
            forall|i: int|
                0 <= i < queue@.len() && head < queue@.len() ==> dist[(#[trigger] queue@[i]) as int]
                    <= dist[queue@[head as int] as int] + 1,
            head <= graph@.len(),
            mirror_seen.len() == graph@.len(),
            mirror_prev.len() == graph@.len(),
            forall|x: int|
                0 <= x < graph@.len() ==> mirror_seen[x] == (#[trigger] tracker@[x]).0
                    && mirror_prev[x] == tracker@[x].1,
            spec_bfs(graph@, start_node) == bfs_run(
                graph@,
                mirror_seen,
                mirror_prev,
                queue@,
                head as int,
                (graph@.len() - head) as nat,
            ),
        decreases count_unseen(seen_flags(tracker@)), queue@.len() - head,
    {
        let node_id = queue[head];
        head = head + 1;
        let ghost h0 = head as int - 1;
        let ghost len0 = queue@.len();
        let ghost entry_seen = mirror_seen;
        let ghost entry_prev = mirror_prev;
        let ghost entry_q = queue@;
        proof {
            assert(entry_q.len() <= graph@.len());
        }
        let node = graph.node(node_id).unwrap();
        let nbrs = node.neighbors();
        let ghost row = graph@[node_id as int];
        let mut j: usize = 0;
        while j < nbrs.len()
            invariant
                graph_wf(graph@),
                start_node < graph@.len(),
                j <= nbrs@.len(),
                nbrs@.len() == row.len(),
                forall|k: int| 0 <= k < row.len() ==> nbrs@[k] == (#[trigger] row[k]).to,
                row == graph@[node_id as int],
                node_id < graph@.len(),
                head as int == h0 + 1,
                head <= queue@.len(),
                queue@.len() >= len0,
                bfs_inv(graph@, start_node, tracker@, queue@, dist, rank),
                bfs_processed(graph@, tracker@, queue@, dist, h0),
                queue@[h0] == node_id,
                tracker@[node_id as int].0,
                dist[node_id as int] >= 0,
                rank[node_id as int] == h0,
                forall|i: int|
                    0 <= i < queue@.len() ==> dist[(#[trigger] queue@[i]) as int] <= dist[node_id as int]
                        + 1,
                forall|k: int|
                    0 <= k < j ==> tracker@[(#[trigger] row[k]).to as int].0 && dist[row[k].to as int]
                        <= dist[node_id as int] + 1,
                mirror_seen.len() == graph@.len(),
                mirror_prev.len() == graph@.len(),
                forall|x: int|
                    0 <= x < graph@.len() ==> mirror_seen[x] == (#[trigger] tracker@[x]).0
                        && mirror_prev[x] == tracker@[x].1,
                bfs_scan(graph@, node_id, j as int, mirror_seen, mirror_prev, queue@) == bfs_scan(
                    graph@,
                    node_id,
                    0,
                    entry_seen,
                    entry_prev,
                    entry_q,
                ),
            decreases nbrs@.len() - j,
        {
            let neighbor = nbrs[j];
            proof {
                assert(row[j as int].to == neighbor);
                assert(neighbor < graph@.len());
                assert(spec_is_edge(graph@, node_id as int, neighbor as int));
            }
            if !tracker.has_seen(neighbor) {
                let ghost states0 = tracker@;
                let ghost q0 = queue@;
                let ghost dist0 = dist;
                let ghost rank0 = rank;
                let ghost seenm0 = mirror_seen;
                let ghost prevm0 = mirror_prev;
                tracker.set_seen(neighbor);
                tracker.set_prev(neighbor, node_id);
                queue.push(neighbor);
                proof {
                    let y = neighbor as int;
                    assert(tracker@ =~= states0.update(
                        y,
                        (NodeTrackState(true, Some(node_id))),
                    ));
                    dist = dist.update(y, dist0[node_id as int] + 1);
                    rank = rank.update(y, q0.len() as int);
                    mirror_seen = mirror_seen.update(y, true);
                    mirror_prev = mirror_prev.update(y, Some(node_id));
                    lemma_bfs_push(
                        graph@,
                        start_node,
                        states0,
                        tracker@,
                        q0,
                        queue@,
                        dist0,
                        dist,
                        rank0,
                        rank,
                        node_id,
                        neighbor,
                        h0,
                        j as int,
                        seenm0,
                        prevm0,
                    );
                }
            } else {
                proof {
                    assert(mirror_seen[neighbor as int]);
                    lemma_bfs_scan_skip(
                        graph@,
                        node_id,
                        j as int,
                        mirror_seen,
                        mirror_prev,
                        queue@,
                    );
                }
            }
            j = j + 1;
        }
        proof {
            lemma_bfs_advance(graph@, start_node, tracker@, queue@, dist, rank, head as int, node_id);
            lemma_bfs_scan_done(
                graph@,
                node_id,
                row.len() as int,
                mirror_seen,
                mirror_prev,
                queue@,
            );
            assert(bfs_scan(graph@, node_id, 0, entry_seen, entry_prev, entry_q) == (
                mirror_seen,
                mirror_prev,
                queue@,
            ));
            lemma_bfs_run_step(
                graph@,
                entry_seen,
                entry_prev,
                entry_q,
                h0,
                (graph@.len() - h0) as nat,
            );
            assert(bfs_run(
                graph@,
                entry_seen,
                entry_prev,
                entry_q,
                h0,
                (graph@.len() - h0) as nat,
            ) == bfs_run(
                graph@,
                mirror_seen,
                mirror_prev,
                queue@,
                h0 + 1,
                (graph@.len() - h0 - 1) as nat,
            ));
        }
    }
    let prev = tracker.prev_node_list();
    proof {
        lemma_bfs_post(graph@, start_node, tracker@, queue@, dist, rank, prev@);
        assert forall|i: int| 0 <= i < prev@.len() implies prev@[i] == mirror_prev[i] by {
            assert(prev@[i] == tracker@[i].1);
            assert(mirror_prev[i] == tracker@[i].1);
        }
        assert(prev@ =~= mirror_prev);
        lemma_bfs_run_done(
            graph@,
            mirror_seen,
            mirror_prev,
            queue@,
            head as int,
            (graph@.len() - head) as nat,
        );
        assert(spec_bfs(graph@, start_node) == mirror_prev);
    }
    prev
}

/// At the end of the search the whole discovery sequence has been
/// processed, so the seen set is closed under edges, with discovery
/// distance growing by at most one per edge.
proof fn lemma_bfs_closure(
    g: GraphView,
    s: usize,
    states: Seq<NodeTrackState>,
    q: Seq<usize>,
    dist: Seq<int>,
    rank: Seq<int>,
)
    requires
        graph_wf(g),
        bfs_inv(g, s, states, q, dist, rank),
        bfs_processed(g, states, q, dist, q.len() as int),
    ensures
        forall|x: int, y: int|
            0 <= x < g.len() && 0 <= y < g.len() && (#[trigger] states[x]).0
                && #[trigger] spec_is_edge(g, x, y) ==> states[y].0 && dist[y] <= dist[x] + 1,
        closed_under_edges(g, seen_flags(states)),
{
    let nn = g.len();
    let flags = seen_flags(states);
    assert(forall|x: int| 0 <= x < nn ==> flags[x] == (#[trigger] states[x]).0);
    assert forall|x: int, y: int|
        0 <= x < nn && 0 <= y < nn && (#[trigger] states[x]).0 && #[trigger] spec_is_edge(
            g,
            x,
            y,
        ) implies states[y].0 && dist[y] <= dist[x] + 1 by {
        let i = rank[x];
        assert(q[i] == x && 0 <= i < q.len());
        assert(spec_is_edge(g, q[i] as int, y));
    }
    assert forall|x: usize, y: usize|
        x < g.len() && flags[x as int] && #[trigger] spec_is_edge(g, x as int, y as int)
            implies flags[y as int] by {
        let k = choose|k: int|
            0 <= k < g[x as int].len() && (#[trigger] g[x as int][k]).to == y as int;
        assert(g[x as int][k].to < nn);
        assert(states[x as int].0 && spec_is_edge(g, x as int, y as int));
        assert(states[y as int].0);
    }
}

/// The chain of one reachable node is a valid walk from the start to the
/// node, and no walk between the two is shorter.
proof fn lemma_bfs_shortest_one(
    g: GraphView,
    s: usize,
    states: Seq<NodeTrackState>,
    q: Seq<usize>,
    dist: Seq<int>,
    rank: Seq<int>,
    prev: Seq<Option<usize>>,
    d: usize,
)
    requires
        graph_wf(g),
        bfs_inv(g, s, states, q, dist, rank),
        bfs_processed(g, states, q, dist, q.len() as int),
        prev.len() == states.len(),
        forall|x: int| 0 <= x < prev.len() ==> prev[x] == (#[trigger] states[x]).1,
        prev_list_valid(g, prev),
        d < prev.len(),
        chain_ends(prev, d, prev.len() as nat),
        spec_reachable(g, s, d),
    ensures
        states[d as int].0,
        ({
            let path = chain_seq(prev, d, prev.len() as nat);
            &&& is_path_between(g, path, s, d)
            &&& forall|other: Seq<usize>|
                #[trigger] is_path_between(g, other, s, d) ==> path.len() <= other.len()
        }),
{
    let nn = g.len();
    let flags = seen_flags(states);
    assert(forall|x: int| 0 <= x < nn ==> flags[x] == (#[trigger] states[x]).0);
    lemma_bfs_closure(g, s, states, q, dist, rank);
    let witness = choose|path: Seq<usize>| is_path_between(g, path, s, d);
    lemma_reach_in_closed(g, flags, witness, s, d);
    assert(states[d as int].0);
    assert forall|x: int|
        0 <= x < nn && dist[x] >= 0 && x != s as int implies (#[trigger] prev[x]) is Some by {
        assert(states[x].0);
        assert(prev[x] == states[x].1);
    }
    let c = chain_seq(prev, d, prev.len() as nat);
    lemma_chain_props(g, prev, d, prev.len() as nat);
    lemma_chain_shape(prev, dist, s, d, prev.len() as nat);
    assert(is_path_between(g, c, s, d));
    assert forall|other: Seq<usize>|
        #[trigger] is_path_between(g, other, s, d) implies c.len() <= other.len() by {
        lemma_bfs_min(g, states, dist, s, other, d);
    }
}

/// Discovering one unseen neighbor `y` of the node `u` being processed --
/// marking it seen, recording `u` as its predecessor, and enqueueing it at
/// the next distance -- preserves the search invariant.
#[verifier::rlimit(100)]
proof fn lemma_bfs_push(
    g: GraphView,
    s: usize,
    states0: Seq<NodeTrackState>,
    states1: Seq<NodeTrackState>,
    q0: Seq<usize>,
    q1: Seq<usize>,
    dist0: Seq<int>,
    dist1: Seq<int>,
    rank0: Seq<int>,
    rank1: Seq<int>,
    u: usize,
    y: usize,
    h0: int,
    j: int,
    seenm0: Seq<bool>,
    prevm0: Seq<Option<usize>>,
)
    requires
        graph_wf(g),
        bfs_inv(g, s, states0, q0, dist0, rank0),
        bfs_processed(g, states0, q0, dist0, h0),
        0 <= h0 < q0.len(),
        q0[h0] == u,
        u < g.len(),
        states0[u as int].0,
        dist0[u as int] >= 0,
        forall|i: int| 0 <= i < q0.len() ==> dist0[(#[trigger] q0[i]) as int] <= dist0[u as int] + 1,
        y < g.len(),
        !states0[y as int].0,
        spec_is_edge(g, u as int, y as int),
        states1 == states0.update(y as int, (NodeTrackState(true, Some(u)))),
        q1 == q0.push(y),
        dist1 == dist0.update(y as int, dist0[u as int] + 1),
        rank1 == rank0.update(y as int, q0.len() as int),
        0 <= j < g[u as int].len(),
        g[u as int][j].to == y,
        seenm0.len() == g.len(),
        prevm0.len() == g.len(),
        forall|x: int|
            0 <= x < g.len() ==> seenm0[x] == (#[trigger] states0[x]).0 && prevm0[x]
                == states0[x].1,
    ensures
        bfs_inv(g, s, states1, q1, dist1, rank1),
        bfs_processed(g, states1, q1, dist1, h0),
        forall|i: int| 0 <= i < q1.len() ==> dist1[(#[trigger] q1[i]) as int] <= dist1[u as int] + 1,
        forall|x: int| 0 <= x < g.len() && (#[trigger] states0[x]).0 ==> states1[x].0 && dist1[x] == dist0[x],
        states1[y as int].0,
        dist1[y as int] <= dist1[u as int] + 1,
        q1[h0] == u,
        rank1[u as int] == rank0[u as int],
        bfs_scan(g, u, j, seenm0, prevm0, q0) == bfs_scan(
            g,
            u,
            j + 1,
            seenm0.update(y as int, true),
            prevm0.update(y as int, Some(u)),
            q1,
        ),
        forall|x: int|
            0 <= x < g.len() ==> seenm0.update(y as int, true)[x] == (#[trigger] states1[x]).0
                && prevm0.update(y as int, Some(u))[x] == states1[x].1,
{
    assert(seen_flags(states1) =~= seen_flags(states0).update(y as int, true));
    lemma_bfs_scan_push(g, u, j, seenm0, prevm0, q0, y);
    lemma_count_unseen_update(seen_flags(states0), y as int);
    lemma_reachable_step(g, s, u, y);
    assert forall|i: int, yy: int|
        0 <= i < h0 && 0 <= yy < g.len() && #[trigger] spec_is_edge(g, q1[i] as int, yy)
        implies states1[yy].0 && dist1[yy] <= dist1[q1[i] as int] + 1 by {
        assert(q1[i] == q0[i]);
        assert(spec_is_edge(g, q0[i] as int, yy));
        assert(states0[yy].0 && dist0[yy] <= dist0[q0[i] as int] + 1);
    }
}

/// After the neighbors of the entry at position `h - 1` of the discovery
/// sequence have all been handled, that entry counts as processed, and the
/// next entry's distance bounds the whole queue again.
proof fn lemma_bfs_advance(
    g: GraphView,
    s: usize,
    states: Seq<NodeTrackState>,
    q: Seq<usize>,
    dist: Seq<int>,
    rank: Seq<int>,
    h: int,
    u: usize,
)
    requires
        graph_wf(g),
        bfs_inv(g, s, states, q, dist, rank),
        bfs_processed(g, states, q, dist, h - 1),
        0 <= h - 1 < q.len(),
        h <= q.len(),
        q[h - 1] == u,
        u < g.len(),
        dist[u as int] >= 0,
        forall|i: int| 0 <= i < q.len() ==> dist[(#[trigger] q[i]) as int] <= dist[u as int] + 1,
        forall|k: int|
            0 <= k < g[u as int].len() ==> states[(#[trigger] g[u as int][k]).to as int].0
                && dist[g[u as int][k].to as int] <= dist[u as int] + 1,
    ensures
        bfs_processed(g, states, q, dist, h),
        forall|i: int|
            0 <= i < q.len() && h < q.len() ==> dist[(#[trigger] q[i]) as int] <= dist[q[h] as int]
                + 1,
{
    assert forall|i: int, y: int|
        0 <= i < h && 0 <= y < g.len() && #[trigger] spec_is_edge(g, q[i] as int, y)
        implies states[y].0 && dist[y] <= dist[q[i] as int] + 1 by {
        if i == h - 1 {
            let k = choose|k: int|
                0 <= k < g[u as int].len() && (#[trigger] g[u as int][k]).to == y;
            assert(states[(g[u as int][k]).to as int].0 && dist[g[u as int][k].to as int]
                <= dist[u as int] + 1);
        }
    }
    assert forall|i: int|
        0 <= i < q.len() && h < q.len() implies dist[(#[trigger] q[i]) as int]
        <= dist[q[h] as int] + 1 by {
        assert(dist[q[i] as int] <= dist[u as int] + 1);
        assert(dist[q[h - 1] as int] <= dist[q[h] as int]);
    }
}

/// The postconditions of the search follow from its invariants once the
/// whole discovery sequence has been processed.
proof fn lemma_bfs_post(
    g: GraphView,
    s: usize,
    states: Seq<NodeTrackState>,
    q: Seq<usize>,
    dist: Seq<int>,
    rank: Seq<int>,
    prev: Seq<Option<usize>>,
)
    requires
        graph_wf(g),
        bfs_inv(g, s, states, q, dist, rank),
        bfs_processed(g, states, q, dist, q.len() as int),
        prev.len() == states.len(),
        forall|x: int| 0 <= x < prev.len() ==> prev[x] == (#[trigger] states[x]).1,
    ensures
        prev.len() == g.len(),
        prev[s as int] is None,
        prev_list_valid(g, prev),
        forall|d: usize| d < prev.len() ==> chain_ends(prev, d, prev.len() as nat),
        forall|d: usize|
            d < prev.len() ==> ((#[trigger] prev[d as int]) is Some <==> (spec_reachable(g, s, d)
                && d != s)),
        forall|d: usize|
            d < prev.len() && #[trigger] spec_reachable(g, s, d) ==> ({
                let path = chain_seq(prev, d, prev.len() as nat);
                &&& is_path_between(g, path, s, d)
                &&& forall|other: Seq<usize>|
                    #[trigger] is_path_between(g, other, s, d) ==> path.len() <= other.len()
            }),
{
    let nn = g.len();
    let flags = seen_flags(states);
    assert(forall|x: int| 0 <= x < nn ==> flags[x] == (#[trigger] states[x]).0);
    assert(q.len() <= nn);
    assert forall|x: int| 0 <= x < nn && (#[trigger] prev[x]) is Some implies states[x].1 is Some
        && prev[x]->0 == states[x].1->0 by {
        assert(prev[x] == states[x].1);
    }
    assert(prev_list_valid(g, prev));
    assert(prev[s as int] is None);
    assert forall|d: usize| d < prev.len() implies chain_ends(prev, d, prev.len() as nat) by {
        lemma_rank_chain_ends(prev, rank, d, nn as nat);
    }
    lemma_bfs_closure(g, s, states, q, dist, rank);
    assert forall|d: usize| d < prev.len() implies ((#[trigger] prev[d as int]) is Some <==> (
    spec_reachable(g, s, d) && d != s)) by {
        if spec_reachable(g, s, d) && d != s {
            let path = choose|path: Seq<usize>| is_path_between(g, path, s, d);
            lemma_reach_in_closed(g, flags, path, s, d);
            assert(states[d as int].0);
        }
    }
    assert forall|d: usize| d < prev.len() && #[trigger] spec_reachable(g, s, d) implies ({
        let path = chain_seq(prev, d, prev.len() as nat);
        &&& is_path_between(g, path, s, d)
        &&& forall|other: Seq<usize>|
            #[trigger] is_path_between(g, other, s, d) ==> path.len() <= other.len()
    }) by {
        lemma_bfs_shortest_one(g, s, states, q, dist, rank, prev, d);
    }
}

} // verus!
