//! Path utilities: validate a candidate path representation against the
//! graph's actual edges, and reconstruct an ordered node path from a
//! predecessor map and a destination. Validation returns a boolean verdict
//! and never fails; a malformed input is a result, not an error.

#![verifier::loop_isolation(false)]

use vstd::prelude::*;

use crate::graph::GraphView;
use crate::graph::StaticGraph;
use crate::graph::node_path_valid;
use crate::graph::spec_edge_weight;
use crate::graph::spec_is_edge;
use crate::graph::graph_wf;

verus! {

/// Every listed edge is a real edge of the graph, and consecutive edges
/// chain: the destination of each edge is the start of the next. The empty
/// path is valid.
pub open spec fn edge_path_valid(g: GraphView, path: Seq<(usize, usize)>) -> bool {
    &&& forall|i: int|
        0 <= i < path.len() ==> spec_is_edge(
            g,
            (#[trigger] path[i]).0 as int,
            path[i].1 as int,
        )
    &&& forall|i: int| 1 <= i < path.len() ==> (#[trigger] path[i]).0 == path[i - 1].1
}

/// The predecessor map has one slot per node of the graph, and every
/// recorded predecessor is a real edge into the node it discovered.
pub open spec fn prev_list_valid(g: GraphView, prev: Seq<Option<usize>>) -> bool {
    &&& prev.len() == g.len()
    &&& forall|i: int|
        0 <= i < prev.len() && (#[trigger] prev[i]) is Some ==> spec_is_edge(
            g,
            prev[i]->0 as int,
            i,
        )
}

/// Walking backward from `d` through the predecessor map reaches a `None`
/// slot within `fuel` steps. This is what makes path reconstruction from a
/// predecessor map terminate: a cyclic map never ends.
pub open spec fn chain_ends(prev: Seq<Option<usize>>, d: usize, fuel: nat) -> bool
    decreases fuel,
{
    if prev.len() <= d {
        false
    } else {
        match prev[d as int] {
            None => true,
            Some(p) => fuel > 0 && chain_ends(prev, p, (fuel - 1) as nat),
        }
    }
}

/// The node path obtained by walking backward from `d` through the
/// predecessor map and reversing: start of the chain first, `d` last.
pub open spec fn chain_seq(prev: Seq<Option<usize>>, d: usize, fuel: nat) -> Seq<usize>
    decreases fuel,
{
    if prev.len() <= d {
        seq![d]
    } else {
        match prev[d as int] {
            None => seq![d],
            Some(p) => if fuel == 0 {
                seq![d]
            } else {
                chain_seq(prev, p, (fuel - 1) as nat).push(d)
            },
        }
    }
}

/// Once a backward walk ends within the given fuel, more fuel changes
/// neither that fact nor the reconstructed path.
pub proof fn lemma_chain_fuel(prev: Seq<Option<usize>>, d: usize, f1: nat, f2: nat)
    requires
        chain_ends(prev, d, f1),
        f1 <= f2,
    ensures
        chain_ends(prev, d, f2),
        chain_seq(prev, d, f2) == chain_seq(prev, d, f1),
    decreases f1,
{
    if d < prev.len() {
        match prev[d as int] {
            None => {},
            Some(p) => {
                lemma_chain_fuel(prev, p, (f1 - 1) as nat, (f2 - 1) as nat);
            },
        }
    }
}

/// A backward walk through a valid predecessor map yields a valid node
/// path: it ends at `d`, starts at a node without predecessor, and every
/// step follows a real edge.
pub proof fn lemma_chain_props(g: GraphView, prev: Seq<Option<usize>>, d: usize, fuel: nat)
    requires
        prev_list_valid(g, prev),
        d < prev.len(),
        chain_ends(prev, d, fuel),
    ensures
        ({
            let c = chain_seq(prev, d, fuel);
            &&& c.len() >= 1
            &&& c.last() == d
            &&& c[0] < prev.len()
            &&& prev[c[0] as int] is None
            &&& forall|i: int| 0 <= i < c.len() ==> (#[trigger] c[i]) < prev.len()
            &&& node_path_valid(g, c)
        }),
    decreases fuel,
{
    let c = chain_seq(prev, d, fuel);
    match prev[d as int] {
        None => {},
        Some(p) => {
            assert(spec_is_edge(g, p as int, d as int));
            lemma_chain_props(g, prev, p, (fuel - 1) as nat);
            let c0 = chain_seq(prev, p, (fuel - 1) as nat);
            assert(c == c0.push(d));
            assert forall|i: int| 1 <= i < c.len() implies #[trigger] spec_is_edge(
                g,
                c[i - 1] as int,
                c[i] as int,
            ) by {
                if i < c0.len() {
                    assert(c[i - 1] == c0[i - 1] && c[i] == c0[i]);
                    assert(spec_is_edge(g, c0[i - 1] as int, c0[i] as int));
                } else {
                    assert(c[i - 1] == c0.last() && c[i] == d);
                }
            }
        },
    }
}

/// A predecessor map whose entries strictly decrease some rank has no
/// cycles: every backward walk ends, within a fuel bound on the ranks.
pub proof fn lemma_rank_chain_ends(prev: Seq<Option<usize>>, rank: Seq<int>, d: usize, fuel: nat)
    requires
        rank.len() == prev.len(),
        d < prev.len(),
        forall|x: int|
            0 <= x < prev.len() && (#[trigger] prev[x]) is Some ==> prev[x]->0 < prev.len() && 0
                <= rank[prev[x]->0 as int] && rank[prev[x]->0 as int] < rank[x],
        prev[d as int] is Some ==> rank[d as int] < fuel,
    ensures
        chain_ends(prev, d, fuel),
    decreases fuel,
{
    match prev[d as int] {
        None => {},
        Some(p) => {
            lemma_rank_chain_ends(prev, rank, p, (fuel - 1) as nat);
        },
    }
}

/// A node path is valid when every consecutive pair of nodes is a real
/// edge; the empty path is valid. Never mutates and never fails.
pub fn check_node_path_valid(g: &StaticGraph, path: &Vec<usize>) -> (valid: bool)
    ensures
        valid == node_path_valid(g@, path@),
{
    let mut i: usize = 1;
    while i < path.len()
        invariant
            1 <= i,
            forall|k: int|
                1 <= k < i ==> #[trigger] spec_is_edge(g@, path@[k - 1] as int, path@[k] as int),
        decreases path.len() - i,
    {
        if !g.is_edge(path[i - 1], path[i]) {
            return false;
        }
        i = i + 1;
    }
    true
}

/// An edge path is valid when every listed pair is a real edge and
/// consecutive edges chain; the empty path is valid.
pub fn check_edge_path_valid(g: &StaticGraph, path: &Vec<(usize, usize)>) -> (valid: bool)
    ensures
        valid == edge_path_valid(g@, path@),
{
    let mut i: usize = 0;
    while i < path.len()
        invariant
            forall|k: int|
                0 <= k < i ==> spec_is_edge(g@, (#[trigger] path@[k]).0 as int, path@[k].1 as int),
            forall|k: int| 1 <= k < i ==> (#[trigger] path@[k]).0 == path@[k - 1].1,
        decreases path.len() - i,
    {
        let edge = path[i];
        if !g.is_edge(edge.0, edge.1) {
            return false;
        }
        if i > 0 && path[i - 1].1 != edge.0 {
            return false;
        }
        i = i + 1;
    }
    true
}

/// A predecessor map is valid for a graph when it has one slot per node and
/// every recorded predecessor is a real edge into the node it discovered.
pub fn check_previous_node_list_valid(g: &StaticGraph, path: &Vec<Option<usize>>) -> (valid: bool)
    ensures
        valid == prev_list_valid(g@, path@),
{
    if path.len() != g.node_count() {
        return false;
    }
    let mut node_id: usize = 0;
    while node_id < path.len()
        invariant
            path@.len() == g@.len(),
            forall|k: int|
                0 <= k < node_id && (#[trigger] path@[k]) is Some ==> spec_is_edge(
                    g@,
                    path@[k]->0 as int,
                    k,
                ),
        decreases path.len() - node_id,
    {
        if let Some(previous_id) = path[node_id] {
            if !g.is_edge(previous_id, node_id) {
                return false;
            }
        }
        node_id = node_id + 1;
    }
    true
}

/// How many nodes the backward walk starting at `current` still yields.
pub open spec fn chain_remaining(
    prev: Seq<Option<usize>>,
    current: Option<usize>,
    fuel: nat,
) -> nat {
    match current {
        Some(c) => chain_seq(prev, c, fuel).len() + 1,
        None => 0,
    }
}

/// Reconstruct the ordered node path to `destination`: walk backward from
/// `destination` following predecessors until a `None` slot, then reverse,
/// so the path runs from the start of the chain to `destination`. The
/// caller must hand in an acyclic predecessor map (as produced by the
/// traversals); on a cyclic map the backward walk would never end.
pub fn node_list_from_prev_node_list(
    prev_node_list: &Vec<Option<usize>>,
    destination: usize,
) -> (node_list: Vec<usize>)
    requires
        destination < prev_node_list@.len(),
        forall|i: int|
            0 <= i < prev_node_list@.len() && (#[trigger] prev_node_list@[i]) is Some
                ==> prev_node_list@[i]->0 < prev_node_list@.len(),
        chain_ends(prev_node_list@, destination, prev_node_list@.len() as nat),
    ensures
        node_list@ == chain_seq(prev_node_list@, destination, prev_node_list@.len() as nat),
{
    let ghost prevs = prev_node_list@;
    let ghost fuel = prevs.len() as nat;
    let ghost full = chain_seq(prevs, destination, fuel);
    let mut rev: Vec<usize> = Vec::new();
    let mut current: Option<usize> = Some(destination);
    while current.is_some()
        invariant
            match current {
                Some(c) => c < prevs.len() && chain_ends(prevs, c, fuel) && full == chain_seq(
                    prevs,
                    c,
                    fuel,
                ) + rev@.reverse(),
                None => full == rev@.reverse(),
            },
        decreases chain_remaining(prevs, current, fuel),
    {
        let curr_index = current.unwrap();
        let ghost rev0 = rev@;
        rev.push(curr_index);
        current = prev_node_list[curr_index];
        proof {
            let c = curr_index;
            assert(rev@.reverse() =~= seq![c] + rev0.reverse());
            match prevs[c as int] {
                None => {
                    assert(chain_seq(prevs, c, fuel) == seq![c]);
                    assert(full =~= rev@.reverse());
                },
                Some(p) => {
                    assert(chain_ends(prevs, p, (fuel - 1) as nat));
                    lemma_chain_fuel(prevs, p, (fuel - 1) as nat, fuel);
                    assert(chain_seq(prevs, c, fuel) == chain_seq(prevs, p, (fuel - 1) as nat).push(
                        c,
                    ));
                    assert(chain_seq(prevs, c, fuel) + rev0.reverse() =~= chain_seq(prevs, p, fuel)
                        + rev@.reverse());
                },
            }
        }
    }
    let n = rev.len();
    let mut node_list: Vec<usize> = Vec::new();
    let mut i: usize = 0;
    while i < n
        invariant
            i <= n,
            n == rev@.len(),
            node_list@.len() == i,
            forall|k: int| 0 <= k < i ==> node_list@[k] == rev@[n - 1 - k],
        decreases n - i,
    {
        node_list.push(rev[n - 1 - i]);
        i = i + 1;
    }
    proof {
        assert(node_list@ =~= rev@.reverse());
    }
    node_list
}

/// Encode a predecessor map as signed integers, `-1` standing for `None`.
pub fn prev_node_graph_path_to_isize_vec(path: &Vec<Option<usize>>) -> (encoded: Vec<isize>)
    requires
        forall|i: int|
            0 <= i < path@.len() && (#[trigger] path@[i]) is Some ==> path@[i]->0 <= isize::MAX
                as usize,
    ensures
        encoded@.len() == path@.len(),
        forall|i: int|
            0 <= i < path@.len() ==> encoded@[i] == (match path@[i] {
                Some(v) => v as isize,
                None => -1isize,
            }),
{
    let mut encoded: Vec<isize> = Vec::new();
    let mut i: usize = 0;
    while i < path.len()
        invariant
            i <= path@.len(),
            encoded@.len() == i,
            forall|k: int|
                0 <= k < i ==> encoded@[k] == (match path@[k] {
                    Some(v) => v as isize,
                    None => -1isize,
                }),
        decreases path.len() - i,
    {
        match path[i] {
            Some(v) => encoded.push(v as isize),
            None => encoded.push(-1),
        }
        i = i + 1;
    }
    encoded
}

/// The weight of one listed edge, an absent edge counting as zero.
pub open spec fn spec_edge_cost(g: GraphView, edge: (usize, usize)) -> nat {
    match spec_edge_weight(g, edge.0 as int, edge.1 as int) {
        Some(w) => w as nat,
        None => 0,
    }
}

/// The total weight of an edge path.
pub open spec fn spec_path_cost(g: GraphView, path: Seq<(usize, usize)>) -> nat
    decreases path.len(),
{
    if path.len() == 0 {
        0
    } else {
        spec_edge_cost(g, path[0]) + spec_path_cost(g, path.drop_first())
    }
}

/// Sum the weights of the edges of a valid edge path.
pub fn path_cost(g: &StaticGraph, path: &Vec<(usize, usize)>) -> (cost: u64)
    requires
        graph_wf(g@),
        edge_path_valid(g@, path@),
        spec_path_cost(g@, path@) <= u64::MAX,
    ensures
        cost == spec_path_cost(g@, path@),
{
    let ghost total = spec_path_cost(g@, path@);
    proof {
        assert(path@.subrange(0, path@.len() as int) =~= path@);
    }
    let mut cost: u64 = 0;
    let mut i: usize = 0;
    while i < path.len()
        invariant
            i <= path@.len(),
            cost + spec_path_cost(g@, path@.subrange(i as int, path@.len() as int)) == total,
        decreases path.len() - i,
    {
        let edge = path[i];
        proof {
            let suffix = path@.subrange(i as int, path@.len() as int);
            assert(suffix[0] == path@[i as int]);
            assert(suffix.drop_first() =~= path@.subrange(i + 1, path@.len() as int));
            assert(spec_path_cost(g@, suffix) == spec_edge_cost(g@, path@[i as int])
                + spec_path_cost(g@, path@.subrange(i + 1, path@.len() as int)));
            assert(spec_is_edge(g@, path@[i as int].0 as int, path@[i as int].1 as int));
        }
        let found = g.get_edge(edge.0, edge.1);
        let weight = match found {
            Some(e) => e.weight,
            None => {
                proof {
                    assert(false);
                }
                0
            },
        };
        cost = cost + weight;
        i = i + 1;
    }
    proof {
        assert(path@.subrange(path@.len() as int, path@.len() as int) =~= Seq::<(
            usize,
            usize,
        )>::empty());
    }
    cost
}

} // verus!
