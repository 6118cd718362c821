//! Visitation bookkeeping for one traversal run: which nodes have been seen,
//! and which node preceded each of them. The static tracker indexes a
//! pre-sized dense array by integer node id; the dynamic tracker discovers
//! arbitrary string labels lazily, giving each new label the next sequential
//! integer id (an arena of per-node state plus a label-to-index map).

#![verifier::loop_isolation(false)]

use vstd::prelude::*;

verus! {

/// Search bookkeeping for a single node: `(seen, previous_node)`.
#[derive(Clone, Copy)]
pub struct NodeTrackState(pub bool, pub Option<usize>);

/// The seen flags of a tracker state sequence.
pub open spec fn seen_flags(states: Seq<NodeTrackState>) -> Seq<bool> {
    states.map_values(|st: NodeTrackState| st.0)
}


/// How many flags in the sequence are still false.
pub open spec fn count_unseen(flags: Seq<bool>) -> nat
    decreases flags.len(),
{
    if flags.len() == 0 {
        0
    } else if flags.last() {
        count_unseen(flags.drop_last())
    } else {
        count_unseen(flags.drop_last()) + 1
    }
}

/// Setting one false flag to true lowers the unseen count by exactly one.
pub proof fn lemma_count_unseen_update(flags: Seq<bool>, i: int)
    requires
        0 <= i < flags.len(),
        !flags[i],
    ensures
        count_unseen(flags.update(i, true)) + 1 == count_unseen(flags),
    decreases flags.len(),
{
    let upd = flags.update(i, true);
    if i == flags.len() - 1 {
        assert(upd.drop_last() =~= flags.drop_last());
    } else {
        assert(upd.drop_last() =~= flags.drop_last().update(i, true));
        assert(upd.last() == flags.last());
        lemma_count_unseen_update(flags.drop_last(), i);
    }
}

/// When no flag is raised, every entry counts as unseen.
pub proof fn lemma_count_unseen_all_false(flags: Seq<bool>)
    requires
        forall|i: int| 0 <= i < flags.len() ==> !flags[i],
    ensures
        count_unseen(flags) == flags.len(),
    decreases flags.len(),
{
    if flags.len() > 0 {
        lemma_count_unseen_all_false(flags.drop_last());
    }
}

/// Marking more nodes seen can only lower the unseen count.
pub proof fn lemma_count_unseen_mono(a: Seq<bool>, b: Seq<bool>)
    requires
        a.len() == b.len(),
        forall|i: int| 0 <= i < a.len() ==> (a[i] ==> #[trigger] b[i]),
    ensures
        count_unseen(b) <= count_unseen(a),
    decreases a.len(),
{
    if a.len() > 0 {
        assert(forall|i: int|
            0 <= i < a.len() - 1 ==> (a.drop_last()[i] ==> #[trigger] b.drop_last()[i]));
        lemma_count_unseen_mono(a.drop_last(), b.drop_last());
    }
}

/// The tracker state after `set_seen` on node `id`: the flag is raised and
/// the recorded predecessor is untouched.
pub open spec fn spec_set_seen(states: Seq<NodeTrackState>, id: int) -> Seq<NodeTrackState> {
    states.update(id, NodeTrackState(true, states[id].1))
}

/// Marking a node seen flips its flag to true and is idempotent: a repeated
/// `set_seen` changes nothing, and no other node's state is touched.
pub proof fn lemma_set_seen_idempotent(states: Seq<NodeTrackState>, id: int)
    requires
        0 <= id < states.len(),
    ensures
        spec_set_seen(states, id)[id].0,
        spec_set_seen(spec_set_seen(states, id), id) == spec_set_seen(states, id),
        forall|j: int|
            0 <= j < states.len() && j != id ==> spec_set_seen(states, id)[j] == states[j],
{
    assert(spec_set_seen(spec_set_seen(states, id), id) =~= spec_set_seen(states, id));
}

/// Dense-array tracker for graphs whose node identities are the integers
/// `0 .. node_count`: both lookups and updates are direct index accesses.
pub struct StaticTracker {
    state: Vec<NodeTrackState>,
}

impl View for StaticTracker {
    type V = Seq<NodeTrackState>;

    closed spec fn view(&self) -> Seq<NodeTrackState> {
        self.state@
    }
}

impl StaticTracker {
    /// A tracker for `node_count` nodes, all unseen and without predecessor.
    pub fn new(node_count: usize) -> (tracker: Self)
        ensures
            tracker@.len() == node_count,
            forall|i: int|
                0 <= i < node_count ==> tracker@[i] == (NodeTrackState(false, None::<usize>)),
    {
        let mut state: Vec<NodeTrackState> = Vec::new();
        let mut i: usize = 0;
        while i < node_count
            invariant
                i <= node_count,
                state@.len() == i,
                forall|k: int|
                    0 <= k < i ==> state@[k] == (NodeTrackState(false, None::<usize>)),
            decreases node_count - i,
        {
            state.push(NodeTrackState(false, None));
            i = i + 1;
        }
        StaticTracker { state }
    }

    /// Whether the node has been seen. False for any node never passed to
    /// `set_seen`.
    pub fn has_seen(&self, node_id: usize) -> (seen: bool)
        requires
            node_id < self@.len(),
        ensures
            seen == self@[node_id as int].0,
    {
        self.state[node_id].0
    }

    /// Mark the node seen. Idempotent; the recorded predecessor is untouched.
    pub fn set_seen(&mut self, node_id: usize)
        requires
            node_id < old(self)@.len(),
        ensures
            final(self)@ == spec_set_seen(old(self)@, node_id as int),
    {
        let prev = self.state[node_id].1;
        self.state.set(node_id, NodeTrackState(true, prev));
    }

    /// Record which node discovered `node_id`, overwriting any earlier
    /// record. May be called before or after `set_seen` for the same node.
    pub fn set_prev(&mut self, node_id: usize, prev_node_id: usize)
        requires
            node_id < old(self)@.len(),
        ensures
            final(self)@ == old(self)@.update(
                node_id as int,
                (NodeTrackState(old(self)@[node_id as int].0, Some(prev_node_id))),
            ),
    {
        let seen = self.state[node_id].0;
        self.state.set(node_id, NodeTrackState(seen, Some(prev_node_id)));
    }

    /// The predecessor map: one slot per node, in node-id order.
    pub fn prev_node_list(&self) -> (prev: Vec<Option<usize>>)
        ensures
            prev@.len() == self@.len(),
            forall|i: int| 0 <= i < self@.len() ==> prev@[i] == (#[trigger] self@[i]).1,
    {
        let mut prev: Vec<Option<usize>> = Vec::new();
        let mut i: usize = 0;
        while i < self.state.len()
            invariant
                i <= self.state.len(),
                prev@.len() == i,
                forall|k: int| 0 <= k < i ==> prev@[k] == (#[trigger] self@[k]).1,
            decreases self.state.len() - i,
        {
            prev.push(self.state[i].1);
            i = i + 1;
        }
        prev
    }

    /// This tracker's node identities are already dense integers, so there
    /// is no label-to-id map to hand out.
    pub fn label_to_id_map(self) -> (map: Option<Vec<(String, usize)>>)
        ensures
            map is None,
    {
        None
    }
}

/// Some label in the sequence equals `label`.
pub open spec fn has_label(labels: Seq<Seq<char>>, label: Seq<char>) -> bool {
    exists|i: int| 0 <= i < labels.len() && labels[i] == label
}

/// Position of `label` in the sequence (unique when labels are distinct).
pub open spec fn label_index(labels: Seq<Seq<char>>, label: Seq<char>) -> int {
    choose|i: int| 0 <= i < labels.len() && labels[i] == label
}

/// No label occurs twice.
pub open spec fn distinct_labels(labels: Seq<Seq<char>>) -> bool {
    forall|i: int, j: int| 0 <= i < j < labels.len() ==> labels[i] != labels[j]
}

/// With distinct labels, the index found for `labels[i]` is `i` itself.
pub proof fn lemma_label_index(labels: Seq<Seq<char>>, i: int)
    requires
        distinct_labels(labels),
        0 <= i < labels.len(),
    ensures
        has_label(labels, labels[i]),
        label_index(labels, labels[i]) == i,
{
    assert(has_label(labels, labels[i]));
    let i2 = label_index(labels, labels[i]);
    assert(0 <= i2 < labels.len() && labels[i2] == labels[i]);
    if i2 < i {
        assert(labels[i2] != labels[i]);
    } else if i < i2 {
        assert(labels[i] != labels[i2]);
    }
}

/// The label-and-state pair after `set_seen` on `label`: an unknown label is
/// allocated the next slot with its flag already raised, a known label keeps
/// its slot and only has its flag raised.
pub open spec fn spec_dyn_set_seen(
    labels: Seq<Seq<char>>,
    states: Seq<NodeTrackState>,
    label: Seq<char>,
) -> (Seq<Seq<char>>, Seq<NodeTrackState>) {
    if has_label(labels, label) {
        (labels, spec_set_seen(states, label_index(labels, label)))
    } else {
        (labels.push(label), states.push(NodeTrackState(true, None)))
    }
}

/// For the dynamic tracker too, `set_seen` raises the label's flag and is
/// idempotent: marking the same label seen again changes nothing.
pub proof fn lemma_dyn_set_seen_idempotent(
    labels: Seq<Seq<char>>,
    states: Seq<NodeTrackState>,
    label: Seq<char>,
)
    requires
        labels.len() == states.len(),
        distinct_labels(labels),
    ensures
        ({
            let (labels1, states1) = spec_dyn_set_seen(labels, states, label);
            let (labels2, states2) = spec_dyn_set_seen(labels1, states1, label);
            &&& has_label(labels1, label)
            &&& states1[label_index(labels1, label)].0
            &&& labels2 == labels1
            &&& states2 == states1
        }),
{
    let (labels1, states1) = spec_dyn_set_seen(labels, states, label);
    if has_label(labels, label) {
        let i = label_index(labels, label);
        assert(0 <= i < labels.len() && labels[i] == label);
        lemma_set_seen_idempotent(states, i);
        lemma_set_seen_idempotent(states1, i);
        assert(spec_set_seen(states1, i) =~= states1);
    } else {
        assert(labels1[labels.len() as int] == label);
        assert forall|i: int, j: int| 0 <= i < j < labels1.len() implies labels1[i]
            != labels1[j] by {
            if j < labels.len() {
                assert(labels[i] != labels[j]);
            } else {
                assert(labels1[i] == labels[i]);
            }
        }
        lemma_label_index(labels1, labels.len() as int);
        let i = label_index(labels1, label);
        lemma_set_seen_idempotent(states1, i);
        assert(spec_set_seen(states1, i) =~= states1);
    }
}

/// Map-backed arena tracker for graphs whose node identities are arbitrary
/// string labels with no a-priori bound. A label is allocated a slot the
/// first time `set_seen` or `set_prev` refers to it; `has_seen` on an
/// unknown label answers false without allocating. The predecessor map lists
/// slots in allocation order, so its order depends on discovery order.
pub struct DynamicTracker {
    state: Vec<NodeTrackState>,
    labels: Vec<String>,
}

impl DynamicTracker {
    /// The labels known to the tracker, in allocation order.
    pub closed spec fn spec_labels(&self) -> Seq<Seq<char>> {
        self.labels@.map_values(|l: String| l@)
    }

    /// The per-slot state, in allocation order.
    pub closed spec fn spec_states(&self) -> Seq<NodeTrackState> {
        self.state@
    }

    /// One state slot per known label, and no label twice.
    pub closed spec fn wf(&self) -> bool {
        &&& self.labels@.len() == self.state@.len()
        &&& distinct_labels(self.spec_labels())
    }

    /// What well-formedness means over the tracker's public model: one
    /// state slot per known label, and no label twice. Exposed so that
    /// clients can recover these facts from `wf` alone.
    pub proof fn lemma_wf_facts(&self)
        requires
            self.wf(),
        ensures
            self.spec_labels().len() == self.spec_states().len(),
            distinct_labels(self.spec_labels()),
    {
    }

    /// An empty tracker: no labels known yet.
    pub fn new() -> (tracker: Self)
        ensures
            tracker.wf(),
            tracker.spec_labels() == Seq::<Seq<char>>::empty(),
            tracker.spec_states() == Seq::<NodeTrackState>::empty(),
    {
        let tracker = DynamicTracker { state: Vec::new(), labels: Vec::new() };
        proof {
            assert(tracker.spec_labels() =~= Seq::<Seq<char>>::empty());
        }
        tracker
    }

    /// The slot of a known label, if any.
    fn find_label(&self, node_label: &String) -> (found: Option<usize>)
        requires
            self.wf(),
        ensures
            match found {
                Some(id) => id < self.spec_labels().len() && self.spec_labels()[id as int]
                    == node_label@ && id == label_index(self.spec_labels(), node_label@),
                None => !has_label(self.spec_labels(), node_label@),
            },
    {
        let mut j: usize = 0;
        while j < self.labels.len()
            invariant
                j <= self.labels.len(),
                forall|k: int| 0 <= k < j ==> self.spec_labels()[k] != node_label@,
            decreases self.labels.len() - j,
        {
            if self.labels[j] == *node_label {
                proof {
                    lemma_label_index(self.spec_labels(), j as int);
                }
                return Some(j);
            }
            j = j + 1;
        }
        None
    }

    /// Give a label not seen before the next sequential id, with a fresh
    /// unseen slot.
    pub fn allocate(&mut self, node_label: &String) -> (id: usize)
        requires
            old(self).wf(),
            !has_label(old(self).spec_labels(), node_label@),
        ensures
            final(self).wf(),
            id == old(self).spec_labels().len(),
            final(self).spec_labels() == old(self).spec_labels().push(node_label@),
            final(self).spec_states() == old(self).spec_states().push(
                (NodeTrackState(false, None::<usize>)),
            ),
    {
        let id = self.state.len();
        self.labels.push(node_label.clone());
        self.state.push(NodeTrackState(false, None));
        proof {
            assert(self.spec_labels() =~= old(self).spec_labels().push(node_label@));
            let labels1 = self.spec_labels();
            assert forall|i: int, j: int| 0 <= i < j < labels1.len() implies labels1[i]
                != labels1[j] by {
                if j < labels1.len() - 1 {
                    assert(old(self).spec_labels()[i] != old(self).spec_labels()[j]);
                } else {
                    assert(labels1[i] == old(self).spec_labels()[i]);
                }
            }
        }
        id
    }

    /// The id already allocated to a known label.
    pub fn get_id(&self, node_label: &String) -> (id: usize)
        requires
            self.wf(),
            has_label(self.spec_labels(), node_label@),
        ensures
            id < self.spec_labels().len(),
            self.spec_labels()[id as int] == node_label@,
            id == label_index(self.spec_labels(), node_label@),
    {
        match self.find_label(node_label) {
            Some(id) => id,
            None => {
                proof {
                    assert(false);
                }
                0
            },
        }
    }

    /// The label's id, allocating one if the label is new.
    pub fn get_or_allocate_id(&mut self, node_label: &String) -> (id: usize)
        requires
            old(self).wf(),
        ensures
            final(self).wf(),
            has_label(old(self).spec_labels(), node_label@) ==> *final(self) == *old(self) && id
                == label_index(old(self).spec_labels(), node_label@),
            !has_label(old(self).spec_labels(), node_label@) ==> {
                &&& final(self).spec_labels() == old(self).spec_labels().push(node_label@)
                &&& final(self).spec_states() == old(self).spec_states().push(
                    (NodeTrackState(false, None::<usize>)),
                )
                &&& id == old(self).spec_labels().len()
            },
            id < final(self).spec_labels().len(),
            final(self).spec_labels()[id as int] == node_label@,
    {
        match self.find_label(node_label) {
            Some(id) => id,
            None => self.allocate(node_label),
        }
    }

    /// Whether the label has been seen: false for a label never passed to
    /// `set_seen`, including labels the tracker has never heard of.
    pub fn has_seen(&self, node_label: &String) -> (seen: bool)
        requires
            self.wf(),
        ensures
            seen == (has_label(self.spec_labels(), node_label@) && self.spec_states()[label_index(
                self.spec_labels(),
                node_label@,
            )].0),
    {
        match self.find_label(node_label) {
            Some(id) => self.state[id].0,
            None => false,
        }
    }

    /// Mark the label seen, allocating a slot for it if it is new.
    /// Idempotent; the recorded predecessor is untouched.
    pub fn set_seen(&mut self, node_label: &String)
        requires
            old(self).wf(),
        ensures
            final(self).wf(),
            ({
                let (labels1, states1) = spec_dyn_set_seen(
                    old(self).spec_labels(),
                    old(self).spec_states(),
                    node_label@,
                );
                final(self).spec_labels() == labels1 && final(self).spec_states() == states1
            }),
    {
        let ghost labels0 = self.spec_labels();
        let node_id = self.get_or_allocate_id(node_label);
        let prev = self.state[node_id].1;
        self.state.set(node_id, NodeTrackState(true, prev));
        proof {
            if !has_label(labels0, node_label@) {
                assert(self.spec_states() =~= old(self).spec_states().push(
                    (NodeTrackState(true, None::<usize>)),
                ));
            }
        }
    }

    /// Record which label discovered `node_label`, overwriting any earlier
    /// record and allocating a slot for `node_label` if it is new. The
    /// discovering label must already be known to the tracker (or be the
    /// same label); recording the predecessor does not mark anything seen.
    pub fn set_prev(&mut self, node_label: &String, prev_node_label: &String)
        requires
            old(self).wf(),
            has_label(old(self).spec_labels(), prev_node_label@) || node_label@
                == prev_node_label@,
        ensures
            final(self).wf(),
            has_label(final(self).spec_labels(), prev_node_label@),
            ({
                let labels1 = final(self).spec_labels();
                let states1 = final(self).spec_states();
                let labels0 = old(self).spec_labels();
                let states0 = old(self).spec_states();
                let prev_id = label_index(labels1, prev_node_label@) as usize;
                if has_label(labels0, node_label@) {
                    let node_id = label_index(labels0, node_label@);
                    &&& labels1 == labels0
                    &&& states1 == states0.update(
                        node_id,
                        (NodeTrackState(states0[node_id].0, Some(prev_id))),
                    )
                } else {
                    &&& labels1 == labels0.push(node_label@)
                    &&& states1 == states0.push((NodeTrackState(false, Some(prev_id))))
                }
            }),
    {
        let ghost labels0 = self.spec_labels();
        let node_id = self.get_or_allocate_id(node_label);
        proof {
            if has_label(labels0, prev_node_label@) {
                let i = label_index(labels0, prev_node_label@);
                assert(0 <= i < labels0.len() && labels0[i] == prev_node_label@);
                assert(self.spec_labels()[i] == prev_node_label@);
            } else {
                assert(self.spec_labels()[node_id as int] == node_label@);
            }
            assert(has_label(self.spec_labels(), prev_node_label@));
        }
        let prev_id = self.get_id(prev_node_label);
        let seen = self.state[node_id].0;
        self.state.set(node_id, NodeTrackState(seen, Some(prev_id)));
        proof {
            if !has_label(labels0, node_label@) {
                assert(self.spec_states() =~= old(self).spec_states().push(
                    (NodeTrackState(false, Some(prev_id))),
                ));
            }
        }
    }

    /// The predecessor map: one slot per discovered label, in allocation
    /// order. Unlike the static tracker's index-stable order, this order
    /// depends on the order in which labels were discovered.
    pub fn prev_node_list(&self) -> (prev: Vec<Option<usize>>)
        ensures
            prev@.len() == self.spec_states().len(),
            forall|i: int|
                0 <= i < self.spec_states().len() ==> prev@[i] == (#[trigger] self.spec_states()[i]).1,
    {
        let mut prev: Vec<Option<usize>> = Vec::new();
        let mut i: usize = 0;
        while i < self.state.len()
            invariant
                i <= self.state.len(),
                prev@.len() == i,
                forall|k: int| 0 <= k < i ==> prev@[k] == (#[trigger] self.spec_states()[k]).1,
            decreases self.state.len() - i,
        {
            prev.push(self.state[i].1);
            i = i + 1;
        }
        prev
    }

    /// Hand out the label-to-id map as `(label, id)` pairs in allocation
    /// order, consuming the tracker.
    pub fn label_to_id_map(self) -> (map: Option<Vec<(String, usize)>>)
        requires
            self.wf(),
        ensures
            map matches Some(entries) && entries@.len() == self.spec_labels().len()
                && forall|i: int|
                0 <= i < entries@.len() ==> (#[trigger] entries@[i]).0@ == self.spec_labels()[i]
                    && entries@[i].1 == i,
    {
        let mut entries: Vec<(String, usize)> = Vec::new();
        let mut i: usize = 0;
        while i < self.labels.len()
            invariant
                i <= self.labels.len(),
                entries@.len() == i,
                forall|k: int|
                    0 <= k < i ==> (#[trigger] entries@[k]).0@ == self.spec_labels()[k]
                        && entries@[k].1 == k,
            decreases self.labels.len() - i,
        {
            entries.push((self.labels[i].clone(), i));
            i = i + 1;
        }
        Some(entries)
    }
}

} // verus!
