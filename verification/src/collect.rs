//! The collector: the state that the walk over a page's frame tree keeps.
//!
//! Elements are numbered in the order they are inserted; every element
//! inserted while labels are active becomes a member of those labels'
//! groups; shared data is stored once per id; warnings are kept in order.
//! The collector carries the payloads of elements and shared data without
//! looking into them.

use vstd::prelude::*;
use indexmap::IndexMap;
use rustc_hash::FxBuildHasher;
use crate::maps::{
    group_entries, groups_index_of, groups_insert_full, groups_into_entries, groups_new,
    groups_value_mut, has_label, shared_index_of, shared_insert_full, shared_into_keys,
    shared_keys, shared_new,
};
use crate::warnings::{warning_name, ExportWarning};

verus! {

/// One element of the page: its type, what the caller attached to it, and
/// the id of the shared data it refers to, if any.
pub struct Element<E> {
    pub elemtype: String,
    pub payload: E,
    pub shared_id: Option<u128>,
}

/// Everything collected from a page, in the order it was collected.
pub struct Collected<E, D> {
    /// The elements; a member index of a group is a position here.
    pub elements: Vec<Element<E>>,
    /// The shared data with its id, each id once.
    pub shared: Vec<(u128, D)>,
    /// Each label with the positions of its members in `elements`.
    pub groups: Vec<(String, Vec<usize>)>,
    /// The names of the warnings, in the order they were raised.
    pub warnings: Vec<String>,
}

/// The kinds of paint that a fill or a stroke can have.
#[derive(Debug, Clone, Copy, PartialEq, Eq, Structural)]
pub enum PaintKind {
    Solid,
    Gradient,
    Tiling,
}

/// Collects the elements of one page.
pub struct Collecter<E, D> {
    /// The labels of the groups being walked, innermost last.
    active_labels: Vec<String>,
    elements: Vec<Element<E>>,
    /// The ids of the shared data, in insertion order; the data of the id at
    /// position `i` is `shared_data[i]`.
    shared: IndexMap<u128, (), FxBuildHasher>,
    shared_data: Vec<D>,
    groups: IndexMap<String, Vec<usize>>,
    warnings: Vec<ExportWarning>,
}

/// The number of times `key` stands in `labels`.
pub open spec fn label_count(labels: Seq<Seq<char>>, key: Seq<char>) -> nat
    decreases labels.len(),
{
    if labels.len() == 0 {
        0
    } else {
        label_count(labels.drop_last(), key) + (if labels.last() == key { 1nat } else { 0nat })
    }
}

/// The groups after element `nth` is inserted while `labels` are active:
/// each group gains `nth` once for each time its label stands in `labels`.
pub open spec fn groups_with_member(
    groups: Seq<(Seq<char>, Seq<usize>)>,
    labels: Seq<Seq<char>>,
    nth: usize,
) -> Seq<(Seq<char>, Seq<usize>)> {
    Seq::new(
        groups.len(),
        |i: int| (groups[i].0, groups[i].1 + Seq::new(label_count(labels, groups[i].0), |_j: int| nth)),
    )
}

/// The groups after `label` is registered: unchanged when it has a group,
/// else an empty group for it comes last.
pub open spec fn groups_with_label(groups: Seq<(Seq<char>, Seq<usize>)>, label: Seq<char>) -> Seq<(Seq<char>, Seq<usize>)> {
    if has_label(groups, label) {
        groups
    } else {
        groups.push((label, Seq::empty()))
    }
}

/// The active labels after a label (or none) is entered.
pub open spec fn labels_after_enter(labels: Seq<Seq<char>>, label: Option<Seq<char>>) -> Seq<Seq<char>> {
    match label {
        Some(l) => labels.push(l),
        None => labels,
    }
}

/// The active labels after leaving what was entered.
pub open spec fn labels_after_leave(labels: Seq<Seq<char>>, entered: bool) -> Seq<Seq<char>> {
    if entered {
        labels.drop_last()
    } else {
        labels
    }
}

/// The shared ids after `id` is inserted: unchanged when present, else
/// appended.
pub open spec fn ids_after_insert(ids: Seq<u128>, id: u128) -> Seq<u128> {
    if ids.contains(id) {
        ids
    } else {
        ids.push(id)
    }
}

/// No two groups have the same label.
pub open spec fn labels_distinct(groups: Seq<(Seq<char>, Seq<usize>)>) -> bool {
    forall|i: int, j: int| 0 <= i < j < groups.len() ==> #[trigger] groups[i].0 != #[trigger] groups[j].0
}

/// The members of every group stand in the order their elements were
/// inserted (an element repeats when its label was active more than once).
pub open spec fn members_sorted(groups: Seq<(Seq<char>, Seq<usize>)>) -> bool {
    forall|i: int, a: int, b: int|
        0 <= i < groups.len() && 0 <= a < b < groups[i].1.len()
            ==> #[trigger] groups[i].1[a] <= #[trigger] groups[i].1[b]
}

/// The members of a group are strictly increasing: no element repeats.
pub open spec fn strictly_increasing(members: Seq<usize>) -> bool {
    forall|a: int, b: int| 0 <= a < b < members.len() ==> #[trigger] members[a] < #[trigger] members[b]
}

/// Some element refers to the shared data stored under `id`.
pub open spec fn refers_to<E>(elements: Seq<Element<E>>, id: u128) -> bool {
    exists|k: int| 0 <= k < elements.len() && (#[trigger] elements[k]).shared_id == Some(id)
}

pub open spec fn option_view(label: Option<String>) -> Option<Seq<char>> {
    match label {
        Some(l) => Some(l@),
        None => None,
    }
}

/// Counting over one more label adds one exactly when that label is the key.
proof fn lemma_label_count_step(labels: Seq<Seq<char>>, j: int)
    requires
        0 <= j < labels.len(),
    ensures
        forall|key: Seq<char>| #[trigger] label_count(labels.take(j + 1), key)
            == label_count(labels.take(j), key) + (if labels[j] == key { 1nat } else { 0nat }),
{
    assert(labels.take(j + 1).drop_last() =~= labels.take(j));
}

impl<E, D> Collecter<E, D> {
    /// The active labels, innermost last.
    pub closed spec fn labels(&self) -> Seq<Seq<char>> {
        self.active_labels@.map_values(|s: String| s@)
    }

    /// The elements inserted so far.
    pub closed spec fn elements(&self) -> Seq<Element<E>> {
        self.elements@
    }

    /// Each label with the positions of its members.
    pub closed spec fn groups(&self) -> Seq<(Seq<char>, Seq<usize>)> {
        group_entries(self.groups)
    }

    /// The ids of the shared data, in insertion order.
    pub closed spec fn shared_ids(&self) -> Seq<u128> {
        shared_keys(self.shared)
    }

    /// The shared data, at the position of its id.
    pub closed spec fn shared_data(&self) -> Seq<D> {
        self.shared_data@
    }

    /// The warnings raised so far.
    pub closed spec fn warnings(&self) -> Seq<ExportWarning> {
        self.warnings@
    }

    /// The collector's invariant: labels name distinct groups, every active
    /// label has a group, every member is the position of an element and
    /// members stand in insertion order, each shared id stands once, beside
    /// its data, every element's shared id is stored and every stored id is
    /// referred to by an element.
    pub closed spec fn wf(&self) -> bool {
        &&& self.wf_core()
        &&& self.shared_refs_ok()
    }

    /// Each element's shared id is stored, and each stored id is referred to
    /// by an element.
    closed spec fn shared_refs_ok(&self) -> bool {
        &&& forall|k: int| 0 <= k < self.elements@.len() && (#[trigger] self.elements@[k]).shared_id is Some
            ==> shared_keys(self.shared).contains(self.elements@[k].shared_id->0)
        &&& forall|j: int| 0 <= j < shared_keys(self.shared).len()
            ==> refers_to(self.elements@, #[trigger] shared_keys(self.shared)[j])
    }

    /// Everything of `wf` but the references to shared data.
    closed spec fn wf_core(&self) -> bool {
        &&& labels_distinct(self.groups())
        &&& forall|k: int| 0 <= k < self.active_labels@.len() ==> has_label(self.groups(), #[trigger] self.active_labels@[k]@)
        &&& forall|i: int, k: int|
            0 <= i < self.groups().len() && 0 <= k < self.groups()[i].1.len()
                ==> #[trigger] self.groups()[i].1[k] < self.elements().len()
        &&& members_sorted(self.groups())
        &&& self.shared_ids().no_duplicates()
        &&& self.shared_ids().len() == self.shared_data().len()
    }

    /// An empty collector.
    pub fn new() -> (c: Self)
        ensures
            c.wf(),
            c.labels() == Seq::<Seq<char>>::empty(),
            c.elements() == Seq::<Element<E>>::empty(),
            c.groups() == Seq::<(Seq<char>, Seq<usize>)>::empty(),
            c.shared_ids() == Seq::<u128>::empty(),
            c.shared_data() == Seq::<D>::empty(),
            c.warnings() == Seq::<ExportWarning>::empty(),
    {
        let c = Collecter {
            active_labels: Vec::new(),
            elements: Vec::new(),
            shared: shared_new(),
            shared_data: Vec::new(),
            groups: groups_new(),
            warnings: Vec::new(),
        };
        assert(c.labels() =~= Seq::<Seq<char>>::empty());
        c
    }

    /// Raises the warning that images are not supported yet; an image adds
    /// nothing else to the page's elements.
    pub fn collect_image(&mut self)
        requires
            old(self).wf(),
        ensures
            final(self).wf(),
            final(self).warnings() == old(self).warnings().push(ExportWarning::ImageNotSupported),
            final(self).labels() == old(self).labels(),
            final(self).elements() == old(self).elements(),
            final(self).groups() == old(self).groups(),
            final(self).shared_ids() == old(self).shared_ids(),
            final(self).shared_data() == old(self).shared_data(),
    {
        self.add_warning(ExportWarning::ImageNotSupported);
    }

    /// Enters a group that may carry a label: a label is registered as a
    /// group (empty, last in order) unless it has one already, and becomes
    /// the innermost active label. Returns whether a label was entered.
    pub fn enter_label(&mut self, label: Option<String>) -> (entered: bool)
        requires
            old(self).wf(),
        ensures
            final(self).wf(),
            entered == label.is_some(),
            final(self).labels() == labels_after_enter(old(self).labels(), option_view(label)),
            final(self).groups() == match label {
                Some(l) => groups_with_label(old(self).groups(), l@),
                None => old(self).groups(),
            },
            final(self).elements() == old(self).elements(),
            final(self).shared_ids() == old(self).shared_ids(),
            final(self).shared_data() == old(self).shared_data(),
            final(self).warnings() == old(self).warnings(),
    {
        match label {
            None => false,
            Some(l) => {
                let ghost g0 = group_entries(self.groups);
                if groups_index_of(&self.groups, &l).is_none() {
                    let key = l.clone();
                    let _ = groups_insert_full(&mut self.groups, key, Vec::new());
                    assert(has_label(group_entries(self.groups), l@)) by {
                        assert(group_entries(self.groups)[g0.len() as int].0 == l@);
                    }
                    assert forall|i: int, j: int| 0 <= i < j < group_entries(self.groups).len()
                        implies #[trigger] group_entries(self.groups)[i].0 != #[trigger] group_entries(self.groups)[j].0 by {
                        if j == g0.len() {
                            assert(g0[i].0 == group_entries(self.groups)[i].0);
                        }
                    }
                    assert forall|k: int| 0 <= k < self.active_labels@.len()
                        implies has_label(group_entries(self.groups), #[trigger] self.active_labels@[k]@) by {
                        let i = choose|i: int| 0 <= i < g0.len() && #[trigger] g0[i].0 == self.active_labels@[k]@;
                        assert(group_entries(self.groups)[i].0 == g0[i].0);
                    }
                    assert forall|i: int, k: int|
                        0 <= i < group_entries(self.groups).len() && 0 <= k < group_entries(self.groups)[i].1.len()
                        implies #[trigger] group_entries(self.groups)[i].1[k] < self.elements@.len() by {
                        if i < g0.len() {
                            assert(group_entries(self.groups)[i] == g0[i]);
                        }
                    }
                }
                let ghost labels0 = self.labels();
                self.active_labels.push(l);
                assert(self.labels() =~= labels0.push(l@));
                true
            }
        }
    }

    /// Leaves what `enter_label` entered: when a label was entered, the
    /// innermost active label is dropped.
    pub fn leave_label(&mut self, entered: bool)
        requires
            old(self).wf(),
            entered ==> old(self).labels().len() > 0,
        ensures
            final(self).wf(),
            final(self).labels() == labels_after_leave(old(self).labels(), entered),
            final(self).elements() == old(self).elements(),
            final(self).groups() == old(self).groups(),
            final(self).shared_ids() == old(self).shared_ids(),
            final(self).shared_data() == old(self).shared_data(),
            final(self).warnings() == old(self).warnings(),
    {
        if entered {
            let ghost labels0 = self.labels();
            let _ = self.active_labels.pop();
            assert(self.labels() =~= labels0.drop_last());
        }
    }

    /// Pushes an element and returns its position; the element becomes a
    /// member of the group of every active label, once for each time the
    /// label is active.
    pub fn insert_element(&mut self, elemtype: String, payload: E) -> (nth: usize)
        requires
            old(self).wf(),
        ensures
            final(self).wf(),
            nth == old(self).elements().len(),
            final(self).elements() == old(self).elements().push((Element { elemtype, payload, shared_id: None })),
            final(self).groups() == groups_with_member(old(self).groups(), old(self).labels(), nth),
            final(self).labels() == old(self).labels(),
            final(self).shared_ids() == old(self).shared_ids(),
            final(self).shared_data() == old(self).shared_data(),
            final(self).warnings() == old(self).warnings(),
    {
        let ghost el0 = self.elements@;
        let nth = self.push_element(elemtype, payload, None);
        proof {
            let ids = shared_keys(self.shared);
            assert forall|j: int| 0 <= j < ids.len() implies refers_to(self.elements@, #[trigger] ids[j]) by {
                let k = choose|k: int| 0 <= k < el0.len() && (#[trigger] el0[k]).shared_id == Some(ids[j]);
                assert(self.elements@[k] == el0[k]);
            }
            assert forall|k: int| 0 <= k < self.elements@.len() && (#[trigger] self.elements@[k]).shared_id is Some
                implies ids.contains(self.elements@[k].shared_id->0) by {
                assert(self.elements@[k] == el0[k]);
            }
        }
        nth
    }

    /// Stores `data` under `id` unless something is stored under it already
    /// (then `data` is dropped; it is needed only for a new id), and pushes an
    /// element that refers to `id`, as `insert_element` does. Returns the
    /// element's position and the position of what is stored under `id`.
    pub fn insert_shared_element(
        &mut self,
        elemtype: String,
        payload: E,
        id: u128,
        data: Option<D>,
    ) -> (r: (usize, usize))
        requires
            old(self).wf(),
            !old(self).shared_ids().contains(id) ==> data is Some,
        ensures
            final(self).wf(),
            r.0 == old(self).elements().len(),
            final(self).elements() == old(self).elements().push((Element { elemtype, payload, shared_id: Some(id) })),
            final(self).groups() == groups_with_member(old(self).groups(), old(self).labels(), r.0),
            final(self).shared_ids() == ids_after_insert(old(self).shared_ids(), id),
            final(self).shared_data() == if old(self).shared_ids().contains(id) {
                old(self).shared_data()
            } else {
                old(self).shared_data().push(data->0)
            },
            r.1 < final(self).shared_ids().len(),
            final(self).shared_ids()[r.1 as int] == id,
            old(self).shared_ids().contains(id) ==> old(self).shared_ids()[r.1 as int] == id,
            final(self).labels() == old(self).labels(),
            final(self).warnings() == old(self).warnings(),
    {
        let ghost el0 = self.elements@;
        let ghost ids0 = shared_keys(self.shared);
        let slot = match shared_index_of(&self.shared, id) {
            Some(slot) => slot,
            None => {
                let (slot, _) = shared_insert_full(&mut self.shared, id);
                self.shared_data.push(data.unwrap());
                proof {
                    let ids1 = shared_keys(self.shared);
                    assert forall|a: int, b: int| 0 <= a < ids1.len() && 0 <= b < ids1.len() && a != b
                        implies ids1[a] != ids1[b] by {
                        if a == ids0.len() {
                            assert(ids0[b] == ids1[b]);
                        } else if b == ids0.len() {
                            assert(ids0[a] == ids1[a]);
                        } else {
                            assert(ids0[a] == ids1[a] && ids0[b] == ids1[b]);
                        }
                    }
                }
                slot
            }
        };
        let nth = self.push_element(elemtype, payload, Some(id));
        proof {
            let ids = shared_keys(self.shared);
            let els = self.elements@;
            assert(els[nth as int].shared_id == Some(id));
            assert forall|k: int| 0 <= k < els.len() && (#[trigger] els[k]).shared_id is Some
                implies ids.contains(els[k].shared_id->0) by {
                if k < el0.len() {
                    assert(els[k] == el0[k]);
                    let x = el0[k].shared_id->0;
                    let w = choose|w: int| 0 <= w < ids0.len() && ids0[w] == x;
                    assert(ids[w] == x);
                } else {
                    assert(ids[slot as int] == id);
                }
            }
            assert forall|j: int| 0 <= j < ids.len() implies refers_to(els, #[trigger] ids[j]) by {
                if j < ids0.len() {
                    assert(ids[j] == ids0[j]);
                    let k = choose|k: int| 0 <= k < el0.len() && (#[trigger] el0[k]).shared_id == Some(ids0[j]);
                    assert(els[k] == el0[k]);
                } else {
                    assert(ids[j] == id);
                    assert(els[nth as int].shared_id == Some(ids[j]));
                }
            }
        }
        (nth, slot)
    }

    /// Pushes an element with the given shared id, and adds it to the groups
    /// of the active labels.
    fn push_element(&mut self, elemtype: String, payload: E, shared_id: Option<u128>) -> (nth: usize)
        requires
            old(self).wf_core(),
        ensures
            final(self).wf_core(),
            nth == old(self).elements().len(),
            final(self).elements() == old(self).elements().push((Element { elemtype, payload, shared_id })),
            final(self).groups() == groups_with_member(old(self).groups(), old(self).labels(), nth),
            final(self).labels() == old(self).labels(),
            final(self).shared == old(self).shared,
            final(self).shared_data() == old(self).shared_data(),
            final(self).warnings() == old(self).warnings(),
    {
        let nth = self.elements.len();
        self.elements.push(Element { elemtype, payload, shared_id });
        let ghost g0 = group_entries(self.groups);
        let ghost labels = self.labels();
        let ghost elements1 = self.elements@;
        let ghost shared1 = self.shared;
        let ghost data1 = self.shared_data@;
        let ghost warnings1 = self.warnings@;
        proof {
            assert(groups_with_member(g0, labels.take(0), nth) =~= g0) by {
                assert forall|i: int| 0 <= i < g0.len()
                    implies #[trigger] groups_with_member(g0, labels.take(0), nth)[i] == g0[i] by {
                    assert(label_count(labels.take(0), g0[i].0) == 0);
                    assert(g0[i].1 + Seq::new(0, |_j: int| nth) =~= g0[i].1);
                }
            }
        }
        let n = self.active_labels.len();
        let mut j: usize = 0;
        while j < n
            invariant
                0 <= j <= n,
                n == self.active_labels@.len(),
                labels == self.labels(),
                labels_distinct(g0),
                forall|k: int| 0 <= k < self.active_labels@.len() ==> has_label(g0, #[trigger] self.active_labels@[k]@),
                group_entries(self.groups) == groups_with_member(g0, labels.take(j as int), nth),
                self.elements@ == elements1,
                elements1.len() == nth + 1,
                self.shared == shared1,
                self.shared_data@ == data1,
                self.warnings@ == warnings1,
                forall|i: int, k: int| 0 <= i < g0.len() && 0 <= k < g0[i].1.len() ==> #[trigger] g0[i].1[k] < nth,
            decreases n - j,
        {
            let ghost cur = group_entries(self.groups);
            let ghost lj = labels[j as int];
            assert(lj == self.active_labels@[j as int]@);
            let r = groups_index_of(&self.groups, &self.active_labels[j]);
            proof {
                lemma_label_count_step(labels, j as int);
            }
            match r {
                Some(i) => {
                    let members = groups_value_mut(&mut self.groups, i);
                    members.push(nth);
                    let ghost next = groups_with_member(g0, labels.take(j + 1), nth);
                    assert(cur[i as int].0 == g0[i as int].0);
                    assert forall|x: int| 0 <= x < next.len()
                        implies #[trigger] group_entries(self.groups)[x] == next[x] by {
                        let c = label_count(labels.take(j as int), g0[x].0);
                        if x == i {
                            assert(g0[x].1 + Seq::new(c + 1, |_j: int| nth)
                                =~= (g0[x].1 + Seq::new(c, |_j: int| nth)).push(nth));
                        } else {
                            assert(g0[x].0 != lj);
                        }
                    }
                    assert(group_entries(self.groups) =~= next);
                }
                None => {
                    proof {
                        let w = choose|w: int| 0 <= w < g0.len() && #[trigger] g0[w].0 == lj;
                        assert(cur[w].0 == lj);
                    }
                }
            }
            j = j + 1;
        }
        proof {
            assert(labels.take(n as int) =~= labels);
            let gs = group_entries(self.groups);
            assert forall|i: int, k: int|
                0 <= i < gs.len() && 0 <= k < gs[i].1.len()
                implies #[trigger] gs[i].1[k] < self.elements@.len() by {
                if k < g0[i].1.len() {
                    assert(gs[i].1[k] == g0[i].1[k]);
                }
            }
            assert forall|i: int, j2: int| 0 <= i < j2 < gs.len()
                implies #[trigger] gs[i].0 != #[trigger] gs[j2].0 by {
                assert(gs[i].0 == g0[i].0 && gs[j2].0 == g0[j2].0);
            }
            assert forall|k: int| 0 <= k < self.active_labels@.len()
                implies has_label(gs, #[trigger] self.active_labels@[k]@) by {
                let w = choose|w: int| 0 <= w < g0.len() && #[trigger] g0[w].0 == self.active_labels@[k]@;
                assert(gs[w].0 == g0[w].0);
            }
        }
        nth
    }

    /// The position of the shared data stored under `id`, or `None` when
    /// nothing is stored under it.
    pub fn find_shared(&self, id: u128) -> (r: Option<usize>)
        requires
            self.wf(),
        ensures
            match r {
                Some(slot) => slot < self.shared_ids().len() && self.shared_ids()[slot as int] == id,
                None => !self.shared_ids().contains(id),
            },
    {
        shared_index_of(&self.shared, id)
    }

    /// The shared data at position `slot`.
    pub fn shared_at(&self, slot: usize) -> (d: &D)
        requires
            self.wf(),
            slot < self.shared_ids().len(),
        ensures
            *d == self.shared_data()[slot as int],
    {
        &self.shared_data[slot]
    }

    /// Ends the collection: the elements, the shared data beside its id, the
    /// groups and the names of the warnings, each in the order collected.
    pub fn finish(self) -> (c: Collected<E, D>)
        requires
            self.wf(),
        ensures
            c.elements@ == self.elements(),
            c.shared@.len() == self.shared_ids().len(),
            forall|k: int| 0 <= k < c.shared@.len() ==> (#[trigger] c.shared@[k]).0 == self.shared_ids()[k]
                && c.shared@[k].1 == self.shared_data()[k],
            c.groups@.len() == self.groups().len(),
            forall|k: int| 0 <= k < c.groups@.len() ==> (#[trigger] c.groups@[k]).0@ == self.groups()[k].0
                && c.groups@[k].1@ == self.groups()[k].1,
            c.warnings@.len() == self.warnings().len(),
            forall|k: int| 0 <= k < c.warnings@.len() ==> (#[trigger] c.warnings@[k])@ == warning_name(self.warnings()[k]),
    {
        let Collecter { active_labels: _, elements, shared, shared_data, groups, warnings } = self;
        let ids = shared_into_keys(shared);
        let mut data = shared_data;
        let ghost data0 = data@;
        let n = data.len();
        // Popping reverses the data once; popping again restores its order.
        let mut reversed: Vec<D> = Vec::new();
        while data.len() > 0
            invariant
                data0.len() == n,
                data@ == data0.take(data@.len() as int),
                reversed@.len() == n - data@.len(),
                forall|k: int| 0 <= k < reversed@.len() ==> #[trigger] reversed@[k] == data0[n - 1 - k],
            decreases data@.len(),
        {
            let m = data.len();
            let d = data.pop().unwrap();
            assert(data@ =~= data0.take(m - 1));
            reversed.push(d);
        }
        let mut pairs: Vec<(u128, D)> = Vec::new();
        for i in 0..n
            invariant
                n == data0.len(),
                ids@.len() == n,
                reversed@.len() == n - i,
                forall|k: int| 0 <= k < reversed@.len() ==> #[trigger] reversed@[k] == data0[n - 1 - k],
                pairs@.len() == i,
                forall|k: int| 0 <= k < i ==> (#[trigger] pairs@[k]).0 == ids@[k] && pairs@[k].1 == data0[k],
        {
            let d = reversed.pop().unwrap();
            pairs.push((ids[i], d));
        }
        let groups = groups_into_entries(groups);
        let mut names: Vec<String> = Vec::new();
        let nw = warnings.len();
        for i in 0..nw
            invariant
                nw == warnings@.len(),
                names@.len() == i,
                forall|k: int| 0 <= k < i ==> (#[trigger] names@[k])@ == warning_name(warnings@[k]),
        {
            let name = warnings[i].as_str().to_string();
            names.push(name);
        }
        Collected { elements, shared: pairs, groups, warnings: names }
    }

    /// Enters a group of the frame tree: a group with a clip path raises the
    /// warning that clip paths are not supported (its content is still
    /// collected), then its label, if any, is entered as by `enter_label`.
    pub fn enter_group(&mut self, clipped: bool, label: Option<String>) -> (entered: bool)
        requires
            old(self).wf(),
        ensures
            final(self).wf(),
            entered == label.is_some(),
            final(self).warnings() == if clipped {
                old(self).warnings().push(ExportWarning::ClipPathNotSupported)
            } else {
                old(self).warnings()
            },
            final(self).labels() == labels_after_enter(old(self).labels(), option_view(label)),
            final(self).groups() == match label {
                Some(l) => groups_with_label(old(self).groups(), l@),
                None => old(self).groups(),
            },
            final(self).elements() == old(self).elements(),
            final(self).shared_ids() == old(self).shared_ids(),
            final(self).shared_data() == old(self).shared_data(),
    {
        if clipped {
            self.add_warning(ExportWarning::ClipPathNotSupported);
        }
        self.enter_label(label)
    }

    /// Whether a paint of this kind can be represented: only a solid colour
    /// can; a gradient or a tiling raises its warning (the caller then uses
    /// opaque white).
    pub fn paint_supported(&mut self, kind: PaintKind) -> (solid: bool)
        requires
            old(self).wf(),
        ensures
            final(self).wf(),
            solid == (kind == PaintKind::Solid),
            final(self).warnings() == match kind {
                PaintKind::Solid => old(self).warnings(),
                PaintKind::Gradient => old(self).warnings().push(ExportWarning::GradientNotSupprted),
                PaintKind::Tiling => old(self).warnings().push(ExportWarning::TilingNotSupported),
            },
            final(self).labels() == old(self).labels(),
            final(self).elements() == old(self).elements(),
            final(self).groups() == old(self).groups(),
            final(self).shared_ids() == old(self).shared_ids(),
            final(self).shared_data() == old(self).shared_data(),
    {
        match kind {
            PaintKind::Solid => true,
            PaintKind::Gradient => {
                self.add_warning(ExportWarning::GradientNotSupprted);
                false
            },
            PaintKind::Tiling => {
                self.add_warning(ExportWarning::TilingNotSupported);
                false
            },
        }
    }

    /// Whether a glyph can be collected: only a glyph drawn by its outline
    /// can; a bitmap or colour glyph raises its warning and is skipped.
    pub fn glyph_supported(&mut self, outlined: bool) -> (supported: bool)
        requires
            old(self).wf(),
        ensures
            final(self).wf(),
            supported == outlined,
            final(self).warnings() == if outlined {
                old(self).warnings()
            } else {
                old(self).warnings().push(ExportWarning::ImageGlyphNotSupported)
            },
            final(self).labels() == old(self).labels(),
            final(self).elements() == old(self).elements(),
            final(self).groups() == old(self).groups(),
            final(self).shared_ids() == old(self).shared_ids(),
            final(self).shared_data() == old(self).shared_data(),
    {
        if !outlined {
            self.add_warning(ExportWarning::ImageGlyphNotSupported);
        }
        outlined
    }

    /// Pushes a warning.
    pub fn add_warning(&mut self, warning: ExportWarning)
        requires
            old(self).wf(),
        ensures
            final(self).wf(),
            final(self).warnings() == old(self).warnings().push(warning),
            final(self).labels() == old(self).labels(),
            final(self).elements() == old(self).elements(),
            final(self).groups() == old(self).groups(),
            final(self).shared_ids() == old(self).shared_ids(),
            final(self).shared_data() == old(self).shared_data(),
    {
        self.warnings.push(warning);
    }
}

} // verus!

verus! {

/// What every collector keeps, from `new` through every operation: labels
/// name distinct groups, every active label has a group, every member of a
/// group is the position of an element and members stand in insertion
/// order, each shared id stands once and beside one piece of data, every
/// element's shared id is stored, and every stored id is referred to by an
/// element.
pub proof fn lemma_collecter_invariant<E, D>(c: Collecter<E, D>)
    requires
        c.wf(),
    ensures
        labels_distinct(c.groups()),
        forall|k: int| 0 <= k < c.labels().len() ==> has_label(c.groups(), #[trigger] c.labels()[k]),
        forall|i: int, k: int|
            0 <= i < c.groups().len() && 0 <= k < c.groups()[i].1.len()
                ==> #[trigger] c.groups()[i].1[k] < c.elements().len(),
        members_sorted(c.groups()),
        c.shared_ids().no_duplicates(),
        c.shared_ids().len() == c.shared_data().len(),
        forall|k: int| 0 <= k < c.elements().len() && (#[trigger] c.elements()[k]).shared_id is Some
            ==> c.shared_ids().contains(c.elements()[k].shared_id->0),
        forall|j: int| 0 <= j < c.shared_ids().len() ==> refers_to(c.elements(), #[trigger] c.shared_ids()[j]),
{
    assert forall|k: int| 0 <= k < c.labels().len() implies has_label(c.groups(), #[trigger] c.labels()[k]) by {
        assert(c.labels()[k] == c.active_labels@[k]@);
    }
}

/// Entering a label and leaving it again restores the active labels.
pub proof fn lemma_label_scope(labels: Seq<Seq<char>>, label: Option<Seq<char>>)
    ensures
        labels_after_leave(labels_after_enter(labels, label), label is Some) == labels,
{
    if label is Some {
        assert(labels.push(label->0).drop_last() =~= labels);
    }
}

/// Registering a label gives it a group, keeps every existing group, in its
/// place, and registering it again changes nothing.
pub proof fn lemma_label_registration(groups: Seq<(Seq<char>, Seq<usize>)>, label: Seq<char>)
    ensures
        has_label(groups_with_label(groups, label), label),
        groups_with_label(groups, label).len() >= groups.len(),
        forall|i: int| 0 <= i < groups.len() ==> #[trigger] groups_with_label(groups, label)[i] == groups[i],
        groups_with_label(groups_with_label(groups, label), label) == groups_with_label(groups, label),
        labels_distinct(groups) ==> labels_distinct(groups_with_label(groups, label)),
{
    let g = groups_with_label(groups, label);
    if !has_label(groups, label) {
        assert(g[groups.len() as int].0 == label);
        if labels_distinct(groups) {
            assert forall|i: int, j: int| 0 <= i < j < g.len() implies #[trigger] g[i].0 != #[trigger] g[j].0 by {
                if j == groups.len() {
                    assert(g[i] == groups[i]);
                } else {
                    assert(g[i] == groups[i] && g[j] == groups[j]);
                }
            }
        }
    }
}

/// An element inserted while `label` is active becomes a member of that
/// label's group, after the members it had; a group whose label is not
/// active keeps its members; no group is added, removed or moved.
pub proof fn lemma_member_of_active_labels(
    groups: Seq<(Seq<char>, Seq<usize>)>,
    labels: Seq<Seq<char>>,
    nth: usize,
    i: int,
)
    requires
        0 <= i < groups.len(),
    ensures
        groups_with_member(groups, labels, nth).len() == groups.len(),
        groups_with_member(groups, labels, nth)[i].0 == groups[i].0,
        groups_with_member(groups, labels, nth)[i].1.subrange(0, groups[i].1.len() as int) == groups[i].1,
        labels.contains(groups[i].0) ==> groups_with_member(groups, labels, nth)[i].1.contains(nth),
        !labels.contains(groups[i].0) ==> groups_with_member(groups, labels, nth)[i].1 == groups[i].1,
{
    let key = groups[i].0;
    let m = groups_with_member(groups, labels, nth)[i].1;
    assert(m.subrange(0, groups[i].1.len() as int) =~= groups[i].1);
    lemma_label_count_contains(labels, key);
    if labels.contains(key) {
        assert(m[groups[i].1.len() as int] == nth);
    } else {
        assert(m =~= groups[i].1);
    }
}

/// When no label is active twice, an inserted element joins each group at
/// most once, so a group whose members were strictly increasing stays so.
/// (With a label active twice, the element joins its group twice.)
pub proof fn lemma_members_strictly_increasing(
    groups: Seq<(Seq<char>, Seq<usize>)>,
    labels: Seq<Seq<char>>,
    nth: usize,
    i: int,
)
    requires
        0 <= i < groups.len(),
        labels.no_duplicates(),
        strictly_increasing(groups[i].1),
        forall|k: int| 0 <= k < groups[i].1.len() ==> #[trigger] groups[i].1[k] < nth,
    ensures
        strictly_increasing(groups_with_member(groups, labels, nth)[i].1),
{
    lemma_label_count_unique(labels, groups[i].0);
    let m = groups_with_member(groups, labels, nth)[i].1;
    let old_len = groups[i].1.len() as int;
    assert forall|a: int, b: int| 0 <= a < b < m.len() implies #[trigger] m[a] < #[trigger] m[b] by {
        if b < old_len {
            assert(m[a] == groups[i].1[a] && m[b] == groups[i].1[b]);
        } else {
            assert(a < old_len);
            assert(m[a] == groups[i].1[a]);
        }
    }
}

/// Labels that stand once each are each counted at most once.
proof fn lemma_label_count_unique(labels: Seq<Seq<char>>, key: Seq<char>)
    requires
        labels.no_duplicates(),
    ensures
        label_count(labels, key) <= 1,
    decreases labels.len(),
{
    if labels.len() > 0 {
        let rest = labels.drop_last();
        assert(rest.no_duplicates()) by {
            assert forall|a: int, b: int| 0 <= a < rest.len() && 0 <= b < rest.len() && a != b
                implies rest[a] != rest[b] by {
                assert(rest[a] == labels[a] && rest[b] == labels[b]);
            }
        }
        lemma_label_count_unique(rest, key);
        if labels.last() == key {
            lemma_label_count_contains(rest, key);
            if rest.contains(key) {
                let k = choose|k: int| 0 <= k < rest.len() && rest[k] == key;
                assert(labels[k] == labels[labels.len() - 1]);
            }
        }
    }
}

/// A label is counted at least once exactly when it stands in the labels.
proof fn lemma_label_count_contains(labels: Seq<Seq<char>>, key: Seq<char>)
    ensures
        labels.contains(key) <==> label_count(labels, key) > 0,
    decreases labels.len(),
{
    if labels.len() > 0 {
        lemma_label_count_contains(labels.drop_last(), key);
        if labels.contains(key) && labels.last() != key {
            let k = choose|k: int| 0 <= k < labels.len() && labels[k] == key;
            assert(labels.drop_last()[k] == key);
        }
        if labels.drop_last().contains(key) {
            let k = choose|k: int| 0 <= k < labels.drop_last().len() && labels.drop_last()[k] == key;
            assert(labels[k] == key);
        }
        if labels.last() == key {
            assert(labels[labels.len() - 1] == key);
        }
    }
}

/// Shared data is stored once per id: inserting an id stores it, and
/// inserting it again changes nothing; distinct ids stay distinct.
pub proof fn lemma_shared_dedup(ids: Seq<u128>, id: u128)
    ensures
        ids_after_insert(ids, id).contains(id),
        ids_after_insert(ids_after_insert(ids, id), id) == ids_after_insert(ids, id),
        ids.no_duplicates() ==> ids_after_insert(ids, id).no_duplicates(),
{
    let after = ids_after_insert(ids, id);
    if !ids.contains(id) {
        assert(after[ids.len() as int] == id);
    }
    assert(after.contains(id));
    if ids.no_duplicates() && !ids.contains(id) {
        assert forall|a: int, b: int| 0 <= a < after.len() && 0 <= b < after.len() && a != b
            implies after[a] != after[b] by {
            if a == ids.len() {
                assert(after[b] == ids[b]);
            } else if b == ids.len() {
                assert(after[a] == ids[a]);
            }
        }
    }
}

/// Inserting element `nth` adds its position and nothing else: every group
/// keeps its label, its place and its old members, in order, and after them
/// gains exactly as many copies of `nth` as its label stands among the active
/// labels. So a group whose label is not active is unchanged, and every
/// member a group gains is the new element.
pub proof fn lemma_insert_adds_only_new_position(
    groups: Seq<(Seq<char>, Seq<usize>)>,
    labels: Seq<Seq<char>>,
    nth: usize,
)
    ensures
        groups_with_member(groups, labels, nth).len() == groups.len(),
        forall|i: int| 0 <= i < groups.len() ==> (#[trigger] groups_with_member(groups, labels, nth)[i]).0 == groups[i].0,
        forall|i: int| 0 <= i < groups.len() ==> (#[trigger] groups_with_member(groups, labels, nth)[i]).1.len()
            == groups[i].1.len() + label_count(labels, groups[i].0),
        forall|i: int, k: int| 0 <= i < groups.len() && 0 <= k < groups[i].1.len()
            ==> #[trigger] groups_with_member(groups, labels, nth)[i].1[k] == groups[i].1[k],
        forall|i: int, k: int| 0 <= i < groups.len() && groups[i].1.len() <= k
            < groups_with_member(groups, labels, nth)[i].1.len()
            ==> #[trigger] groups_with_member(groups, labels, nth)[i].1[k] == nth,
        forall|i: int| 0 <= i < groups.len() && !labels.contains(groups[i].0)
            ==> (#[trigger] groups_with_member(groups, labels, nth)[i]) == groups[i],
{
    assert forall|i: int| 0 <= i < groups.len() && !labels.contains(groups[i].0)
        implies (#[trigger] groups_with_member(groups, labels, nth)[i]) == groups[i] by {
        lemma_label_count_contains(labels, groups[i].0);
        assert(groups_with_member(groups, labels, nth)[i].1 =~= groups[i].1);
    }
}

/// How often a label is active: never among no labels, and one more than
/// before exactly when the label pushed last is that label.
pub proof fn lemma_label_count_counts(labels: Seq<Seq<char>>, label: Seq<char>, key: Seq<char>)
    ensures
        label_count(Seq::<Seq<char>>::empty(), key) == 0,
        label_count(labels.push(label), key) == label_count(labels, key) + (if label == key { 1nat } else { 0nat }),
        label_count(labels, key) <= labels.len(),
        labels.contains(key) <==> label_count(labels, key) > 0,
    decreases labels.len(),
{
    assert(labels.push(label).drop_last() =~= labels);
    lemma_label_count_contains(labels, key);
    if labels.len() > 0 {
        lemma_label_count_counts(labels.drop_last(), label, key);
    }
}

/// A label seen for the first time gets a group of its own, last in order
/// and with no members; every other group stays as it was. A label that has
/// a group already changes nothing.
pub proof fn lemma_new_label_group_is_empty(groups: Seq<(Seq<char>, Seq<usize>)>, label: Seq<char>)
    ensures
        has_label(groups, label) ==> groups_with_label(groups, label) == groups,
        !has_label(groups, label) ==> groups_with_label(groups, label).len() == groups.len() + 1,
        !has_label(groups, label) ==> groups_with_label(groups, label)[groups.len() as int].0 == label,
        !has_label(groups, label) ==> groups_with_label(groups, label)[groups.len() as int].1.len() == 0,
        forall|i: int| 0 <= i < groups.len() ==> #[trigger] groups_with_label(groups, label)[i] == groups[i],
{
}

/// Entering a group without a label, and leaving it, leave the active labels
/// as they are; entering a labelled group adds exactly its label, innermost,
/// and leaving it removes exactly the innermost label.
pub proof fn lemma_label_enter_leave(labels: Seq<Seq<char>>, label: Seq<char>)
    ensures
        labels_after_enter(labels, None) == labels,
        labels_after_leave(labels, false) == labels,
        labels_after_enter(labels, Some(label)).len() == labels.len() + 1,
        labels_after_enter(labels, Some(label)).last() == label,
        forall|k: int| 0 <= k < labels.len() ==> #[trigger] labels_after_enter(labels, Some(label))[k] == labels[k],
        labels.len() > 0 ==> labels_after_leave(labels, true).len() == labels.len() - 1,
        forall|k: int| 0 <= k < labels.len() - 1 ==> #[trigger] labels_after_leave(labels, true)[k] == labels[k],
{
}

/// Inserting shared data under an id: a stored id changes nothing; a new id
/// is appended last, after the ids kept in their places.
pub proof fn lemma_shared_insert_appends(ids: Seq<u128>, id: u128)
    ensures
        ids.contains(id) ==> ids_after_insert(ids, id) == ids,
        !ids.contains(id) ==> ids_after_insert(ids, id).len() == ids.len() + 1,
        !ids.contains(id) ==> ids_after_insert(ids, id)[ids.len() as int] == id,
        forall|k: int| 0 <= k < ids.len() ==> #[trigger] ids_after_insert(ids, id)[k] == ids[k],
{
}

} // verus!
