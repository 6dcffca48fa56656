use std::collections::BTreeMap;

use vstd::prelude::*;
use vstd::std_specs::iter::IteratorSpec;

use crate::changes::{
    changes_after_pop, changes_after_push, changes_after_touch, changes_consistent, entries_below,
    lemma_ascending_entries, lemma_ascending_slots_grow, lemma_increasing_slots, lemma_no_changes_no_ops,
    lemma_pending_ops_realize_data, lemma_removals_at_most_len, lemma_slots_are_ordered_keys,
    removal_count, replay_widget_ops, widget_ops, widgets_agree, ChangeType,
};

verus! {

/// The state of a [`FactoryVec`]: its elements, its widgets, and the pending
/// change of each slot.
struct Slots<Data> {
    data: Vec<Data>,
    widget_count: usize,
    changes: BTreeMap<usize, ChangeType>,
    shown: Ghost<Seq<Data>>,
}

impl<Data> View for Slots<Data> {
    type V = Seq<Data>;

    closed spec fn view(&self) -> Seq<Data> {
        self.data@
    }
}

impl<Data> Slots<Data> {
    /// The number of widgets that exist for this container.
    spec fn widget_count(&self) -> nat {
        self.widget_count as nat
    }

    /// The element value that each widget was built or last updated from.
    spec fn shown(&self) -> Seq<Data> {
        self.shown@
    }

    /// The pending change of each slot.
    spec fn changes(&self) -> Map<usize, ChangeType> {
        self.changes@
    }

    /// The widget operations that the next generation carries out.
    spec fn pending_ops(&self) -> Seq<(usize, ChangeType)> {
        let bound = if self@.len() < self.widget_count() { self.widget_count() } else { self@.len() };
        widget_ops(entries_below(self.changes(), bound))
    }

    /// The container's invariant.
    spec fn wf(&self) -> bool {
        &&& self@.len() <= usize::MAX
        &&& self.widget_count() <= usize::MAX
        &&& self.shown().len() == self.widget_count()
        &&& changes_consistent(self.changes(), self@.len(), self.widget_count())
        &&& widgets_agree(self.changes(), self@, self.shown())
    }

    /// No elements, no widgets, nothing pending.
    fn new() -> (res: Self)
        ensures
            res.wf(),
            res@ == Seq::<Data>::empty(),
            res.widget_count() == 0,
            res.shown() == Seq::<Data>::empty(),
            res.changes() == Map::<usize, ChangeType>::empty(),
    {
        Slots { data: Vec::new(), widget_count: 0, changes: BTreeMap::new(), shown: Ghost(Seq::empty()) }
    }

    /// Insert an element at the end of a [`FactoryVec`].
    fn push(&mut self, data: Data)
        requires
            old(self).wf(),
            old(self)@.len() < usize::MAX,
        ensures
            final(self).wf(),
            final(self)@ == old(self)@.push(data),
            final(self).widget_count() == old(self).widget_count(),
            final(self).shown() == old(self).shown(),
            final(self).changes() == changes_after_push(
                old(self).changes(),
                old(self)@.len(),
                old(self).widget_count(),
            ),
    {
        let index = self.data.len();
        self.data.push(data);

        let change = match self.changes.get(&index) {
            None => ChangeType::Add,
            Some(ChangeType::Remove) => ChangeType::Recreate,
            Some(_) => {
                assert(false);
                ChangeType::Recreate
            },
        };
        self.set_change(index, Some(change));
    }

    /// Remove an element at the end of a [`FactoryVec`].
    fn pop(&mut self) -> (res: Option<Data>)
        requires
            old(self).wf(),
        ensures
            final(self).wf(),
            final(self).widget_count() == old(self).widget_count(),
            final(self).shown() == old(self).shown(),
            old(self)@.len() == 0 ==> res is None && final(self)@ == old(self)@
                && final(self).changes() == old(self).changes(),
            old(self)@.len() > 0 ==> {
                &&& res == Some(old(self)@.last())
                &&& final(self)@ == old(self)@.drop_last()
                &&& final(self).changes() == changes_after_pop(
                    old(self).changes(),
                    (old(self)@.len() - 1) as nat,
                    old(self).widget_count(),
                )
            },
    {
        let data = match self.data.pop() {
            Some(data) => data,
            None => return None,
        };
        let index = self.data.len();

        let change = match self.changes.get(&index) {
            None | Some(ChangeType::Update) => Some(ChangeType::Remove),
            Some(ChangeType::Add) => None,
            Some(ChangeType::Recreate) => Some(ChangeType::Remove),
            Some(ChangeType::Remove) => {
                assert(false);
                None
            },
        };
        self.set_change(index, change);

        Some(data)
    }

    /// Initialize a new [`FactoryVec`] with a normal `Vec`.
    fn from_vec(data: Vec<Data>) -> (res: Self)
        ensures
            res.wf(),
            res@ == data@,
            res.widget_count() == 0,
            res.shown() == Seq::<Data>::empty(),
            res.changes() == Map::new(|i: usize| i < data@.len(), |i: usize| ChangeType::Add),
    {
        let length = data.len();
        let mut changes: BTreeMap<usize, ChangeType> = BTreeMap::new();
        let mut i: usize = 0;
        while i < length
            invariant
                i <= length,
                changes@ == Map::new(|k: usize| k < i, |k: usize| ChangeType::Add),
            decreases length - i,
        {
            changes.insert(i, ChangeType::Add);
            i = i + 1;
        }
        Slots { data, widget_count: 0, changes, shown: Ghost(Seq::empty()) }
    }

    /// Marks slot `index` for an update unless a change is already pending.
    fn touch(&mut self, index: usize)
        requires
            old(self).wf(),
            index < old(self)@.len(),
        ensures
            final(self).wf(),
            final(self)@ == old(self)@,
            final(self).widget_count() == old(self).widget_count(),
            final(self).shown() == old(self).shown(),
            final(self).changes() == changes_after_touch(old(self).changes(), index as nat),
    {
        if !self.changes.contains_key(&index) {
            self.changes.insert(index, ChangeType::Update);
        }
    }

    /// Hands out the widget operations that bring the widgets in line with
    /// the data, in the order in which they are to be carried out, and marks
    /// every change as done.
    ///
    /// Each operation names the place in the row of widgets that it acts on:
    /// the pending changes are taken in ascending slot order, and each removal
    /// lowers the place of the changes after it by one.
    fn generate(&mut self) -> (ops: Vec<(usize, ChangeType)>)
        requires
            old(self).wf(),
        ensures
            final(self).wf(),
            final(self)@ == old(self)@,
            final(self).widget_count() == old(self)@.len(),
            final(self).shown() == old(self)@,
            final(self).changes() == Map::<usize, ChangeType>::empty(),
            final(self).pending_ops() == Seq::<(usize, ChangeType)>::empty(),
            ops@ == old(self).pending_ops(),
    {
        let len = self.data.len();
        let ghost changes = self.changes@;
        let ghost bound = if self@.len() < self.widget_count() { self.widget_count() } else { self@.len() };
        let ghost entries = entries_below(changes, bound);
        proof {
            lemma_slots_are_ordered_keys();
        }
        let iter = self.changes.iter();
        proof {
            let v = iter.remaining();
            let keys = v.map_values(|kv: (&usize, &ChangeType)| *kv.0);
            lemma_increasing_slots(keys);
            let s = v.unref();
            assert forall|i: int, j: int| 0 <= i < j < s.len() implies s[i].0 < s[j].0 by {
                assert(keys[i] == s[i].0 && keys[j] == s[j].0);
            }
            assert forall|i: int| 0 <= i < s.len() implies #[trigger] changes.contains_key(s[i].0)
                && changes[s[i].0] == s[i].1 by {
                assert(changes.contains_key(*v[i].0));
            }
            assert forall|k: usize| #[trigger] changes.contains_key(k) implies s.contains((k, changes[k])) by {
                assert(v.contains((&k, &changes[k])));
                let i = choose|i: int| 0 <= i < v.len() && v[i] == (&k, &changes[k]);
                assert(s[i] == (k, changes[k]));
            }
            assert(forall|k: usize| #[trigger] changes.contains_key(k) ==> k < bound);
            lemma_ascending_entries(s, changes, bound);
            lemma_ascending_slots_grow(s);
            assert forall|i: int| 0 <= i < entries.len() implies i <= #[trigger] entries[i].0 < bound by {
                assert(changes.contains_key(s[i].0));
            }
        }

        let mut ops: Vec<(usize, ChangeType)> = Vec::new();
        // Compensate for removals changing the widgets under us.
        let mut neg_index_adjustment: usize = 0;

        // Iterate from smallest to biggest index.
        for entry in it: iter
            invariant
                it.seq().unref() == entries,
                ops@ == widget_ops(entries.take(it.index())),
                neg_index_adjustment == removal_count(entries.take(it.index())),
                bound <= usize::MAX,
                forall|i: int| 0 <= i < entries.len() ==> i <= #[trigger] entries[i].0 < bound,
        {
            let (index, change) = entry;
            let ghost taken = entries.take(it.index());
            assert(entries.take(it.index() + 1).drop_last() =~= taken);
            proof {
                lemma_removals_at_most_len(taken);
                assert(entries[it.index()].0 == *index);
            }
            let index = *index - neg_index_adjustment;
            ops.push((index, *change));
            if let ChangeType::Remove = change {
                neg_index_adjustment += 1;
            }
        }
        assert(entries.take(entries.len() as int) =~= entries);

        self.changes.clear();
        self.widget_count = len;
        self.shown = Ghost(self.data@);
        proof {
            lemma_no_changes_no_ops(len as nat);
        }
        ops
    }

    /// Sets the change to be performed for a given index, None for reset.
    fn set_change(&mut self, index: usize, change: Option<ChangeType>)
        ensures
            final(self)@ == old(self)@,
            final(self).widget_count() == old(self).widget_count(),
            final(self).shown() == old(self).shown(),
            final(self).changes() == match change {
                Some(c) => old(self).changes().insert(index, c),
                None => old(self).changes().remove(index),
            },
    {
        if let Some(change) = change {
            self.changes.insert(index, change);
        } else {
            self.changes.remove(&index);
        }
    }
}

/// A container similar to `Vec` that records the widget changes its
/// operations call for.
pub struct FactoryVec<Data> {
    slots: Slots<Data>,
}

impl<Data> View for FactoryVec<Data> {
    type V = Seq<Data>;

    closed spec fn view(&self) -> Seq<Data> {
        self.slots@
    }
}

impl<Data> FactoryVec<Data> {
    /// The number of widgets that exist for this container.
    pub closed spec fn widget_count(&self) -> nat {
        self.slots.widget_count()
    }

    /// The element value that each widget was built or last updated from.
    pub closed spec fn shown(&self) -> Seq<Data> {
        self.slots.shown()
    }

    /// The pending change of each slot.
    pub closed spec fn changes(&self) -> Map<usize, ChangeType> {
        self.slots.changes()
    }

    /// The widget operations that the next generation carries out.
    pub open spec fn pending_ops(&self) -> Seq<(usize, ChangeType)> {
        let bound = if self@.len() < self.widget_count() { self.widget_count() } else { self@.len() };
        widget_ops(entries_below(self.changes(), bound))
    }

    /// The container's invariant: the pending changes are consistent with the
    /// elements and the widgets, and every widget without a pending change
    /// shows its element's current value.
    pub open spec fn wf(&self) -> bool {
        &&& self@.len() <= usize::MAX
        &&& self.widget_count() <= usize::MAX
        &&& self.shown().len() == self.widget_count()
        &&& changes_consistent(self.changes(), self@.len(), self.widget_count())
        &&& widgets_agree(self.changes(), self@, self.shown())
    }

    /// Every container keeps its invariant.
    #[verifier::type_invariant]
    spec fn slots_wf(self) -> bool {
        self.slots.wf()
    }

    /// Carrying out the pending widget operations on the existing widgets
    /// never reaches past the widgets or the data, and leaves exactly one
    /// widget per element, the widget at place `i` showing the current value
    /// of element `i`.
    pub proof fn lemma_generate_realizes_data(&self)
        requires
            self.wf(),
        ensures
            replay_widget_ops(self.shown(), self.pending_ops(), self@) == Some(self@),
    {
        lemma_pending_ops_realize_data(self.changes(), self@, self.shown());
    }

    /// Takes the state out, leaving an empty one behind.
    fn take_slots(&mut self) -> (res: Slots<Data>)
        ensures
            res == old(self).slots,
            res.wf(),
    {
        proof {
            use_type_invariant(&*self);
        }
        let mut slots = Slots::new();
        std::mem::swap(&mut slots, &mut self.slots);
        slots
    }

    /// Create a new [`FactoryVec`].
    pub fn new() -> (res: Self)
        ensures
            res.wf(),
            res@ == Seq::<Data>::empty(),
            res.widget_count() == 0,
            res.shown() == Seq::<Data>::empty(),
            res.changes() == Map::<usize, ChangeType>::empty(),
    {
        FactoryVec { slots: Slots::new() }
    }

    /// Initialize a new [`FactoryVec`] with a normal `Vec`.
    pub fn from_vec(data: Vec<Data>) -> (res: Self)
        ensures
            res.wf(),
            res@ == data@,
            res.widget_count() == 0,
            res.shown() == Seq::<Data>::empty(),
            res.changes() == Map::new(|i: usize| i < data@.len(), |i: usize| ChangeType::Add),
    {
        FactoryVec { slots: Slots::from_vec(data) }
    }

    /// Get a slice of the internal data of a [`FactoryVec`].
    pub fn as_slice(&self) -> (res: &[Data])
        ensures
            res@ == self@,
    {
        self.slots.data.as_slice()
    }

    /// Get the internal data of the [`FactoryVec`].
    pub fn into_vec(self) -> (res: Vec<Data>)
        ensures
            res@ == self@,
    {
        self.slots.data
    }

    /// Remove all data from the [`FactoryVec`].
    pub fn clear(&mut self)
        ensures
            final(self).wf(),
            final(self)@ == Seq::<Data>::empty(),
            final(self).widget_count() == old(self).widget_count(),
            final(self).shown() == old(self).shown(),
            final(self).changes() == Map::new(
                |i: usize| i < old(self).widget_count(),
                |i: usize| ChangeType::Remove,
            ),
    {
        proof {
            use_type_invariant(&*self);
        }
        while self.pop().is_some()
            invariant
                self.wf(),
                self.widget_count() == old(self).widget_count(),
                self.shown() == old(self).shown(),
            decreases self@.len(),
        {
        }
        proof {
            assert(self.changes() =~= Map::new(
                |i: usize| i < old(self).widget_count(),
                |i: usize| ChangeType::Remove,
            ));
        }
    }

    /// Returns the length as amount of elements stored in this type.
    pub fn len(&self) -> (res: usize)
        ensures
            res == self@.len(),
    {
        self.slots.data.len()
    }

    /// Returns the number of widgets that exist for the elements.
    pub fn realized_len(&self) -> (res: usize)
        ensures
            res == self.widget_count(),
    {
        self.slots.widget_count
    }

    /// Returns `true` if the length of this type is `0`.
    pub fn is_empty(&self) -> (res: bool)
        ensures
            res == (self@.len() == 0),
    {
        self.slots.data.is_empty()
    }

    /// Insert an element at the end of a [`FactoryVec`].
    pub fn push(&mut self, data: Data)
        requires
            old(self)@.len() < usize::MAX,
        ensures
            final(self).wf(),
            final(self)@ == old(self)@.push(data),
            final(self).widget_count() == old(self).widget_count(),
            final(self).shown() == old(self).shown(),
            final(self).changes() == changes_after_push(
                old(self).changes(),
                old(self)@.len(),
                old(self).widget_count(),
            ),
    {
        let mut slots = self.take_slots();
        slots.push(data);
        self.slots = slots;
    }

    /// Remove an element at the end of a [`FactoryVec`].
    pub fn pop(&mut self) -> (res: Option<Data>)
        ensures
            final(self).wf(),
            final(self).widget_count() == old(self).widget_count(),
            final(self).shown() == old(self).shown(),
            old(self)@.len() == 0 ==> res is None && final(self)@ == old(self)@
                && final(self).changes() == old(self).changes(),
            old(self)@.len() > 0 ==> {
                &&& res == Some(old(self)@.last())
                &&& final(self)@ == old(self)@.drop_last()
                &&& final(self).changes() == changes_after_pop(
                    old(self).changes(),
                    (old(self)@.len() - 1) as nat,
                    old(self).widget_count(),
                )
            },
    {
        let mut slots = self.take_slots();
        let res = slots.pop();
        self.slots = slots;
        res
    }

    /// Get a reference to data stored at `index`.
    pub fn get(&self, index: usize) -> (res: Option<&Data>)
        ensures
            index < self@.len() ==> res == Some(&self@[index as int]),
            index >= self@.len() ==> res is None,
    {
        self.slots.data.as_slice().get(index)
    }

    /// Get a mutable reference to data stored at `index`.
    ///
    /// Assumes that the data will be modified and the corresponding widget
    /// needs to be updated.
    pub fn get_mut(&mut self, index: usize) -> (res: Option<&mut Data>)
        ensures
            final(self).wf(),
            final(self).widget_count() == old(self).widget_count(),
            final(self).shown() == old(self).shown(),
            index >= old(self)@.len() ==> res is None && final(self)@ == old(self)@
                && final(self).changes() == old(self).changes(),
            index < old(self)@.len() ==> {
                &&& res is Some
                &&& *res.unwrap() == old(self)@[index as int]
                &&& final(self)@ == old(self)@.update(index as int, *final(res.unwrap()))
                &&& final(self).changes() == changes_after_touch(old(self).changes(), index as nat)
            },
    {
        if index >= self.slots.data.len() {
            proof {
                use_type_invariant(&*self);
            }
            return None;
        }
        let mut slots = self.take_slots();
        slots.touch(index);
        self.slots = slots;
        Some(&mut self.slots.data[index])
    }

    /// Get an immutable iterator for this type.
    pub fn iter(&self) -> (res: std::slice::Iter<'_, Data>)
        ensures
            res.remaining() == self@.as_ref(),
    {
        self.slots.data.as_slice().iter()
    }

    /// Hands out the widget operations that bring the widgets in line with
    /// the data, in the order in which they are to be carried out, and marks
    /// every change as done.
    ///
    /// Each operation names the place in the row of widgets that it acts on:
    /// the pending changes are taken in ascending slot order, and each removal
    /// lowers the place of the changes after it by one.
    pub fn generate(&mut self) -> (ops: Vec<(usize, ChangeType)>)
        ensures
            final(self).wf(),
            final(self)@ == old(self)@,
            final(self).widget_count() == old(self)@.len(),
            final(self).shown() == old(self)@,
            final(self).changes() == Map::<usize, ChangeType>::empty(),
            final(self).pending_ops() == Seq::<(usize, ChangeType)>::empty(),
            ops@ == old(self).pending_ops(),
    {
        let mut slots = self.take_slots();
        let ops = slots.generate();
        self.slots = slots;
        ops
    }
}

impl<Data> Default for FactoryVec<Data> {
    fn default() -> (res: Self)
        ensures
            res.wf(),
            res@ == Seq::<Data>::empty(),
            res.widget_count() == 0,
            res.shown() == Seq::<Data>::empty(),
            res.changes() == Map::<usize, ChangeType>::empty(),
    {
        FactoryVec::new()
    }
}

} // verus!
