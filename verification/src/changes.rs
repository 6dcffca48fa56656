use vstd::prelude::*;
use vstd::std_specs::btree::{increasing_seq, key_obeys_cmp_spec};
use vstd::laws_cmp::obeys_cmp;
use vstd::std_specs::cmp::OrdSpec;

verus! {

/// What has to happen to the widget of one slot at the next generation.
#[derive(Debug, Clone, Copy, PartialEq, Eq, Structural)]
pub enum ChangeType {
    /// A widget is to be added for this slot.
    Add,
    /// The widget of this slot is to be removed.
    Remove,
    /// A new widget replaces the current one of this slot.
    Recreate,
    /// The widget of this slot is to be updated from its data.
    Update,
}

/// The pending changes are consistent with `len` data elements and
/// `widgets` realized widgets.
///
/// Slot `i` is in one of five states: backed by data or not (`i < len`),
/// with a widget or not (`i < widgets`). A slot with data but no widget is
/// always marked `Add`, a slot with a widget but no data always `Remove`;
/// `Update` and `Recreate` only mark slots that have both; a slot with
/// neither carries no mark.
pub open spec fn changes_consistent(changes: Map<usize, ChangeType>, len: nat, widgets: nat) -> bool {
    &&& forall|i: usize| #[trigger]
        changes.contains_key(i) ==> match changes[i] {
            ChangeType::Add => widgets <= i < len,
            ChangeType::Remove => len <= i < widgets,
            ChangeType::Recreate | ChangeType::Update => i < len && i < widgets,
        }
    &&& forall|i: usize| widgets <= i < len ==> #[trigger] changes.contains_key(i)
    &&& forall|i: usize| len <= i < widgets ==> #[trigger] changes.contains_key(i)
}

/// The pending changes after an element is appended at slot `len`.
pub open spec fn changes_after_push(changes: Map<usize, ChangeType>, len: nat, widgets: nat) -> Map<usize, ChangeType> {
    changes.insert(len as usize, if len < widgets { ChangeType::Recreate } else { ChangeType::Add })
}

/// The pending changes after the element at slot `slot`, the last one, is removed.
pub open spec fn changes_after_pop(changes: Map<usize, ChangeType>, slot: nat, widgets: nat) -> Map<usize, ChangeType> {
    if slot < widgets {
        changes.insert(slot as usize, ChangeType::Remove)
    } else {
        changes.remove(slot as usize)
    }
}

/// The pending changes after the data of slot `slot` is handed out for
/// modification: the slot is marked for an update unless a change is
/// already pending for it.
pub open spec fn changes_after_touch(changes: Map<usize, ChangeType>, slot: nat) -> Map<usize, ChangeType> {
    if changes.contains_key(slot as usize) {
        changes
    } else {
        changes.insert(slot as usize, ChangeType::Update)
    }
}

/// The pending changes with a slot below `bound`, in ascending slot order.
pub open spec fn entries_below(changes: Map<usize, ChangeType>, bound: nat) -> Seq<(usize, ChangeType)>
    decreases bound,
{
    if bound == 0 {
        Seq::empty()
    } else {
        let slot = (bound - 1) as usize;
        let earlier = entries_below(changes, (bound - 1) as nat);
        if changes.contains_key(slot) {
            earlier.push((slot, changes[slot]))
        } else {
            earlier
        }
    }
}

/// The number of removals among `entries`.
pub open spec fn removal_count(entries: Seq<(usize, ChangeType)>) -> nat
    decreases entries.len(),
{
    if entries.len() == 0 {
        0
    } else {
        removal_count(entries.drop_last()) + if entries.last().1 == ChangeType::Remove {
            1nat
        } else {
            0nat
        }
    }
}

/// The widget operations that carry out `entries` in order. Each removal
/// shifts every later widget down by one place, so each slot is lowered by
/// the number of removals that come before it.
pub open spec fn widget_ops(entries: Seq<(usize, ChangeType)>) -> Seq<(usize, ChangeType)>
    decreases entries.len(),
{
    if entries.len() == 0 {
        Seq::empty()
    } else {
        let earlier = entries.drop_last();
        let (slot, change) = entries.last();
        widget_ops(earlier).push(((slot - removal_count(earlier)) as usize, change))
    }
}

/// Pending changes leave alone only widgets that show their element: every
/// slot with both data and a widget, and no pending change, has a widget
/// built or last updated from the element's current value.
pub open spec fn widgets_agree<D>(changes: Map<usize, ChangeType>, data: Seq<D>, shown: Seq<D>) -> bool {
    forall|i: usize|
        i < data.len() && i < shown.len() && !#[trigger] changes.contains_key(i) ==> shown[i as int]
            == data[i as int]
}

/// One widget operation carried out on a row of widgets, each given by the
/// element value it shows, while the elements are `data`. Adding, recreating
/// or updating a widget makes it show the element's value. `None` when the
/// operation would reach past the widgets or the data.
pub open spec fn apply_widget_op<D>(row: Seq<D>, op: (usize, ChangeType), data: Seq<D>) -> Option<Seq<D>> {
    let (at, change) = op;
    match change {
        ChangeType::Add => if at < data.len() {
            Some(row.push(data[at as int]))
        } else {
            None
        },
        ChangeType::Update | ChangeType::Recreate => if at < data.len() && at < row.len() {
            Some(row.update(at as int, data[at as int]))
        } else {
            None
        },
        ChangeType::Remove => if at < row.len() {
            Some(row.remove(at as int))
        } else {
            None
        },
    }
}

/// The widget operations `ops` carried out in order, see [`apply_widget_op`].
pub open spec fn replay_widget_ops<D>(row: Seq<D>, ops: Seq<(usize, ChangeType)>, data: Seq<D>) -> Option<Seq<D>>
    decreases ops.len(),
{
    if ops.len() == 0 {
        Some(row)
    } else {
        match replay_widget_ops(row, ops.drop_last(), data) {
            Some(earlier) => apply_widget_op(earlier, ops.last(), data),
            None => None,
        }
    }
}

/// The row of widgets after the pending changes of the slots below `bound`
/// have been carried out on `shown`.
spec fn row_after<D>(data: Seq<D>, shown: Seq<D>, bound: nat) -> Seq<D> {
    if data.len() < shown.len() {
        let removed = if bound <= data.len() { 0 } else { bound - data.len() };
        Seq::new(
            (shown.len() - removed) as nat,
            |i: int| if i < bound && i < data.len() { data[i] } else { shown[i + removed] },
        )
    } else if bound <= shown.len() {
        Seq::new(shown.len(), |i: int| if i < bound { data[i] } else { shown[i] })
    } else {
        data.take(bound as int)
    }
}

proof fn lemma_replay_prefix<D>(changes: Map<usize, ChangeType>, data: Seq<D>, shown: Seq<D>, bound: nat)
    requires
        changes_consistent(changes, data.len(), shown.len()),
        widgets_agree(changes, data, shown),
        bound <= data.len() || bound <= shown.len(),
        data.len() <= usize::MAX,
        shown.len() <= usize::MAX,
    ensures
        replay_widget_ops(shown, widget_ops(entries_below(changes, bound)), data)
            == Some(row_after(data, shown, bound)),
        removal_count(entries_below(changes, bound)) == if data.len() < shown.len() && data.len() < bound {
            (bound - data.len()) as nat
        } else {
            0
        },
    decreases bound,
{
    let len = data.len();
    let widgets = shown.len();
    if bound == 0 {
        assert(row_after(data, shown, 0) =~= shown);
    } else {
        let b = (bound - 1) as nat;
        lemma_replay_prefix(changes, data, shown, b);
        let slot = b as usize;
        let earlier = entries_below(changes, b);
        let entries = entries_below(changes, bound);
        let row = row_after(data, shown, b);
        if changes.contains_key(slot) {
            assert(entries.drop_last() =~= earlier);
            assert(widget_ops(entries).drop_last() =~= widget_ops(earlier));
            let op = widget_ops(entries).last();
            match changes[slot] {
                ChangeType::Add => {
                    assert(row.push(data[b as int]) =~= row_after(data, shown, bound));
                },
                ChangeType::Remove => {
                    assert(op.0 == len);
                    assert(row.remove(len as int) =~= row_after(data, shown, bound));
                },
                _ => {
                    assert(row.update(b as int, data[b as int]) =~= row_after(data, shown, bound));
                },
            }
        } else {
            assert(entries == earlier);
            assert(b < len && b < widgets);
            assert(shown[b as int] == data[b as int]);
            assert(row =~= row_after(data, shown, bound));
        }
    }
}

proof fn lemma_entries_below_holds(changes: Map<usize, ChangeType>, bound: nat, slot: usize)
    requires
        changes.contains_key(slot),
        slot < bound,
    ensures
        entries_below(changes, bound).contains((slot, changes[slot])),
    decreases bound,
{
    let b = (bound - 1) as nat;
    let earlier = entries_below(changes, b);
    if slot == b {
        assert(entries_below(changes, bound).last() == (slot, changes[slot]));
    } else {
        lemma_entries_below_holds(changes, b, slot);
        let i = choose|i: int| 0 <= i < earlier.len() && earlier[i] == (slot, changes[slot]);
        if changes.contains_key(b as usize) {
            assert(entries_below(changes, bound)[i] == (slot, changes[slot]));
        }
    }
}

/// Without pending changes there is nothing to carry out.
pub proof fn lemma_no_changes_no_ops(bound: nat)
    ensures
        widget_ops(entries_below(Map::<usize, ChangeType>::empty(), bound)) == Seq::<(usize, ChangeType)>::empty(),
    decreases bound,
{
    if bound > 0 {
        lemma_no_changes_no_ops((bound - 1) as nat);
    }
}

proof fn lemma_entries_below_remove(changes: Map<usize, ChangeType>, slot: usize, bound: nat)
    requires
        bound <= slot,
    ensures
        entries_below(changes.remove(slot), bound) == entries_below(changes, bound),
    decreases bound,
{
    if bound > 0 {
        lemma_entries_below_remove(changes, slot, (bound - 1) as nat);
    }
}

/// A sequence of entries of `changes` that holds each entry once, in
/// ascending slot order, is the list of entries below any bound of the slots.
pub(crate) proof fn lemma_ascending_entries(s: Seq<(usize, ChangeType)>, changes: Map<usize, ChangeType>, bound: nat)
    requires
        bound <= usize::MAX,
        forall|i: int, j: int| 0 <= i < j < s.len() ==> s[i].0 < s[j].0,
        forall|i: int| 0 <= i < s.len() ==> #[trigger] changes.contains_key(s[i].0) && changes[s[i].0] == s[i].1,
        forall|k: usize| #[trigger] changes.contains_key(k) ==> s.contains((k, changes[k])),
        forall|k: usize| #[trigger] changes.contains_key(k) ==> k < bound,
    ensures
        s == entries_below(changes, bound),
    decreases bound,
{
    if bound == 0 {
        if s.len() > 0 {
            assert(changes.contains_key(s[0].0));
        }
        assert(s =~= Seq::empty());
    } else {
        let b = (bound - 1) as nat;
        let slot = b as usize;
        if changes.contains_key(slot) {
            assert(s.contains((slot, changes[slot])));
            let j = choose|j: int| 0 <= j < s.len() && s[j] == (slot, changes[slot]);
            let last = s.len() - 1;
            if j < last {
                assert(s[j].0 < s[last].0);
                assert(changes.contains_key(s[last].0));
            }
            let rest = s.drop_last();
            let smaller = changes.remove(slot);
            assert forall|k: usize| #[trigger] smaller.contains_key(k) implies rest.contains((k, smaller[k])) by {
                assert(s.contains((k, changes[k])));
                let i = choose|i: int| 0 <= i < s.len() && s[i] == (k, changes[k]);
                assert(i != last);
                assert(rest[i] == (k, smaller[k]));
            }
            assert forall|i: int, j: int| 0 <= i < j < rest.len() implies rest[i].0 < rest[j].0 by {
                assert(s[i].0 < s[j].0);
            }
            assert forall|i: int| 0 <= i < rest.len() implies #[trigger] smaller.contains_key(rest[i].0)
                && smaller[rest[i].0] == rest[i].1 by {
                assert(s[i].0 < s[last].0);
                assert(changes.contains_key(s[i].0));
            }
            assert forall|k: usize| #[trigger] smaller.contains_key(k) implies k < b by {
                assert(changes.contains_key(k));
            }
            lemma_ascending_entries(rest, smaller, b);
            lemma_entries_below_remove(changes, slot, b);
            assert(s =~= rest.push((slot, changes[slot])));
        } else {
            assert forall|k: usize| #[trigger] changes.contains_key(k) implies k < b by {
                assert(k < bound);
            }
            lemma_ascending_entries(s, changes, b);
        }
    }
}

/// In a sequence of entries in strictly ascending slot order, the entry at
/// place `i` has a slot of at least `i`.
pub(crate) proof fn lemma_ascending_slots_grow(s: Seq<(usize, ChangeType)>)
    requires
        forall|i: int, j: int| 0 <= i < j < s.len() ==> s[i].0 < s[j].0,
    ensures
        forall|i: int| 0 <= i < s.len() ==> i <= s[i].0,
    decreases s.len(),
{
    if s.len() > 0 {
        let rest = s.drop_last();
        lemma_ascending_slots_grow(rest);
        assert forall|i: int| 0 <= i < s.len() implies i <= s[i].0 by {
            if i > 0 && i == s.len() - 1 {
                assert(rest[i - 1] == s[i - 1]);
                assert(s[i - 1].0 < s[i].0);
            } else if i < s.len() - 1 {
                assert(rest[i] == s[i]);
            }
        }
    }
}

pub(crate) proof fn lemma_removals_at_most_len(entries: Seq<(usize, ChangeType)>)
    ensures
        removal_count(entries) <= entries.len(),
    decreases entries.len(),
{
    if entries.len() > 0 {
        lemma_removals_at_most_len(entries.drop_last());
    }
}

/// Slots are ordered keys, so a map keyed by slot is walked in slot order.
pub(crate) proof fn lemma_slots_are_ordered_keys()
    ensures
        key_obeys_cmp_spec::<usize>(),
{
}

pub(crate) proof fn lemma_increasing_slots(keys: Seq<usize>)
    requires
        increasing_seq(keys),
    ensures
        forall|i: int, j: int| 0 <= i < j < keys.len() ==> keys[i] < keys[j],
{
    assert(obeys_cmp::<usize>());
    assert forall|i: int, j: int| 0 <= i < j < keys.len() implies keys[i] < keys[j] by {
        assert(keys[i].cmp_spec(&keys[j]) is Less);
    }
}

/// Carrying out the widget operations of any consistent state on its
/// widgets never reaches past the widgets or the data, and leaves exactly one
/// widget per element, the widget at place `i` showing the current value of
/// element `i`.
pub proof fn lemma_pending_ops_realize_data<D>(changes: Map<usize, ChangeType>, data: Seq<D>, shown: Seq<D>)
    requires
        changes_consistent(changes, data.len(), shown.len()),
        widgets_agree(changes, data, shown),
        data.len() <= usize::MAX,
        shown.len() <= usize::MAX,
    ensures
        replay_widget_ops(
            shown,
            widget_ops(entries_below(changes, if data.len() < shown.len() { shown.len() } else { data.len() })),
            data,
        ) == Some(data),
{
    let bound = if data.len() < shown.len() { shown.len() } else { data.len() };
    lemma_replay_prefix(changes, data, shown, bound);
    assert(row_after(data, shown, bound) =~= data);
}

/// Popping right after a push gives back the pushed element and restores the
/// pending changes: `NoneO ⇄ Add` and `Remove ⇄ Recreate`.
pub proof fn lemma_pop_undoes_push(changes: Map<usize, ChangeType>, len: nat, widgets: nat)
    requires
        changes_consistent(changes, len, widgets),
        len <= usize::MAX,
    ensures
        changes_after_pop(changes_after_push(changes, len, widgets), len, widgets) == changes,
{
    let pushed = changes_after_push(changes, len, widgets);
    let popped = changes_after_pop(pushed, len, widgets);
    if len < widgets {
        assert(changes.contains_key(len as usize));
    } else {
        assert(!changes.contains_key(len as usize));
    }
    assert(popped =~= changes);
}

/// Every pending change is carried out by the next generation, once, in
/// ascending slot order.
pub proof fn lemma_every_change_carried_out(changes: Map<usize, ChangeType>, len: nat, widgets: nat, slot: usize)
    requires
        changes_consistent(changes, len, widgets),
        changes.contains_key(slot),
    ensures
        entries_below(changes, if len < widgets { widgets } else { len }).contains((slot, changes[slot])),
{
    let bound = if len < widgets { widgets } else { len };
    lemma_entries_below_holds(changes, bound, slot);
}

/// Data handed out for modification gets its widget refreshed at the next
/// generation: its slot then carries a change that builds or updates the
/// widget, never one that removes it.
pub proof fn lemma_touched_slot_is_refreshed(changes: Map<usize, ChangeType>, len: nat, widgets: nat, slot: usize)
    requires
        changes_consistent(changes, len, widgets),
        slot < len,
    ensures
        changes_consistent(changes_after_touch(changes, slot as nat), len, widgets),
        changes_after_touch(changes, slot as nat).contains_key(slot),
        changes_after_touch(changes, slot as nat)[slot] != ChangeType::Remove,
        entries_below(
            changes_after_touch(changes, slot as nat),
            if len < widgets { widgets } else { len },
        ).contains((slot, changes_after_touch(changes, slot as nat)[slot])),
{
    let touched = changes_after_touch(changes, slot as nat);
    lemma_entries_below_holds(touched, if len < widgets { widgets } else { len }, slot);
}

/// The pending changes after `count` elements are pushed, one after another,
/// onto `len` elements with `widgets` widgets.
pub open spec fn changes_after_pushes(changes: Map<usize, ChangeType>, len: nat, widgets: nat, count: nat) -> Map<usize, ChangeType>
    decreases count,
{
    if count == 0 {
        changes
    } else {
        changes_after_push(
            changes_after_pushes(changes, len, widgets, (count - 1) as nat),
            (len + count - 1) as nat,
            widgets,
        )
    }
}

/// Building a container from `count` elements gives the pending changes of
/// pushing them one by one onto a new, empty container: every slot is marked
/// for adding.
pub proof fn lemma_from_vec_is_pushes(count: nat)
    requires
        count <= usize::MAX,
    ensures
        changes_after_pushes(Map::<usize, ChangeType>::empty(), 0, 0, count) == Map::new(
            |i: usize| i < count,
            |i: usize| ChangeType::Add,
        ),
    decreases count,
{
    if count > 0 {
        lemma_from_vec_is_pushes((count - 1) as nat);
        assert(changes_after_pushes(Map::<usize, ChangeType>::empty(), 0, 0, count) =~= Map::new(
            |i: usize| i < count,
            |i: usize| ChangeType::Add,
        ));
    } else {
        assert(Map::<usize, ChangeType>::empty() =~= Map::new(|i: usize| i < count, |i: usize| ChangeType::Add));
    }
}

/// Pushing marks the new slot and leaves every other slot's pending change as
/// it was: a slot whose widget is pending removal gets a new widget
/// (`Remove` becomes `Recreate`), a slot without a widget is marked for adding.
pub proof fn lemma_push_marks_new_slot(changes: Map<usize, ChangeType>, len: nat, widgets: nat)
    requires
        changes_consistent(changes, len, widgets),
        len <= usize::MAX,
    ensures
        ({
            let after = changes_after_push(changes, len, widgets);
            let slot = len as usize;
            &&& after.contains_key(slot)
            &&& changes.contains_key(slot) ==> changes[slot] == ChangeType::Remove
                && after[slot] == ChangeType::Recreate
            &&& !changes.contains_key(slot) ==> after[slot] == ChangeType::Add
            &&& forall|j: usize| j != slot ==> (#[trigger] after.contains_key(j) <==> changes.contains_key(j))
                && (changes.contains_key(j) ==> after[j] == changes[j])
        }),
{
    if len < widgets {
        assert(changes.contains_key(len as usize));
    } else {
        assert(!changes.contains_key(len as usize));
    }
}

/// Popping changes the pending change of the popped slot only: a slot only
/// marked for adding loses its mark, any other slot is marked for removal.
pub proof fn lemma_pop_marks_popped_slot(changes: Map<usize, ChangeType>, len: nat, widgets: nat)
    requires
        changes_consistent(changes, len, widgets),
        0 < len <= usize::MAX,
    ensures
        ({
            let slot = (len - 1) as usize;
            let after = changes_after_pop(changes, (len - 1) as nat, widgets);
            &&& changes.contains_key(slot) && changes[slot] == ChangeType::Add ==> !after.contains_key(slot)
            &&& !(changes.contains_key(slot) && changes[slot] == ChangeType::Add) ==> after.contains_key(slot)
                && after[slot] == ChangeType::Remove
            &&& forall|j: usize| j != slot ==> (#[trigger] after.contains_key(j) <==> changes.contains_key(j))
                && (changes.contains_key(j) ==> after[j] == changes[j])
        }),
{
    let slot = (len - 1) as usize;
    if changes.contains_key(slot) {
        assert(changes[slot] == ChangeType::Add <==> slot >= widgets);
    } else {
        assert(slot < widgets);
    }
}

/// Handing out an element for modification keeps a change already pending
/// for its slot as it is, and marks a slot without one for an update.
pub proof fn lemma_touch_keeps_pending_change(changes: Map<usize, ChangeType>, slot: usize)
    ensures
        changes.contains_key(slot) ==> changes_after_touch(changes, slot as nat) == changes,
        !changes.contains_key(slot) ==> changes_after_touch(changes, slot as nat) == changes.insert(
            slot,
            ChangeType::Update,
        ),
{
}

/// The pending changes below `bound`, in strictly ascending slot order, each
/// as it is pending.
proof fn lemma_entries_below_ascending(changes: Map<usize, ChangeType>, bound: nat)
    requires
        bound <= usize::MAX + 1,
    ensures
        forall|i: int, j: int| 0 <= i < j < entries_below(changes, bound).len()
            ==> entries_below(changes, bound)[i].0 < entries_below(changes, bound)[j].0,
        forall|i: int| 0 <= i < entries_below(changes, bound).len() ==> {
            let (slot, change) = #[trigger] entries_below(changes, bound)[i];
            &&& slot < bound
            &&& changes.contains_key(slot)
            &&& changes[slot] == change
        },
    decreases bound,
{
    if bound > 0 {
        let b = (bound - 1) as nat;
        lemma_entries_below_ascending(changes, b);
        let earlier = entries_below(changes, b);
        let entries = entries_below(changes, bound);
        if changes.contains_key(b as usize) {
            assert forall|i: int| 0 <= i < entries.len() implies {
                let (slot, change) = #[trigger] entries[i];
                &&& slot < bound
                &&& changes.contains_key(slot)
                &&& changes[slot] == change
            } by {
                if i < earlier.len() {
                    assert(entries[i] == earlier[i]);
                }
            }
            assert forall|i: int, j: int| 0 <= i < j < entries.len() implies entries[i].0 < entries[j].0 by {
                assert(entries[i] == earlier[i]);
                if j < earlier.len() {
                    assert(entries[j] == earlier[j]);
                }
            }
        }
    }
}

/// Each widget operation of `entries` is its entry's change at its entry's
/// slot, lowered by the removals among the entries before it.
proof fn lemma_widget_ops_index(entries: Seq<(usize, ChangeType)>)
    ensures
        widget_ops(entries).len() == entries.len(),
        forall|i: int| 0 <= i < entries.len() ==> #[trigger] widget_ops(entries)[i] == (
            (entries[i].0 - removal_count(entries.take(i))) as usize,
            entries[i].1,
        ),
    decreases entries.len(),
{
    if entries.len() > 0 {
        let earlier = entries.drop_last();
        lemma_widget_ops_index(earlier);
        assert forall|i: int| 0 <= i < entries.len() implies #[trigger] widget_ops(entries)[i] == (
            (entries[i].0 - removal_count(entries.take(i))) as usize,
            entries[i].1,
        ) by {
            if i < earlier.len() {
                assert(earlier[i] == entries[i]);
                assert(earlier.take(i) =~= entries.take(i));
            } else {
                assert(earlier =~= entries.take(i));
            }
        }
    }
}

/// The number of removals among the operations `ops`.
pub open spec fn removals_among(ops: Seq<(usize, ChangeType)>) -> nat {
    ops.filter(|op: (usize, ChangeType)| op.1 == ChangeType::Remove).len()
}

/// The removals among `entries`, counted by the changes of `ops`, which carry
/// the same changes one for one.
proof fn lemma_removals_filtered(ops: Seq<(usize, ChangeType)>, entries: Seq<(usize, ChangeType)>)
    requires
        ops.len() == entries.len(),
        forall|i: int| 0 <= i < ops.len() ==> #[trigger] ops[i].1 == entries[i].1,
    ensures
        removals_among(ops) == removal_count(entries),
    decreases ops.len(),
{
    reveal(Seq::filter);
    if ops.len() > 0 {
        lemma_removals_filtered(ops.drop_last(), entries.drop_last());
    }
}

/// The next generation hands out every pending change once, as itself, in
/// ascending slot order: the `i`-th operation carries the change pending at
/// the `i`-th changed slot, at the place of that slot lowered by the removals
/// handed out before it.
pub proof fn lemma_ops_carry_out_changes(changes: Map<usize, ChangeType>, len: nat, widgets: nat, bound: nat)
    requires
        changes_consistent(changes, len, widgets),
        len <= usize::MAX,
        widgets <= usize::MAX,
        bound == if len < widgets { widgets } else { len },
    ensures
        widget_ops(entries_below(changes, bound)).len() == entries_below(changes, bound).len(),
        forall|i: int, j: int| 0 <= i < j < entries_below(changes, bound).len()
            ==> entries_below(changes, bound)[i].0 < entries_below(changes, bound)[j].0,
        forall|k: usize| #[trigger] changes.contains_key(k)
            ==> entries_below(changes, bound).contains((k, changes[k])),
        forall|i: int| 0 <= i < entries_below(changes, bound).len()
            ==> changes.contains_key(#[trigger] entries_below(changes, bound)[i].0),
        forall|i: int|
            #![trigger widget_ops(entries_below(changes, bound))[i]]
            0 <= i < entries_below(changes, bound).len() ==> {
                let ops = widget_ops(entries_below(changes, bound));
                let slot = entries_below(changes, bound)[i].0;
                &&& ops[i].1 == changes[slot]
                &&& ops[i].0 == slot - removals_among(ops.take(i))
            },
{
    let entries = entries_below(changes, bound);
    let ops = widget_ops(entries);
    lemma_entries_below_ascending(changes, bound);
    lemma_widget_ops_index(entries);
    lemma_ascending_slots_grow(entries);
    assert forall|k: usize| #[trigger] changes.contains_key(k) implies entries.contains((k, changes[k])) by {
        lemma_entries_below_holds(changes, bound, k);
    }
    assert forall|i: int| 0 <= i < entries.len() implies {
        let slot = entries[i].0;
        &&& (#[trigger] ops[i]).1 == changes[slot]
        &&& ops[i].0 == slot - removals_among(ops.take(i))
    } by {
        let taken = entries.take(i);
        lemma_removals_at_most_len(taken);
        assert forall|j: int| 0 <= j < ops.take(i).len() implies #[trigger] ops.take(i)[j].1 == taken[j].1 by {
            assert(ops[j] == widget_ops(entries)[j]);
        }
        lemma_removals_filtered(ops.take(i), taken);
    }
}

} // verus!
