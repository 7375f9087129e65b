//! Lists kept in order, and counts kept by label.

use vstd::prelude::*;
use vstd::multiset::Multiset;
use vstd::seq_lib::group_to_multiset_ensures;
use crate::text::{law_texts_are_totally_ordered, sorts_before, text_before};

verus! {

/// What a list of items holds.
pub open spec fn views<T: View>(items: Seq<T>) -> Seq<T::V> {
    items.map_values(|item: T| item@)
}

/// Something a list can be sorted by.
pub trait Ranked: View + Sized {
    /// Whether one item belongs before another.
    spec fn precedes(a: Self::V, b: Self::V) -> bool;

    /// Belonging before is asymmetric, and not belonging before is transitive.
    proof fn order_is_strict(a: Self::V, b: Self::V, c: Self::V)
        ensures
            Self::precedes(a, b) ==> !Self::precedes(b, a),
            !Self::precedes(b, a) && !Self::precedes(c, b) ==> !Self::precedes(c, a),
    ;

    /// Whether this belongs before another.
    fn is_before(&self, other: &Self) -> (before: bool)
        ensures
            before == Self::precedes(self@, other@),
    ;
}

impl Ranked for String {
    open spec fn precedes(a: Seq<char>, b: Seq<char>) -> bool {
        text_before(a, b)
    }

    proof fn order_is_strict(a: Seq<char>, b: Seq<char>, c: Seq<char>) {
        law_texts_are_totally_ordered(a, b, c);
        law_texts_are_totally_ordered(b, c, a);
        law_texts_are_totally_ordered(c, a, b);
        law_texts_are_totally_ordered(c, b, a);
        law_texts_are_totally_ordered(b, a, c);
    }

    fn is_before(&self, other: &Self) -> (before: bool) {
        sorts_before(self.as_str(), other.as_str())
    }
}

/// A list with one more item, behind everything it does not belong before.
pub open spec fn placed<T: Ranked>(items: Seq<T::V>, item: T::V) -> Seq<T::V>
    decreases items.len(),
{
    if items.len() == 0 {
        seq![item]
    } else if T::precedes(item, items[0]) {
        seq![item] + items
    } else {
        seq![items[0]] + placed::<T>(items.skip(1), item)
    }
}

/// A list in order; items that belong together keep the order they came in.
pub open spec fn ordered<T: Ranked>(items: Seq<T::V>) -> Seq<T::V>
    decreases items.len(),
{
    if items.len() == 0 {
        Seq::empty()
    } else {
        placed::<T>(ordered::<T>(items.drop_last()), items.last())
    }
}

/// Whether nothing in a list belongs before something ahead of it.
pub open spec fn in_order<T: Ranked>(items: Seq<T::V>) -> bool {
    forall|i: int, j: int|
        0 <= i < j < items.len() ==> !T::precedes(#[trigger] items[j], #[trigger] items[i])
}

proof fn lemma_placed_at<T: Ranked>(items: Seq<T::V>, item: T::V, at: int)
    requires
        0 <= at <= items.len(),
        forall|i: int| 0 <= i < at ==> !T::precedes(item, #[trigger] items[i]),
        at < items.len() ==> T::precedes(item, items[at]),
    ensures
        placed::<T>(items, item) == items.insert(at, item),
    decreases items.len(),
{
    if at == 0 {
        assert(placed::<T>(items, item) =~= items.insert(0, item));
    } else {
        let rest = items.skip(1);
        assert forall|i: int| 0 <= i < at - 1 implies !T::precedes(item, #[trigger] rest[i]) by {
            assert(rest[i] == items[i + 1]);
        }
        assert(!T::precedes(item, items[0]));
        lemma_placed_at::<T>(rest, item, at - 1);
        assert(placed::<T>(items, item) =~= items.insert(at, item));
    }
}

/// Add an item to a list, behind everything it does not belong before.
pub fn place<T: Ranked>(items: &mut Vec<T>, item: T)
    ensures
        views(final(items)@) == placed::<T>(views(old(items)@), item@),
        final(items)@.len() == old(items)@.len() + 1,
{
    let ghost before = items@;
    let mut at: usize = 0;
    while at < items.len() && !item.is_before(&items[at])
        invariant
            items@ == before,
            0 <= at <= before.len(),
            forall|i: int| 0 <= i < at ==> !T::precedes(item@, #[trigger] views(before)[i]),
        decreases before.len() - at,
    {
        at += 1;
    }
    proof {
        lemma_placed_at::<T>(views(before), item@, at as int);
    }
    items.insert(at, item);
    assert(views(items@) =~= views(before).insert(at as int, item@));
}

/// Put a list in order.
pub fn sort<T: Ranked>(items: Vec<T>) -> (sorted: Vec<T>)
    ensures
        views(sorted@) == ordered::<T>(views(items@)),
        sorted@.len() == items@.len(),
{
    let ghost all = items@;
    let mut rest = items;
    let mut sorted: Vec<T> = Vec::new();
    let ghost done: int = 0;
    assert(views(all).take(0) =~= Seq::empty());
    assert(views(sorted@) =~= Seq::empty());
    while rest.len() > 0
        invariant
            0 <= done <= all.len(),
            rest@ == all.skip(done),
            sorted@.len() == done,
            views(sorted@) == ordered::<T>(views(all).take(done)),
        decreases rest@.len(),
    {
        let item = rest.remove(0);
        assert(item == all[done]);
        assert(rest@ =~= all.skip(done + 1));
        assert(views(all).take(done + 1).drop_last() =~= views(all).take(done));
        place(&mut sorted, item);
        proof {
            done = done + 1;
        }
    }
    assert(views(all).take(done) =~= views(all));
    sorted
}

proof fn lemma_placed_in_order<T: Ranked>(items: Seq<T::V>, item: T::V)
    requires
        in_order::<T>(items),
    ensures
        in_order::<T>(placed::<T>(items, item)),
        placed::<T>(items, item).to_multiset() =~= items.to_multiset().insert(item),
    decreases items.len(),
{
    broadcast use group_to_multiset_ensures;

    let out = placed::<T>(items, item);
    let at = first_after::<T>(items, item);
    lemma_first_after::<T>(items, item);
    lemma_placed_at::<T>(items, item, at);
    assert(out == items.insert(at, item));
    assert forall|i: int, j: int| 0 <= i < j < out.len() implies !T::precedes(
        #[trigger] out[j],
        #[trigger] out[i],
    ) by {
        let oi = if i < at {
            i
        } else {
            i - 1
        };
        let oj = if j < at {
            j
        } else {
            j - 1
        };
        if j == at {
            assert(!T::precedes(item, items[i]));
        } else if i == at {
            T::order_is_strict(item, items[at], items[oj]);
            if oj > at {
                assert(!T::precedes(items[oj], items[at]));
            }
        } else {
            assert(!T::precedes(items[oj], items[oi]));
        }
    }
    vstd::seq_lib::lemma_multiset_commutative(items.take(at), seq![item] + items.skip(at));
    vstd::seq_lib::lemma_multiset_commutative(seq![item], items.skip(at));
    vstd::seq_lib::lemma_multiset_commutative(items.take(at), items.skip(at));
    assert(items.take(at) + items.skip(at) =~= items);
    assert(out =~= items.take(at) + (seq![item] + items.skip(at)));
    assert(seq![item] =~= Seq::<T::V>::empty().push(item));
    assert(seq![item].to_multiset() =~= Multiset::empty().insert(item));
}

spec fn first_after<T: Ranked>(items: Seq<T::V>, item: T::V) -> int
    decreases items.len(),
{
    if items.len() == 0 || T::precedes(item, items[0]) {
        0
    } else {
        1 + first_after::<T>(items.skip(1), item)
    }
}

proof fn lemma_first_after<T: Ranked>(items: Seq<T::V>, item: T::V)
    ensures
        0 <= first_after::<T>(items, item) <= items.len(),
        forall|i: int|
            0 <= i < first_after::<T>(items, item) ==> !T::precedes(item, #[trigger] items[i]),
        first_after::<T>(items, item) < items.len() ==> T::precedes(
            item,
            items[first_after::<T>(items, item)],
        ),
    decreases items.len(),
{
    if items.len() > 0 && !T::precedes(item, items[0]) {
        let rest = items.skip(1);
        lemma_first_after::<T>(rest, item);
        assert forall|i: int| 0 <= i < first_after::<T>(items, item) implies !T::precedes(
            item,
            #[trigger] items[i],
        ) by {
            if i > 0 {
                assert(rest[i - 1] == items[i]);
            }
        }
    }
}

/// Putting a list in order sorts it and loses nothing.
pub proof fn law_sorting_sorts<T: Ranked>(items: Seq<T::V>)
    ensures
        in_order::<T>(ordered::<T>(items)),
        ordered::<T>(items).to_multiset() =~= items.to_multiset(),
    decreases items.len(),
{
    broadcast use group_to_multiset_ensures;

    if items.len() > 0 {
        law_sorting_sorts::<T>(items.drop_last());
        lemma_placed_in_order::<T>(ordered::<T>(items.drop_last()), items.last());
        assert(items.drop_last().push(items.last()) =~= items);
    } else {
        assert(items =~= Seq::empty());
    }
}

// --- counts by label ---------------------------------------------------------

/// A label with what was counted under it.
#[derive(Debug, PartialEq, Eq)]
pub struct Entry {
    /// A number the label sorts by, ahead of its text.
    pub rank: u64,
    /// The label.
    pub label: String,
    /// How many were counted.
    pub count: usize,
    /// Out of how many.
    pub total: usize,
}

/// What an entry holds.
pub struct EntryView {
    /// A number the label sorts by, ahead of its text.
    pub rank: u64,
    /// The label.
    pub label: Seq<char>,
    /// How many were counted.
    pub count: nat,
    /// Out of how many.
    pub total: nat,
}

impl View for Entry {
    type V = EntryView;

    open spec fn view(&self) -> EntryView {
        EntryView {
            rank: self.rank,
            label: self.label@,
            count: self.count as nat,
            total: self.total as nat,
        }
    }
}

/// Whether two entries count the same thing.
pub open spec fn same_label(a: EntryView, b: EntryView) -> bool {
    a.rank == b.rank && a.label == b.label
}

/// Whether one entry's label sorts before another's.
pub open spec fn label_before(a: EntryView, b: EntryView) -> bool {
    a.rank < b.rank || (a.rank == b.rank && text_before(a.label, b.label))
}

/// Counts with one more note: added to the entry of its label, or as a new
/// entry where labels stay in order.
pub open spec fn noted(entries: Seq<EntryView>, note: EntryView) -> Seq<EntryView>
    decreases entries.len(),
{
    if entries.len() == 0 {
        seq![note]
    } else if same_label(entries[0], note) {
        entries.update(
            0,
            EntryView {
                count: entries[0].count + note.count,
                total: entries[0].total + note.total,
                ..entries[0]
            },
        )
    } else if label_before(note, entries[0]) {
        seq![note] + entries
    } else {
        seq![entries[0]] + noted(entries.skip(1), note)
    }
}

/// The counts a run of notes comes to.
pub open spec fn tallied(notes: Seq<EntryView>) -> Seq<EntryView>
    decreases notes.len(),
{
    if notes.len() == 0 {
        Seq::empty()
    } else {
        noted(tallied(notes.drop_last()), notes.last())
    }
}

/// What a run of notes adds up to, labels aside.
pub open spec fn noted_total(notes: Seq<EntryView>) -> nat
    decreases notes.len(),
{
    if notes.len() == 0 {
        0
    } else {
        noted_total(notes.drop_last()) + notes.last().total
    }
}

/// Whether no entry is over a bound.
spec fn bounded(entries: Seq<EntryView>, bound: int) -> bool {
    forall|i: int|
        0 <= i < entries.len() ==> (#[trigger] entries[i]).count <= bound && entries[i].total
            <= bound
}

proof fn lemma_noted_is_bounded(entries: Seq<EntryView>, note: EntryView, bound: int)
    requires
        bounded(entries, bound),
        note.count <= note.total,
        bound >= 0,
    ensures
        bounded(noted(entries, note), bound + note.total),
    decreases entries.len(),
{
    if entries.len() > 0 {
        let rest = entries.skip(1);
        assert(bounded(rest, bound)) by {
            assert forall|i: int| 0 <= i < rest.len() implies (#[trigger] rest[i]).count <= bound
                && rest[i].total <= bound by {
                assert(rest[i] == entries[i + 1]);
            }
        }
        lemma_noted_is_bounded(rest, note, bound);
        assert(entries[0].count <= bound && entries[0].total <= bound);
        let out = noted(entries, note);
        assert forall|i: int| 0 <= i < out.len() implies (#[trigger] out[i]).count <= bound
            + note.total && out[i].total <= bound + note.total by {
            if same_label(entries[0], note) {
                if i > 0 {
                    assert(out[i] == entries[i]);
                }
            } else if label_before(note, entries[0]) {
                if i > 0 {
                    assert(out[i] == entries[i - 1]);
                }
            } else if i > 0 {
                assert(out[i] == noted(rest, note)[i - 1]);
            }
        }
    }
}

/// Whether every note counts no more than it is out of.
pub open spec fn sound_notes(notes: Seq<EntryView>) -> bool {
    forall|i: int| 0 <= i < notes.len() ==> (#[trigger] notes[i]).count <= notes[i].total
}

proof fn lemma_tallied_is_bounded(notes: Seq<EntryView>)
    requires
        sound_notes(notes),
    ensures
        bounded(tallied(notes), noted_total(notes) as int),
    decreases notes.len(),
{
    if notes.len() > 0 {
        let head = notes.drop_last();
        assert(sound_notes(head)) by {
            assert forall|i: int| 0 <= i < head.len() implies (#[trigger] head[i]).count
                <= head[i].total by {
                assert(head[i] == notes[i]);
            }
        }
        lemma_tallied_is_bounded(head);
        assert(notes.last() == notes[notes.len() - 1]);
        lemma_noted_is_bounded(tallied(head), notes.last(), noted_total(head) as int);
    }
}

proof fn lemma_noted_at(entries: Seq<EntryView>, note: EntryView, at: int)
    requires
        0 <= at <= entries.len(),
        forall|i: int|
            0 <= i < at ==> !same_label(#[trigger] entries[i], note) && !label_before(
                note,
                entries[i],
            ),
        at < entries.len() ==> same_label(entries[at], note) || label_before(note, entries[at]),
    ensures
        noted(entries, note) == if at < entries.len() && same_label(entries[at], note) {
            entries.update(
                at,
                EntryView {
                    count: entries[at].count + note.count,
                    total: entries[at].total + note.total,
                    ..entries[at]
                },
            )
        } else {
            entries.insert(at, note)
        },
    decreases entries.len(),
{
    if at == 0 {
        if entries.len() == 0 {
            assert(entries.insert(0, note) =~= seq![note]);
        } else if !same_label(entries[0], note) {
            assert(entries.insert(0, note) =~= seq![note] + entries);
        }
    } else {
        let rest = entries.skip(1);
        assert forall|i: int| 0 <= i < at - 1 implies !same_label(#[trigger] rest[i], note)
            && !label_before(note, rest[i]) by {
            assert(rest[i] == entries[i + 1]);
        }
        assert(!same_label(entries[0], note) && !label_before(note, entries[0]));
        lemma_noted_at(rest, note, at - 1);
        if at < entries.len() {
            assert(rest[at - 1] == entries[at]);
        }
        assert(noted(entries, note) =~= if at < entries.len() && same_label(entries[at], note) {
            entries.update(
                at,
                EntryView {
                    count: entries[at].count + note.count,
                    total: entries[at].total + note.total,
                    ..entries[at]
                },
            )
        } else {
            entries.insert(at, note)
        });
    }
}

/// Counts by label, labels in order.
pub struct Tally {
    /// The entries.
    pub entries: Vec<Entry>,
    /// Everything noted so far, oldest first.
    pub notes: Ghost<Seq<EntryView>>,
}

impl Tally {
    /// Whether the entries are what the notes come to.
    pub open spec fn well_formed(self) -> bool {
        &&& views(self.entries@) == tallied(self.notes@)
        &&& sound_notes(self.notes@)
    }

    /// Nothing counted.
    pub fn new() -> (tally: Self)
        ensures
            tally.well_formed(),
            tally.notes@.len() == 0,
    {
        let entries: Vec<Entry> = Vec::new();
        assert(views(entries@) =~= Seq::empty());
        Tally { entries, notes: Ghost(Seq::empty()) }
    }

    /// Count something under a label.
    pub fn note(&mut self, rank: u64, label: String, count: usize, total: usize)
        requires
            old(self).well_formed(),
            count <= total,
            noted_total(old(self).notes@) + total <= usize::MAX,
        ensures
            final(self).well_formed(),
            final(self).notes@ == old(self).notes@.push(
                EntryView { rank, label: label@, count: count as nat, total: total as nat },
            ),
            noted_total(final(self).notes@) == noted_total(old(self).notes@) + total,
    {
        let ghost note = EntryView { rank, label: label@, count: count as nat, total: total as nat };
        let ghost before = self.entries@;
        let ghost notes = self.notes@.push(note);
        proof {
            lemma_tallied_is_bounded(self.notes@);
            assert(notes.drop_last() =~= self.notes@);
            assert(sound_notes(notes)) by {
                assert forall|i: int| 0 <= i < notes.len() implies (#[trigger] notes[i]).count
                    <= notes[i].total by {
                    if i < self.notes@.len() {
                        assert(notes[i] == self.notes@[i]);
                    }
                }
            }
        }
        let mut at: usize = 0;
        while at < self.entries.len() && !(self.entries[at].rank == rank && self.entries[at].label
            == label) && !(rank < self.entries[at].rank || (rank == self.entries[at].rank
            && sorts_before(label.as_str(), self.entries[at].label.as_str())))
            invariant
                self.entries@ == before,
                note.rank == rank,
                note.label == label@,
                0 <= at <= before.len(),
                forall|i: int|
                    0 <= i < at ==> !same_label(#[trigger] views(before)[i], note)
                        && !label_before(note, views(before)[i]),
            decreases before.len() - at,
        {
            at += 1;
        }
        proof {
            lemma_noted_at(views(before), note, at as int);
        }
        if at < self.entries.len() && self.entries[at].rank == rank && self.entries[at].label
            == label {
            proof {
                assert(views(before)[at as int].total <= noted_total(old(self).notes@));
                assert(views(before)[at as int].count <= noted_total(old(self).notes@));
            }
            let was: Entry = self.entries.remove(at);
            let now = Entry {
                rank: was.rank,
                label: was.label,
                count: was.count + count,
                total: was.total + total,
            };
            self.entries.insert(at, now);
            assert(views(self.entries@) =~= views(before).update(at as int, now@));
        } else {
            self.entries.insert(at, Entry { rank, label, count, total });
            assert(views(self.entries@) =~= views(before).insert(at as int, note));
        }
        self.notes = Ghost(notes);
    }
}

/// How much of a list of counts stands under a label.
pub open spec fn count_under(entries: Seq<EntryView>, rank: u64, label: Seq<char>) -> nat
    decreases entries.len(),
{
    if entries.len() == 0 {
        0
    } else {
        (if entries[0].rank == rank && entries[0].label == label {
            entries[0].count
        } else {
            0
        }) + count_under(entries.skip(1), rank, label)
    }
}

proof fn lemma_count_under_noted(
    entries: Seq<EntryView>,
    note: EntryView,
    rank: u64,
    label: Seq<char>,
)
    ensures
        count_under(noted(entries, note), rank, label) == count_under(entries, rank, label) + if note.rank
            == rank && note.label == label {
            note.count
        } else {
            0
        },
    decreases entries.len(),
{
    let out = noted(entries, note);
    if entries.len() == 0 {
        assert(count_under(out.skip(1), rank, label) == 0);
    } else if same_label(entries[0], note) {
        assert(out.skip(1) =~= entries.skip(1));
    } else if label_before(note, entries[0]) {
        assert(out.skip(1) =~= entries);
    } else {
        lemma_count_under_noted(entries.skip(1), note, rank, label);
        assert(out.skip(1) =~= noted(entries.skip(1), note));
    }
}

pub(crate) proof fn lemma_count_under_push(
    notes: Seq<EntryView>,
    note: EntryView,
    rank: u64,
    label: Seq<char>,
)
    ensures
        count_under(notes.push(note), rank, label) == count_under(notes, rank, label) + if note.rank
            == rank && note.label == label {
            note.count
        } else {
            0
        },
    decreases notes.len(),
{
    if notes.len() == 0 {
        assert(count_under(notes.push(note).skip(1), rank, label) == 0);
    } else {
        lemma_count_under_push(notes.skip(1), note, rank, label);
        assert(notes.push(note).skip(1) =~= notes.skip(1).push(note));
    }
}

/// A tally counts under every label exactly what was noted under it.
pub proof fn law_tally_counts_every_note(notes: Seq<EntryView>, rank: u64, label: Seq<char>)
    ensures
        count_under(tallied(notes), rank, label) == count_under(notes, rank, label),
    decreases notes.len(),
{
    if notes.len() > 0 {
        let head = notes.drop_last();
        law_tally_counts_every_note(head, rank, label);
        lemma_count_under_noted(tallied(head), notes.last(), rank, label);
        lemma_count_under_push(head, notes.last(), rank, label);
        assert(head.push(notes.last()) =~= notes);
    }
}

/// Out of how much the counts under a label are.
pub open spec fn total_under(entries: Seq<EntryView>, rank: u64, label: Seq<char>) -> nat
    decreases entries.len(),
{
    if entries.len() == 0 {
        0
    } else {
        (if entries[0].rank == rank && entries[0].label == label {
            entries[0].total
        } else {
            0
        }) + total_under(entries.skip(1), rank, label)
    }
}

proof fn lemma_total_under_noted(
    entries: Seq<EntryView>,
    note: EntryView,
    rank: u64,
    label: Seq<char>,
)
    ensures
        total_under(noted(entries, note), rank, label) == total_under(entries, rank, label) + if note.rank
            == rank && note.label == label {
            note.total
        } else {
            0
        },
    decreases entries.len(),
{
    let out = noted(entries, note);
    if entries.len() == 0 {
        assert(total_under(out.skip(1), rank, label) == 0);
    } else if same_label(entries[0], note) {
        assert(out.skip(1) =~= entries.skip(1));
    } else if label_before(note, entries[0]) {
        assert(out.skip(1) =~= entries);
    } else {
        lemma_total_under_noted(entries.skip(1), note, rank, label);
        assert(out.skip(1) =~= noted(entries.skip(1), note));
    }
}

pub(crate) proof fn lemma_total_under_push(
    notes: Seq<EntryView>,
    note: EntryView,
    rank: u64,
    label: Seq<char>,
)
    ensures
        total_under(notes.push(note), rank, label) == total_under(notes, rank, label) + if note.rank
            == rank && note.label == label {
            note.total
        } else {
            0
        },
    decreases notes.len(),
{
    if notes.len() == 0 {
        assert(total_under(notes.push(note).skip(1), rank, label) == 0);
    } else {
        lemma_total_under_push(notes.skip(1), note, rank, label);
        assert(notes.push(note).skip(1) =~= notes.skip(1).push(note));
    }
}

/// A tally's totals are out of exactly what was noted under each label.
pub proof fn law_tally_totals_every_note(notes: Seq<EntryView>, rank: u64, label: Seq<char>)
    ensures
        total_under(tallied(notes), rank, label) == total_under(notes, rank, label),
    decreases notes.len(),
{
    if notes.len() > 0 {
        let head = notes.drop_last();
        law_tally_totals_every_note(head, rank, label);
        lemma_total_under_noted(tallied(head), notes.last(), rank, label);
        lemma_total_under_push(head, notes.last(), rank, label);
        assert(head.push(notes.last()) =~= notes);
    }
}

/// Whether labels are in order, each of them once.
pub open spec fn ascending(entries: Seq<EntryView>) -> bool {
    forall|i: int, j: int|
        0 <= i < j < entries.len() ==> label_before(#[trigger] entries[i], #[trigger] entries[j])
}

proof fn lemma_label_order(a: EntryView, b: EntryView, c: EntryView)
    ensures
        label_before(a, b) && label_before(b, c) ==> label_before(a, c),
        same_label(a, b) || label_before(a, b) || label_before(b, a),
{
    law_texts_are_totally_ordered(a.label, b.label, c.label);
}

proof fn lemma_noted_is_ascending(entries: Seq<EntryView>, note: EntryView)
    requires
        ascending(entries),
    ensures
        ascending(noted(entries, note)),
        forall|k: int|
            0 <= k < noted(entries, note).len() ==> same_label(
                #[trigger] noted(entries, note)[k],
                note,
            ) || exists|i: int|
                0 <= i < entries.len() && same_label(
                    noted(entries, note)[k],
                    #[trigger] entries[i],
                ),
    decreases entries.len(),
{
    let out = noted(entries, note);
    if entries.len() > 0 {
        let rest = entries.skip(1);
        assert(ascending(rest)) by {
            assert forall|i: int, j: int| 0 <= i < j < rest.len() implies label_before(
                #[trigger] rest[i],
                #[trigger] rest[j],
            ) by {
                assert(rest[i] == entries[i + 1] && rest[j] == entries[j + 1]);
            }
        }
        lemma_noted_is_ascending(rest, note);
        let tail = noted(rest, note);
        lemma_label_order(entries[0], note, note);
        assert forall|k: int| 0 <= k < out.len() implies same_label(#[trigger] out[k], note)
            || exists|i: int|
            0 <= i < entries.len() && same_label(out[k], #[trigger] entries[i]) by {
            if same_label(entries[0], note) {
                assert(same_label(out[k], entries[k]));
            } else if label_before(note, entries[0]) {
                if k > 0 {
                    assert(same_label(out[k], entries[k - 1]));
                }
            } else if k == 0 {
                assert(same_label(out[k], entries[0]));
            } else {
                assert(out[k] == tail[k - 1]);
                if !same_label(tail[k - 1], note) {
                    let i = choose|i: int|
                        0 <= i < rest.len() && same_label(tail[k - 1], #[trigger] rest[i]);
                    assert(rest[i] == entries[i + 1]);
                }
            }
        }
        assert forall|i: int, j: int| 0 <= i < j < out.len() implies label_before(
            #[trigger] out[i],
            #[trigger] out[j],
        ) by {
            if same_label(entries[0], note) {
                assert(label_before(entries[i], entries[j]));
            } else if label_before(note, entries[0]) {
                if i == 0 {
                    if j > 1 {
                        assert(label_before(entries[0], entries[j - 1]));
                    }
                    lemma_label_order(note, entries[0], entries[j - 1]);
                } else {
                    assert(label_before(entries[i - 1], entries[j - 1]));
                }
            } else if i > 0 {
                assert(label_before(tail[i - 1], tail[j - 1]));
            } else {
                assert(out[j] == tail[j - 1]);
                if !same_label(tail[j - 1], note) {
                    let k = choose|k: int|
                        0 <= k < rest.len() && same_label(tail[j - 1], #[trigger] rest[k]);
                    assert(rest[k] == entries[k + 1]);
                    assert(label_before(entries[0], entries[k + 1]));
                }
            }
        }
    }
}

/// A tally lists each label once, in order.
pub proof fn law_tally_lists_labels_in_order(notes: Seq<EntryView>)
    ensures
        ascending(tallied(notes)),
    decreases notes.len(),
{
    if notes.len() > 0 {
        law_tally_lists_labels_in_order(notes.drop_last());
        lemma_noted_is_ascending(tallied(notes.drop_last()), notes.last());
    }
}

/// An item goes behind everything it does not belong before, and ahead of the
/// first it does: items that belong together keep the order they came in.
pub proof fn law_an_item_goes_behind_its_equals<T: Ranked>(
    items: Seq<T::V>,
    item: T::V,
    at: int,
)
    requires
        0 <= at <= items.len(),
        forall|i: int| 0 <= i < at ==> !T::precedes(item, #[trigger] items[i]),
        at < items.len() ==> T::precedes(item, items[at]),
    ensures
        placed::<T>(items, item) == items.insert(at, item),
        ordered::<T>(items.push(item)) == placed::<T>(ordered::<T>(items), item),
        ordered::<T>(Seq::empty()).len() == 0,
{
    lemma_placed_at::<T>(items, item, at);
    assert(items.push(item).drop_last() =~= items);
}

} // verus!
