//! From the output of the models to notes.
use vstd::prelude::*;

use crate::single::{Order, Single};

verus! {

/// A note: when it starts and ends, in seconds, and its pitch, in semitones.
#[derive(Clone, Copy, PartialEq, Eq, Structural, Debug)]
pub struct NoteInfo {
    pub onset: Single,
    pub offset: Single,
    pub pitch: Single,
}

// Decoding.
/// Whether `times` are the times between regions of those durations: from zero
/// on, each the sum, as `sum` has it, of the time before and a duration.
pub open spec fn are_boundaries<F: Fn(Single, Single) -> Single>(
    sum: F,
    durations: Seq<Single>,
    regions: nat,
    times: Seq<Single>,
) -> bool {
    &&& times.len() == regions + 1
    &&& times[0] == Single::zero_spec()
    &&& forall|i: int|
        0 <= i < regions ==> call_ensures(
            sum,
            (times[i], durations[i]),
            #[trigger] times[i + 1],
        )
}

/// The notes in the first `regions` regions: one for each region that is voiced
/// and does not end by its start.
pub open spec fn decoded(
    times: Seq<Single>,
    presence: Seq<bool>,
    scores: Seq<Single>,
    regions: nat,
) -> Seq<NoteInfo>
    decreases regions,
{
    if regions == 0 {
        Seq::empty()
    } else {
        let i = regions - 1;
        let before = decoded(times, presence, scores, i as nat);
        if presence[i] && !times[i + 1].ends_by(times[i]) {
            before.push(
                NoteInfo { onset: times[i], offset: times[i + 1], pitch: scores[i] },
            )
        } else {
            before
        }
    }
}

/// Finds the notes in regions of given durations, voicings and pitches, where
/// each region starts where the one before ends.
///
/// The sum of two times is a matter of floating point, and so of the caller.
pub fn decode_notes<F: Fn(Single, Single) -> Single>(
    durations: &Vec<Single>,
    presence: &Vec<bool>,
    scores: &Vec<Single>,
    sum: F,
) -> (notes: Vec<NoteInfo>)
    requires
        presence@.len() <= durations@.len(),
        presence@.len() <= scores@.len(),
        forall|a: Single, b: Single| call_requires(sum, (a, b)),
    ensures
        exists|times: Seq<Single>| #[trigger]
            are_boundaries(sum, durations@, presence@.len(), times) && notes@ == decoded(
                times,
                presence@,
                scores@,
                presence@.len(),
            ),
{
    let mut notes: Vec<NoteInfo> = Vec::new();
    let mut current_time: Single = Single::zero();
    let ghost mut times: Seq<Single> = seq![current_time];
    let mut i: usize = 0;
    while i < presence.len()
        invariant
            i <= presence@.len(),
            presence@.len() <= durations@.len(),
            presence@.len() <= scores@.len(),
            forall|a: Single, b: Single| call_requires(sum, (a, b)),
            are_boundaries(sum, durations@, i as nat, times),
            times.last() == current_time,
            notes@ == decoded(times, presence@, scores@, i as nat),
        decreases presence@.len() - i,
    {
        let onset: Single = current_time;
        let offset: Single = sum(onset, durations[i]);
        current_time = offset;
        proof {
            let longer = times.push(offset);
            lemma_decoded_ignores_later_times(times, longer, presence@, scores@, i as nat);
            assert forall|k: int| 0 <= k < i + 1 implies call_ensures(
                sum,
                (longer[k], durations@[k]),
                #[trigger] longer[k + 1],
            ) by {
                if k < i {
                    assert(longer[k + 1] == times[k + 1]);
                }
            }
            times = longer;
        }
        if !offset.is_over_by(onset) && presence[i] {
            notes.push(NoteInfo { onset, offset, pitch: scores[i] });
        }
        i = i + 1;
    }
    notes
}

/// Later times do not change the notes found before them.
proof fn lemma_decoded_ignores_later_times(
    times: Seq<Single>,
    longer: Seq<Single>,
    presence: Seq<bool>,
    scores: Seq<Single>,
    regions: nat,
)
    requires
        regions < times.len() <= longer.len(),
        forall|i: int| 0 <= i < times.len() ==> times[i] == longer[i],
    ensures
        decoded(times, presence, scores, regions) == decoded(longer, presence, scores, regions),
    decreases regions,
{
    if regions > 0 {
        lemma_decoded_ignores_later_times(
            times,
            longer,
            presence,
            scores,
            (regions - 1) as nat,
        );
    }
}

// Sorting.
impl NoteInfo {
    /// How one note stands to another: by onset, then by offset, then by pitch,
    /// where unordered numbers count as equal.
    pub open spec fn against(self, other: NoteInfo) -> Order {
        if self.onset.against(other.onset) != Order::Same {
            self.onset.against(other.onset)
        } else if self.offset.against(other.offset) != Order::Same {
            self.offset.against(other.offset)
        } else {
            self.pitch.against(other.pitch)
        }
    }

    /// Whether `self` may stand in front of `other`.
    pub open spec fn not_after(self, other: NoteInfo) -> bool {
        self.against(other) != Order::Greater
    }

    /// Whether no part of the note is a NaN.
    pub open spec fn without_nan(self) -> bool {
        !self.onset.nan() && !self.offset.nan() && !self.pitch.nan()
    }

    /// How one note stands to another: by onset, then by offset, then by pitch,
    /// where unordered numbers count as equal.
    pub fn order_against(self, other: NoteInfo) -> (result: Order)
        ensures
            result == self.against(other),
    {
        match self.onset.order_against(other.onset) {
            Order::Same => match self.offset.order_against(other.offset) {
                Order::Same => self.pitch.order_against(other.pitch),
                by_offset => by_offset,
            },
            by_onset => by_onset,
        }
    }
}

/// Whether the order of notes is consistent among those of a sequence. It always
/// is where there is no NaN.
pub open spec fn is_ordered_among(notes: Seq<NoteInfo>) -> bool {
    forall|a: NoteInfo, b: NoteInfo, c: NoteInfo|
        notes.contains(a) && notes.contains(b) && notes.contains(c) && #[trigger] a.not_after(b)
            && #[trigger] b.not_after(c) ==> a.not_after(c)
}

/// Whether no note stands behind one that it should stand in front of.
pub open spec fn is_sorted(notes: Seq<NoteInfo>) -> bool {
    forall|i: int, j: int| 0 <= i < j < notes.len() ==> notes[i].not_after(notes[j])
}

/// The notes of a sequence that are equal to `note` in the order, as they stand.
pub open spec fn equals_of(notes: Seq<NoteInfo>, note: NoteInfo) -> Seq<NoteInfo> {
    notes.filter(|other: NoteInfo| other.against(note) == Order::Same)
}

/// Whether notes that are equal in the order stand in `after` as in `before`.
pub open spec fn keeps_equals(before: Seq<NoteInfo>, after: Seq<NoteInfo>) -> bool {
    forall|note: NoteInfo|
        before.contains(note) ==> #[trigger] equals_of(after, note) == equals_of(before, note)
}

/// Whether the notes up to the index `last` are sorted but for the one at `at`,
/// which may still have to move to the front.
spec fn is_sorted_but(notes: Seq<NoteInfo>, at: int, last: int) -> bool {
    &&& forall|a: int, b: int|
        0 <= a < b <= last && a != at && b != at ==> notes[a].not_after(notes[b])
    &&& forall|b: int| at < b <= last ==> notes[at].not_after(#[trigger] notes[b])
}

/// A sequence with the items at `k` and behind it exchanged.
spec fn swapped(notes: Seq<NoteInfo>, k: int) -> Seq<NoteInfo> {
    notes.update(k, notes[k + 1]).update(k + 1, notes[k])
}

/// Exchanging neighbours keeps the notes.
proof fn lemma_swap_keeps_notes(notes: Seq<NoteInfo>, k: int)
    requires
        0 <= k < notes.len() - 1,
    ensures
        swapped(notes, k).to_multiset() == notes.to_multiset(),
{
    broadcast use vstd::seq_lib::group_to_multiset_ensures;

    let front = notes.take(k);
    let back = notes.skip(k + 2);
    let one = seq![notes[k], notes[k + 1]];
    let other = seq![notes[k + 1], notes[k]];
    assert(notes =~= (front + one) + back);
    assert(swapped(notes, k) =~= (front + other) + back);
    assert(front + one =~= front.push(notes[k]).push(notes[k + 1]));
    assert(front + other =~= front.push(notes[k + 1]).push(notes[k]));
    assert((front + one).to_multiset() =~= (front + other).to_multiset());
    vstd::seq_lib::lemma_multiset_commutative(front + one, back);
    vstd::seq_lib::lemma_multiset_commutative(front + other, back);
}

/// Notes with the same multiset are the same notes.
proof fn lemma_same_notes(before: Seq<NoteInfo>, notes: Seq<NoteInfo>)
    requires
        notes.to_multiset() == before.to_multiset(),
    ensures
        forall|note: NoteInfo| notes.contains(note) <==> before.contains(note),
        forall|i: int| 0 <= i < notes.len() ==> before.contains(#[trigger] notes[i]),
{
    notes.to_multiset_ensures();
    before.to_multiset_ensures();
    assert forall|note: NoteInfo| notes.contains(note) <==> before.contains(note) by {
        assert(notes.contains(note) <==> notes.to_multiset().count(note) > 0);
        assert(before.contains(note) <==> before.to_multiset().count(note) > 0);
    }
    assert forall|i: int| 0 <= i < notes.len() implies before.contains(#[trigger] notes[i]) by {
        assert(notes.contains(notes[i]));
    }
}

/// Exchanging a note with a greater one in front of it brings it closer to its
/// place.
proof fn lemma_swap_sorts(notes: Seq<NoteInfo>, at: int, last: int)
    requires
        0 < at <= last < notes.len(),
        is_sorted_but(notes, at, last),
        notes[at - 1].against(notes[at]) == Order::Greater,
    ensures
        is_sorted_but(swapped(notes, at - 1), at - 1, last),
{
    let after = swapped(notes, at - 1);
    assert forall|a: int, b: int|
        0 <= a < b <= last && a != at - 1 && b != at - 1 implies after[a].not_after(after[b]) by {
        let old_a = if a == at {
            at - 1
        } else {
            a
        };
        let old_b = if b == at {
            at - 1
        } else {
            b
        };
        assert(after[a] == notes[old_a] && after[b] == notes[old_b]);
    }
    assert forall|b: int| at - 1 < b <= last implies after[at - 1].not_after(
        #[trigger] after[b],
    ) by {
        if b > at {
            assert(after[b] == notes[b]);
        }
    }
}

/// Exchanging neighbours of which one is greater leaves equal notes as they
/// stand.
proof fn lemma_swap_keeps_equals(before: Seq<NoteInfo>, notes: Seq<NoteInfo>, k: int)
    requires
        0 <= k < notes.len() - 1,
        is_ordered_among(before),
        notes.to_multiset() == before.to_multiset(),
        keeps_equals(before, notes),
        notes[k].against(notes[k + 1]) == Order::Greater,
    ensures
        keeps_equals(before, swapped(notes, k)),
{
    lemma_same_notes(before, notes);
    let after = swapped(notes, k);
    let left = notes[k];
    let right = notes[k + 1];
    assert forall|note: NoteInfo| before.contains(note) implies #[trigger] equals_of(after, note)
        == equals_of(before, note) by {
        let equal = |other: NoteInfo| other.against(note) == Order::Same;
        if equal(left) && equal(right) {
            assert(left.not_after(note) && note.not_after(right));
            assert(left.not_after(right));
        }
        let front = notes.take(k);
        let back = notes.skip(k + 2);
        let one = seq![left, right];
        let other = seq![right, left];
        assert(notes =~= (front + one) + back);
        assert(after =~= (front + other) + back);
        Seq::filter_distributes_over_add(front + one, back, equal);
        Seq::filter_distributes_over_add(front, one, equal);
        Seq::filter_distributes_over_add(front + other, back, equal);
        Seq::filter_distributes_over_add(front, other, equal);
        lemma_filter_of_two(left, right, equal);
        lemma_filter_of_two(right, left, equal);
        assert(equals_of(notes, note) == equals_of(before, note));
    }
}

/// What a filter leaves of two items.
proof fn lemma_filter_of_two(a: NoteInfo, b: NoteInfo, keep: spec_fn(NoteInfo) -> bool)
    ensures
        seq![a, b].filter(keep) == if keep(a) {
            if keep(b) {
                seq![a, b]
            } else {
                seq![a]
            }
        } else {
            if keep(b) {
                seq![b]
            } else {
                Seq::empty()
            }
        },
{
    reveal_with_fuel(Seq::filter, 3);
    let two = seq![a, b];
    let one = two.drop_last();
    assert(one =~= seq![a]);
    assert(one.drop_last() =~= Seq::empty());
    assert(two.filter(keep) =~= if keep(b) {
        one.filter(keep).push(b)
    } else {
        one.filter(keep)
    });
}

/// A note behind sorted ones is the only one that may have to move.
proof fn lemma_unsorted_last(notes: Seq<NoteInfo>, last: int)
    requires
        0 <= last < notes.len(),
        is_sorted(notes.take(last)),
    ensures
        is_sorted_but(notes, last, last),
{
    let sorted = notes.take(last);
    assert forall|a: int, b: int|
        0 <= a < b <= last && a != last && b != last implies notes[a].not_after(notes[b]) by {
        assert(sorted[a] == notes[a] && sorted[b] == notes[b]);
    }
}

/// A note that is not behind a greater one has come to its place.
proof fn lemma_in_place(before: Seq<NoteInfo>, notes: Seq<NoteInfo>, at: int, last: int)
    requires
        0 <= at <= last < notes.len(),
        is_ordered_among(before),
        notes.to_multiset() == before.to_multiset(),
        is_sorted_but(notes, at, last),
        at == 0 || notes[at - 1].not_after(notes[at]),
    ensures
        is_sorted(notes.take(last + 1)),
{
    lemma_same_notes(before, notes);
    let sorted = notes.take(last + 1);
    assert forall|a: int, b: int| 0 <= a < b < sorted.len() implies sorted[a].not_after(
        sorted[b],
    ) by {
        assert(sorted[a] == notes[a] && sorted[b] == notes[b]);
        if b == at && a < at - 1 {
            assert(notes[a].not_after(notes[at - 1]));
        }
    }
}

/// Sorts notes by onset, offset and pitch, and leaves equal notes as they stand.
///
/// Where NaNs make the order inconsistent, the notes come out in some order.
pub fn sort_notes(notes: &mut Vec<NoteInfo>)
    ensures
        is_sorting_of(old(notes)@, final(notes)@),
{
    let ghost before = notes@;
    let ghost ordered = is_ordered_among(before);
    let mut i: usize = 0;
    while i < notes.len()
        invariant
            i <= notes@.len(),
            notes@.len() == before.len(),
            notes@.to_multiset() == before.to_multiset(),
            ordered == is_ordered_among(before),
            ordered ==> is_sorted(notes@.take(i as int)) && keeps_equals(before, notes@),
        decreases notes@.len() - i,
    {
        let mut j: usize = i;
        proof {
            if ordered {
                lemma_unsorted_last(notes@, i as int);
            }
        }
        while j > 0 && notes[j - 1].order_against(notes[j]) == Order::Greater
            invariant
                j <= i < notes@.len(),
                notes@.len() == before.len(),
                notes@.to_multiset() == before.to_multiset(),
                ordered == is_ordered_among(before),
                ordered ==> is_sorted_but(notes@, j as int, i as int) && keeps_equals(
                    before,
                    notes@,
                ),
            decreases j,
        {
            let ghost unswapped = notes@;
            let left: NoteInfo = notes[j - 1];
            let right: NoteInfo = notes[j];
            notes.set(j - 1, right);
            notes.set(j, left);
            proof {
                assert(notes@ =~= swapped(unswapped, j - 1));
                lemma_swap_keeps_notes(unswapped, j - 1);
                if ordered {
                    lemma_swap_sorts(unswapped, j as int, i as int);
                    lemma_swap_keeps_equals(before, unswapped, j - 1);
                }
            }
            j = j - 1;
        }
        proof {
            if ordered {
                lemma_in_place(before, notes@, j as int, i as int);
            }
        }
        i = i + 1;
    }
    proof {
        assert(notes@.take(i as int) =~= notes@);
    }
}

/// Where there is no NaN the order of notes is consistent.
pub proof fn lemma_ordered_without_nan(notes: Seq<NoteInfo>)
    requires
        forall|i: int| 0 <= i < notes.len() ==> (#[trigger] notes[i]).without_nan(),
    ensures
        is_ordered_among(notes),
{
}

/// Sorting has one outcome: two sequences that are sorted and keep the equal
/// notes of the same notes as they stand are the same.
pub proof fn lemma_sorting_has_one_outcome(
    before: Seq<NoteInfo>,
    one: Seq<NoteInfo>,
    other: Seq<NoteInfo>,
)
    requires
        is_ordered_among(before),
        one.to_multiset() == before.to_multiset(),
        other.to_multiset() == before.to_multiset(),
        is_sorted(one) && keeps_equals(before, one),
        is_sorted(other) && keeps_equals(before, other),
    ensures
        one == other,
{
    lemma_same_notes(before, one);
    lemma_same_notes(before, other);
    one.to_multiset_ensures();
    other.to_multiset_ensures();
    assert(one.len() == other.len());
    lemma_equals_decide(before, one, other);
}

/// Sorting sorted notes changes nothing.
pub proof fn lemma_sorted_notes_stay(before: Seq<NoteInfo>, after: Seq<NoteInfo>)
    requires
        is_ordered_among(before),
        is_sorted(before),
        after.to_multiset() == before.to_multiset(),
        is_sorted(after) && keeps_equals(before, after),
    ensures
        after == before,
{
    lemma_sorting_has_one_outcome(before, after, before);
}

/// Sorted sequences with the same equal notes everywhere are the same.
proof fn lemma_equals_decide(
    before: Seq<NoteInfo>,
    one: Seq<NoteInfo>,
    other: Seq<NoteInfo>,
)
    requires
        is_ordered_among(before),
        one.len() == other.len(),
        forall|i: int| 0 <= i < one.len() ==> before.contains(#[trigger] one[i]),
        forall|i: int| 0 <= i < other.len() ==> before.contains(#[trigger] other[i]),
        is_sorted(one),
        is_sorted(other),
        forall|note: NoteInfo|
            before.contains(note) ==> #[trigger] equals_of(one, note) == equals_of(other, note),
    ensures
        one == other,
    decreases one.len(),
{
    if one.len() > 0 {
        let a = one.last();
        let b = other.last();
        assert(before.contains(a) && before.contains(b));
        lemma_equals_without_last(one);
        lemma_equals_without_last(other);
        assert(a.against(a) == Order::Same);
        assert(b.against(b) == Order::Same);
        // Each of the two last notes occurs on the other side, and so neither is
        // greater than the other.
        assert(equals_of(one, a).last() == a);
        assert(equals_of(other, b).last() == b);
        lemma_member_of_equals(other, a, a);
        lemma_member_of_equals(one, b, b);
        assert(a.not_after(b));
        assert(b.not_after(a));
        assert(b.against(a) == Order::Same);
        assert(equals_of(other, a).last() == b);
        assert(a == b);
        let shorter_one = one.drop_last();
        let shorter_other = other.drop_last();
        assert forall|note: NoteInfo| before.contains(note) implies #[trigger] equals_of(
            shorter_one,
            note,
        ) == equals_of(shorter_other, note) by {
            assert(equals_of(one, note) == equals_of(other, note));
            if a.against(note) == Order::Same {
                assert(equals_of(shorter_one, note) =~= equals_of(one, note).drop_last());
                assert(equals_of(shorter_other, note) =~= equals_of(other, note).drop_last());
            }
        }
        assert forall|i: int| 0 <= i < shorter_one.len() implies before.contains(
            #[trigger] shorter_one[i],
        ) by {
            assert(shorter_one[i] == one[i]);
        }
        assert forall|i: int| 0 <= i < shorter_other.len() implies before.contains(
            #[trigger] shorter_other[i],
        ) by {
            assert(shorter_other[i] == other[i]);
        }
        lemma_equals_decide(before, shorter_one, shorter_other);
        assert(one =~= shorter_one.push(a));
        assert(other =~= shorter_other.push(b));
    } else {
        assert(one =~= other);
    }
}

/// How the equal notes of a sequence come from those of all but its last note.
proof fn lemma_equals_without_last(notes: Seq<NoteInfo>)
    requires
        notes.len() > 0,
    ensures
        forall|note: NoteInfo| #[trigger]
            equals_of(notes, note) == if notes.last().against(note) == Order::Same {
                equals_of(notes.drop_last(), note).push(notes.last())
            } else {
                equals_of(notes.drop_last(), note)
            },
{
    reveal_with_fuel(Seq::filter, 1);
}

/// A note among the equal notes of a sequence stands in it, and so not behind
/// its last note where the sequence is sorted.
proof fn lemma_member_of_equals(notes: Seq<NoteInfo>, note: NoteInfo, member: NoteInfo)
    requires
        is_sorted(notes),
        equals_of(notes, note).contains(member),
    ensures
        notes.len() > 0,
        member.not_after(notes.last()),
{
    let equal = |other: NoteInfo| other.against(note) == Order::Same;
    assert(notes.filter(equal) == equals_of(notes, note));
    notes.lemma_filter_contains_rev(equal, member);
}

// Cleaning.
/// When the last of clean notes ends; zero before the first.
pub open spec fn end_of(notes: Seq<NoteInfo>) -> Single {
    if notes.len() == 0 {
        Single::zero_spec()
    } else {
        notes.last().offset
    }
}

/// A note that starts no sooner than `now` and ends no sooner than it starts.
pub open spec fn trimmed(note: NoteInfo, now: Single) -> NoteInfo {
    let onset = note.onset.larger(now);
    NoteInfo { onset, offset: note.offset.larger(onset), pitch: note.pitch }
}

/// Notes in turn: each is trimmed to start no sooner than the one kept before it
/// ends, and is left out where nothing remains of it.
pub open spec fn cleaned(notes: Seq<NoteInfo>) -> Seq<NoteInfo>
    decreases notes.len(),
{
    if notes.len() == 0 {
        Seq::empty()
    } else {
        let before = cleaned(notes.drop_last());
        let note = trimmed(notes.last(), end_of(before));
        if note.onset.below(note.offset) {
            before.push(note)
        } else {
            before
        }
    }
}

/// Trims notes so that none starts before the one in front of it has ended, and
/// leaves out those of which nothing remains.
pub fn clean_notes(notes: &Vec<NoteInfo>) -> (clean: Vec<NoteInfo>)
    ensures
        clean@ == cleaned(notes@),
{
    let mut clean: Vec<NoteInfo> = Vec::new();
    let mut last_time: Single = Single::zero();
    let mut i: usize = 0;
    while i < notes.len()
        invariant
            i <= notes@.len(),
            clean@ == cleaned(notes@.take(i as int)),
            last_time == end_of(clean@),
        decreases notes@.len() - i,
    {
        proof {
            assert(notes@.take(i + 1).drop_last() =~= notes@.take(i as int));
        }
        let onset: Single = notes[i].onset.max(last_time);
        let offset: Single = notes[i].offset.max(onset);
        if onset.is_below(offset) {
            last_time = offset;
            clean.push(NoteInfo { onset, offset, pitch: notes[i].pitch });
        }
        i = i + 1;
    }
    proof {
        assert(notes@.take(i as int) =~= notes@);
    }
    clean
}

/// Whether every note has a positive length, none starts before zero, and none
/// starts before one in front of it has ended.
pub open spec fn is_clean(notes: Seq<NoteInfo>) -> bool {
    &&& forall|i: int|
        0 <= i < notes.len() ==> (#[trigger] notes[i]).onset.below(notes[i].offset)
            && Single::zero_spec().at_most(notes[i].onset)
    &&& forall|i: int, j: int|
        0 <= i < j < notes.len() ==> notes[i].offset.at_most(notes[j].onset)
}

/// Cleaning leaves no overlap, whatever the notes were and in whatever order
/// they came.
pub proof fn lemma_cleaned_notes_are_clean(notes: Seq<NoteInfo>)
    ensures
        is_clean(cleaned(notes)),
    decreases notes.len(),
{
    if notes.len() > 0 {
        let before = cleaned(notes.drop_last());
        lemma_cleaned_notes_are_clean(notes.drop_last());
        let note = trimmed(notes.last(), end_of(before));
        if note.onset.below(note.offset) {
            let all = before.push(note);
            assert forall|i: int, j: int| 0 <= i < j < all.len() implies all[i].offset.at_most(
                all[j].onset,
            ) by {
                if j == before.len() {
                    let last = before.len() - 1;
                    assert(before[last].onset.below(before[last].offset));
                    if i < last {
                        assert(before[i].offset.at_most(before[last].onset));
                    }
                }
            }
            if before.len() > 0 {
                assert(before[before.len() - 1].onset.below(before[before.len() - 1].offset));
            }
        }
    }
}

/// Cleaning clean notes changes nothing.
pub proof fn lemma_clean_notes_stay(notes: Seq<NoteInfo>)
    requires
        is_clean(notes),
    ensures
        cleaned(notes) == notes,
    decreases notes.len(),
{
    if notes.len() > 0 {
        let some = notes.drop_last();
        assert forall|i: int| 0 <= i < some.len() implies (#[trigger] some[i]).onset.below(
            some[i].offset,
        ) && Single::zero_spec().at_most(some[i].onset) by {
            assert(some[i] == notes[i]);
        }
        assert forall|i: int, j: int| 0 <= i < j < some.len() implies some[i].offset.at_most(
            some[j].onset,
        ) by {
            assert(some[i] == notes[i] && some[j] == notes[j]);
        }
        lemma_clean_notes_stay(some);
        let last = notes.len() - 1;
        assert(notes[last].onset.below(notes[last].offset));
        if last > 0 {
            assert(notes[last - 1].offset.at_most(notes[last].onset));
        }
        assert(trimmed(notes.last(), end_of(some)) == notes.last());
        assert(notes =~= some.push(notes.last()));
    }
}

/// Cleaning twice is cleaning once.
pub proof fn lemma_cleaning_twice(notes: Seq<NoteInfo>)
    ensures
        cleaned(cleaned(notes)) == cleaned(notes),
{
    lemma_cleaned_notes_are_clean(notes);
    lemma_clean_notes_stay(cleaned(notes));
}

/// Whether `after` is `before` with some notes left out and the others perhaps
/// started later: `origins` says where each comes from.
pub open spec fn comes_from(
    after: Seq<NoteInfo>,
    before: Seq<NoteInfo>,
    origins: Seq<int>,
) -> bool {
    &&& origins.len() == after.len()
    &&& forall|i: int|
        0 <= i < origins.len() ==> {
            let note = before[#[trigger] origins[i]];
            &&& 0 <= origins[i] < before.len()
            &&& after[i].offset == note.offset
            &&& after[i].pitch == note.pitch
            &&& !after[i].onset.below(note.onset)
        }
    &&& forall|i: int, j: int| 0 <= i < j < origins.len() ==> origins[i] < origins[j]
}

/// Cleaning invents nothing: the notes that remain come, in order, from the
/// notes that were there, with their pitches and their ends, and none of them
/// starts sooner.
pub proof fn lemma_cleaned_notes_come_from_notes(notes: Seq<NoteInfo>)
    ensures
        exists|origins: Seq<int>| comes_from(cleaned(notes), notes, origins),
    decreases notes.len(),
{
    if notes.len() == 0 {
        assert(comes_from(cleaned(notes), notes, Seq::empty()));
    } else {
        let some = notes.drop_last();
        lemma_cleaned_notes_come_from_notes(some);
        let origins = choose|origins: Seq<int>| comes_from(cleaned(some), some, origins);
        let before = cleaned(some);
        let note = trimmed(notes.last(), end_of(before));
        assert forall|i: int| 0 <= i < origins.len() implies some[#[trigger] origins[i]]
            == notes[origins[i]] && origins[i] < notes.len() - 1 by {}
        if note.onset.below(note.offset) {
            let longer = origins.push(notes.len() - 1);
            assert(note.offset == notes.last().offset);
            assert(comes_from(cleaned(notes), notes, longer));
        } else {
            assert(comes_from(cleaned(notes), notes, origins));
        }
    }
}

/// Whether `sorted` is what sorting makes of `notes`.
pub open spec fn is_sorting_of(notes: Seq<NoteInfo>, sorted: Seq<NoteInfo>) -> bool {
    &&& sorted.to_multiset() == notes.to_multiset()
    &&& is_ordered_among(notes) ==> is_sorted(sorted) && keeps_equals(notes, sorted)
}

/// Clean notes are sorted, and their order is consistent even where a pitch is a
/// NaN.
pub proof fn lemma_clean_notes_are_sorted(notes: Seq<NoteInfo>)
    requires
        is_clean(notes),
    ensures
        is_sorted(notes),
        is_ordered_among(notes),
{
    assert forall|i: int, j: int| 0 <= i < j < notes.len() implies notes[i].against(notes[j])
        == Order::Less by {
        assert(notes[i].onset.below(notes[i].offset));
        assert(notes[i].offset.at_most(notes[j].onset));
    }
    assert forall|a: NoteInfo, b: NoteInfo, c: NoteInfo|
        notes.contains(a) && notes.contains(b) && notes.contains(c) && #[trigger] a.not_after(b)
            && #[trigger] b.not_after(c) implies a.not_after(c) by {
        let i = choose|i: int| 0 <= i < notes.len() && notes[i] == a;
        let j = choose|j: int| 0 <= j < notes.len() && notes[j] == b;
        let k = choose|k: int| 0 <= k < notes.len() && notes[k] == c;
        assert(!(j < i) && !(k < j)) by {
            if j < i {
                assert(notes[j].against(notes[i]) == Order::Less);
            }
            if k < j {
                assert(notes[k].against(notes[j]) == Order::Less);
            }
        }
        if i < k {
            assert(notes[i].against(notes[k]) == Order::Less);
        }
    }
}

/// Where the times between regions are finite and never go back, the notes that
/// decoding finds are clean.
pub proof fn lemma_forward_times_decode_clean(
    times: Seq<Single>,
    presence: Seq<bool>,
    scores: Seq<Single>,
    regions: nat,
)
    requires
        regions < times.len(),
        times[0] == Single::zero_spec(),
        forall|i: int| 0 <= i < times.len() ==> (#[trigger] times[i]).finite(),
        forall|i: int, j: int| 0 <= i <= j < times.len() ==> times[i].at_most(times[j]),
    ensures
        is_clean(decoded(times, presence, scores, regions)),
        end_of(decoded(times, presence, scores, regions)).at_most(times[regions as int]),
    decreases regions,
{
    if regions > 0 {
        let i = regions - 1;
        let before = decoded(times, presence, scores, i as nat);
        lemma_forward_times_decode_clean(times, presence, scores, i as nat);
        assert(times[i].at_most(times[i + 1]));
        assert(times[0].at_most(times[i]));
        if presence[i] && !times[i + 1].ends_by(times[i]) {
            let note = NoteInfo { onset: times[i], offset: times[i + 1], pitch: scores[i] };
            let all = before.push(note);
            assert(note.onset.below(note.offset));
            assert forall|a: int, b: int| 0 <= a < b < all.len() implies all[a].offset.at_most(
                all[b].onset,
            ) by {
                if b == before.len() {
                    let last = before.len() - 1;
                    assert(before[last].onset.below(before[last].offset));
                    if a < last {
                        assert(before[a].offset.at_most(before[last].onset));
                    }
                }
            }
        }
    }
}

/// Where the times between regions are finite and never go back, extraction
/// keeps the regions as they are: what sorting and cleaning make of the decoded
/// notes is the decoded notes.
pub proof fn lemma_forward_times_extract_exactly(
    times: Seq<Single>,
    presence: Seq<bool>,
    scores: Seq<Single>,
    sorted: Seq<NoteInfo>,
)
    requires
        presence.len() < times.len(),
        times[0] == Single::zero_spec(),
        forall|i: int| 0 <= i < times.len() ==> (#[trigger] times[i]).finite(),
        forall|i: int, j: int| 0 <= i <= j < times.len() ==> times[i].at_most(times[j]),
        is_sorting_of(decoded(times, presence, scores, presence.len()), sorted),
    ensures
        cleaned(sorted) == decoded(times, presence, scores, presence.len()),
{
    let notes = decoded(times, presence, scores, presence.len());
    lemma_forward_times_decode_clean(times, presence, scores, presence.len());
    lemma_clean_notes_are_sorted(notes);
    lemma_sorted_notes_stay(notes, sorted);
    lemma_clean_notes_stay(notes);
}

/// Finds the clean notes in regions of given durations, voicings and pitches.
///
/// The notes are decoded, sorted and cleaned. The sum of two times is a matter
/// of floating point, and so of the caller.
pub fn extract_notes<F: Fn(Single, Single) -> Single>(
    durations: &Vec<Single>,
    presence: &Vec<bool>,
    scores: &Vec<Single>,
    sum: F,
) -> (clean: Vec<NoteInfo>)
    requires
        presence@.len() <= durations@.len(),
        presence@.len() <= scores@.len(),
        forall|a: Single, b: Single| call_requires(sum, (a, b)),
    ensures
        exists|times: Seq<Single>, sorted: Seq<NoteInfo>|
            {
                &&& #[trigger] are_boundaries(sum, durations@, presence@.len(), times)
                &&& #[trigger] is_sorting_of(
                    decoded(times, presence@, scores@, presence@.len()),
                    sorted,
                )
                &&& clean@ == cleaned(sorted)
            },
        is_clean(clean@),
{
    let mut notes: Vec<NoteInfo> = decode_notes(durations, presence, scores, sum);
    let ghost unsorted = notes@;
    sort_notes(&mut notes);
    proof {
        assert(is_sorting_of(unsorted, notes@));
        lemma_cleaned_notes_are_clean(notes@);
    }
    clean_notes(&notes)
}

// What the operations are for.
/// Every decoded note is that of one voiced region: the regions that are voiced
/// and do not end by their start give one note each, in order, from the time at
/// which the region starts to the time at which it ends, and with its own score as
/// the pitch. Gives the numbers of those regions.
pub proof fn lemma_each_voiced_region_gives_its_note(
    times: Seq<Single>,
    presence: Seq<bool>,
    scores: Seq<Single>,
    regions: nat,
) -> (origins: Seq<int>)
    ensures
        origins.len() == decoded(times, presence, scores, regions).len(),
        forall|k: int| 0 <= k < origins.len() ==> 0 <= #[trigger] origins[k] < regions,
        forall|k: int, l: int| 0 <= k < l < origins.len() ==> origins[k] < origins[l],
        forall|i: int|
            0 <= i < regions ==> (#[trigger] origins.contains(i) <==> presence[i] && !times[i
                + 1].ends_by(times[i])),
        forall|k: int|
            0 <= k < origins.len() ==> {
                let note = decoded(times, presence, scores, regions)[k];
                &&& note.onset == times[#[trigger] origins[k]]
                &&& note.offset == times[origins[k] + 1]
                &&& note.pitch == scores[origins[k]]
            },
    decreases regions,
{
    if regions == 0 {
        Seq::empty()
    } else {
        let last = regions - 1;
        let before = lemma_each_voiced_region_gives_its_note(
            times,
            presence,
            scores,
            last as nat,
        );
        let origins = if presence[last] && !times[last + 1].ends_by(times[last]) {
            before.push(last)
        } else {
            before
        };
        assert forall|i: int| 0 <= i < regions implies (#[trigger] origins.contains(i)
            <==> presence[i] && !times[i + 1].ends_by(times[i])) by {
            if i < last {
                if before.contains(i) {
                    let k = choose|k: int| 0 <= k < before.len() && before[k] == i;
                    assert(origins[k] == i);
                }
                if origins.contains(i) {
                    let k = choose|k: int| 0 <= k < origins.len() && origins[k] == i;
                    assert(before[k] == i);
                }
            } else {
                if origins.len() > before.len() {
                    assert(origins[origins.len() - 1] == last);
                } else {
                    assert(!origins.contains(last));
                }
            }
        }
        origins
    }
}

/// What decoding returns. There are times, from zero on, each a sum of the one
/// before and a duration, and the returned notes are those of the regions between
/// them that are voiced and do not end by their start: the same number of notes as
/// of such regions, in the order of the regions, and each with the start, the end
/// and the score of its own region. Gives the times and the numbers of the regions.
pub proof fn lemma_what_decoding_returns<F: Fn(Single, Single) -> Single>(
    sum: F,
    durations: Seq<Single>,
    presence: Seq<bool>,
    scores: Seq<Single>,
    notes: Seq<NoteInfo>,
) -> (found: (Seq<Single>, Seq<int>))
    requires
        exists|times: Seq<Single>| #[trigger]
            are_boundaries(sum, durations, presence.len(), times) && notes == decoded(
                times,
                presence,
                scores,
                presence.len(),
            ),
    ensures
        found.0.len() == presence.len() + 1,
        found.0[0].bits == 0,
        forall|i: int|
            0 <= i < presence.len() ==> call_ensures(
                sum,
                (found.0[i], durations[i]),
                #[trigger] found.0[i + 1],
            ),
        found.1.len() == notes.len(),
        forall|k: int| 0 <= k < found.1.len() ==> 0 <= #[trigger] found.1[k] < presence.len(),
        forall|k: int, l: int| 0 <= k < l < found.1.len() ==> found.1[k] < found.1[l],
        forall|i: int|
            0 <= i < presence.len() ==> (#[trigger] found.1.contains(i) <==> presence[i]
                && !found.0[i + 1].ends_by(found.0[i])),
        forall|k: int|
            0 <= k < notes.len() ==> {
                &&& (#[trigger] notes[k]).onset == found.0[found.1[k]]
                &&& notes[k].offset == found.0[found.1[k] + 1]
                &&& notes[k].pitch == scores[found.1[k]]
            },
{
    let times = choose|times: Seq<Single>| #[trigger]
        are_boundaries(sum, durations, presence.len(), times) && notes == decoded(
            times,
            presence,
            scores,
            presence.len(),
        );
    lemma_regions_follow_one_another(sum, durations, presence.len(), times);
    let origins = lemma_each_voiced_region_gives_its_note(
        times,
        presence,
        scores,
        presence.len(),
    );
    assert forall|k: int| 0 <= k < notes.len() implies {
        &&& (#[trigger] notes[k]).onset == times[origins[k]]
        &&& notes[k].offset == times[origins[k] + 1]
        &&& notes[k].pitch == scores[origins[k]]
    } by {
        assert(0 <= origins[k] < presence.len());
    }
    (times, origins)
}

/// Regions follow one another from zero on: the first starts at zero, and each
/// ends at a sum of its start and its duration, where the next one starts.
pub proof fn lemma_regions_follow_one_another<F: Fn(Single, Single) -> Single>(
    sum: F,
    durations: Seq<Single>,
    regions: nat,
    times: Seq<Single>,
)
    ensures
        are_boundaries(sum, durations, regions, times) <==> {
            &&& times.len() == regions + 1
            &&& times[0].bits == 0
            &&& forall|i: int|
                0 <= i < regions ==> call_ensures(
                    sum,
                    (times[i], durations[i]),
                    #[trigger] times[i + 1],
                )
        },
{
}

/// What clean notes are: each ends after it starts, none starts before zero, and
/// each starts no sooner than every note in front of it has ended.
pub proof fn lemma_what_clean_notes_are(notes: Seq<NoteInfo>, i: int, j: int)
    requires
        is_clean(notes),
        0 <= i < notes.len(),
        0 <= j < notes.len(),
    ensures
        notes[i].onset.below(notes[i].offset),
        notes[i].onset.bits <= 0x7f80_0000 || notes[i].onset.bits == 0x8000_0000,
        i < j ==> !notes[j].onset.below(notes[i].offset),
        i < j ==> notes[i].onset.below(notes[j].onset),
{
    assert(notes[i].onset.below(notes[i].offset));
    if i < j {
        assert(notes[i].offset.at_most(notes[j].onset));
    }
}

/// How two notes stand: the one that starts sooner is in front; of two that start
/// together, the one that ends sooner; of two that also end together, the lower.
pub proof fn lemma_how_notes_stand(a: NoteInfo, b: NoteInfo)
    ensures
        a.against(b) == Order::Less <==> {
            ||| a.onset.below(b.onset)
            ||| !b.onset.below(a.onset) && a.offset.below(b.offset)
            ||| !b.onset.below(a.onset) && !b.offset.below(a.offset) && a.pitch.below(b.pitch)
        },
        a.against(b) == Order::Greater <==> b.against(a) == Order::Less,
        a.not_after(b) <==> !(b.against(a) == Order::Less),
{
}

/// Sorting keeps the notes, puts none behind one that starts later, that starts
/// together with it and ends later, or that does both together with it and is
/// higher, and leaves notes that are equal in all three as they stood. This holds
/// of every number of notes, where none of their numbers is a NaN.
pub proof fn lemma_what_sorting_does(notes: Seq<NoteInfo>, sorted: Seq<NoteInfo>)
    requires
        is_sorting_of(notes, sorted),
        forall|i: int|
            0 <= i < notes.len() ==> (#[trigger] notes[i]).onset.bits % 0x8000_0000 <= 0x7f80_0000
                && notes[i].offset.bits % 0x8000_0000 <= 0x7f80_0000 && notes[i].pitch.bits
                % 0x8000_0000 <= 0x7f80_0000,
    ensures
        sorted.to_multiset() == notes.to_multiset(),
        sorted.len() == notes.len(),
        forall|i: int, j: int|
            0 <= i < j < sorted.len() ==> {
                let a = #[trigger] sorted[i];
                let b = #[trigger] sorted[j];
                &&& !b.onset.below(a.onset)
                &&& b.offset.below(a.offset) ==> a.onset.below(b.onset)
                &&& b.pitch.below(a.pitch) ==> a.onset.below(b.onset) || a.offset.below(b.offset)
            },
        forall|note: NoteInfo| #[trigger]
            notes.contains(note) ==> sorted.filter(
                |other: NoteInfo|
                    !other.onset.below(note.onset) && !note.onset.below(other.onset)
                        && !other.offset.below(note.offset) && !note.offset.below(other.offset)
                        && !other.pitch.below(note.pitch) && !note.pitch.below(other.pitch),
            ) == notes.filter(
                |other: NoteInfo|
                    !other.onset.below(note.onset) && !note.onset.below(other.onset)
                        && !other.offset.below(note.offset) && !note.offset.below(other.offset)
                        && !other.pitch.below(note.pitch) && !note.pitch.below(other.pitch),
            ),
{
    assert forall|i: int| 0 <= i < notes.len() implies (#[trigger] notes[i]).without_nan() by {
        crate::single::lemma_bits_of_magnitude(notes[i].onset);
        crate::single::lemma_bits_of_magnitude(notes[i].offset);
        crate::single::lemma_bits_of_magnitude(notes[i].pitch);
    }
    lemma_ordered_without_nan(notes);
    lemma_same_notes(notes, sorted);
    notes.to_multiset_ensures();
    sorted.to_multiset_ensures();
    assert forall|i: int, j: int| 0 <= i < j < sorted.len() implies {
        let a = #[trigger] sorted[i];
        let b = #[trigger] sorted[j];
        &&& !b.onset.below(a.onset)
        &&& b.offset.below(a.offset) ==> a.onset.below(b.onset)
        &&& b.pitch.below(a.pitch) ==> a.onset.below(b.onset) || a.offset.below(b.offset)
    } by {
        assert(sorted[i].not_after(sorted[j]));
    }
    assert forall|note: NoteInfo| #[trigger] notes.contains(note) implies sorted.filter(
        |other: NoteInfo|
            !other.onset.below(note.onset) && !note.onset.below(other.onset)
                && !other.offset.below(note.offset) && !note.offset.below(other.offset)
                && !other.pitch.below(note.pitch) && !note.pitch.below(other.pitch),
    ) == notes.filter(
        |other: NoteInfo|
            !other.onset.below(note.onset) && !note.onset.below(other.onset)
                && !other.offset.below(note.offset) && !note.offset.below(other.offset)
                && !other.pitch.below(note.pitch) && !note.pitch.below(other.pitch),
    ) by {
        let level = |other: NoteInfo|
            !other.onset.below(note.onset) && !note.onset.below(other.onset)
                && !other.offset.below(note.offset) && !note.offset.below(other.offset)
                && !other.pitch.below(note.pitch) && !note.pitch.below(other.pitch);
        let equal = |other: NoteInfo| other.against(note) == Order::Same;
        assert(level =~= equal);
        assert(equals_of(sorted, note) == equals_of(notes, note));
    }
}

/// Sorting is settled wherever the order is consistent, with NaNs or without: where
/// of three notes the first may stand in front of the second, and the second in
/// front of the third, only if the first may stand in front of the third, the
/// sorted notes stand in order, and equal notes as they stood.
pub proof fn lemma_where_sorting_is_settled(notes: Seq<NoteInfo>, sorted: Seq<NoteInfo>)
    requires
        is_sorting_of(notes, sorted),
        forall|i: int, j: int, k: int|
            0 <= i < notes.len() && 0 <= j < notes.len() && 0 <= k < notes.len()
                && #[trigger] notes[i].against(notes[j]) != Order::Greater
                && #[trigger] notes[j].against(notes[k]) != Order::Greater ==> notes[i].against(
                notes[k],
            ) != Order::Greater,
    ensures
        forall|i: int, j: int|
            0 <= i < j < sorted.len() ==> #[trigger] sorted[i].against(sorted[j])
                != Order::Greater,
        forall|note: NoteInfo| #[trigger]
            notes.contains(note) ==> sorted.filter(
                |other: NoteInfo| other.against(note) == Order::Same,
            ) == notes.filter(|other: NoteInfo| other.against(note) == Order::Same),
{
    assert forall|a: NoteInfo, b: NoteInfo, c: NoteInfo|
        notes.contains(a) && notes.contains(b) && notes.contains(c) && #[trigger] a.not_after(b)
            && #[trigger] b.not_after(c) implies a.not_after(c) by {
        let i = choose|i: int| 0 <= i < notes.len() && notes[i] == a;
        let j = choose|j: int| 0 <= j < notes.len() && notes[j] == b;
        let k = choose|k: int| 0 <= k < notes.len() && notes[k] == c;
        assert(notes[i].against(notes[j]) != Order::Greater);
        assert(notes[j].against(notes[k]) != Order::Greater);
    }
    assert forall|i: int, j: int| 0 <= i < j < sorted.len() implies #[trigger] sorted[i].against(
        sorted[j],
    ) != Order::Greater by {
        assert(sorted[i].not_after(sorted[j]));
    }
    assert forall|note: NoteInfo| #[trigger] notes.contains(note) implies sorted.filter(
        |other: NoteInfo| other.against(note) == Order::Same,
    ) == notes.filter(|other: NoteInfo| other.against(note) == Order::Same) by {
        assert(equals_of(sorted, note) == equals_of(notes, note));
    }
}

/// What cleaning does, note by note. `ends` says when the notes kept so far end,
/// before each note and after the last: at first at zero. A note is kept where it
/// ends after that and after its own start. It then keeps its end and its pitch,
/// and starts when it did, or when those before it end if that is later. Gives
/// those ends, and the numbers of the notes that are kept.
pub proof fn lemma_what_cleaning_does(notes: Seq<NoteInfo>) -> (kept: (Seq<Single>, Seq<int>))
    ensures
        kept.0.len() == notes.len() + 1,
        kept.0[0].bits == 0,
        forall|i: int|
            0 <= i < notes.len() ==> {
                let note = #[trigger] notes[i];
                kept.1.contains(i) <==> kept.0[i].below(note.offset) && (note.onset.bits
                    % 0x8000_0000 > 0x7f80_0000 || note.onset.below(note.offset))
            },
        forall|i: int|
            0 <= i < notes.len() ==> #[trigger] kept.0[i + 1] == if kept.1.contains(i) {
                notes[i].offset
            } else {
                kept.0[i]
            },
        kept.1.len() == cleaned(notes).len(),
        forall|k: int| 0 <= k < kept.1.len() ==> 0 <= #[trigger] kept.1[k] < notes.len(),
        forall|k: int, l: int| 0 <= k < l < kept.1.len() ==> kept.1[k] < kept.1[l],
        forall|k: int|
            0 <= k < kept.1.len() ==> {
                let clean = cleaned(notes)[k];
                let note = notes[#[trigger] kept.1[k]];
                let end = kept.0[kept.1[k]];
                &&& clean.offset == note.offset
                &&& clean.pitch == note.pitch
                &&& clean.onset == if note.onset.bits % 0x8000_0000 > 0x7f80_0000
                    || note.onset.below(end) {
                    end
                } else {
                    note.onset
                }
            },
        kept.0.last() == end_of(cleaned(notes)),
        !kept.0.last().nan(),
    decreases notes.len(),
{
    if notes.len() == 0 {
        (seq![Single::zero_spec()], Seq::empty())
    } else {
        let some = notes.drop_last();
        let (some_ends, some_kept) = lemma_what_cleaning_does(some);
        let last = notes.len() - 1;
        let note = notes.last();
        let end = some_ends.last();
        crate::single::lemma_bits_of_magnitude(note.onset);
        let trim = trimmed(note, end);
        let keeps = trim.onset.below(trim.offset);
        let now_kept = if keeps {
            some_kept.push(last)
        } else {
            some_kept
        };
        let ends = some_ends.push(
            if keeps {
                note.offset
            } else {
                end
            },
        );
        assert(forall|i: int| 0 <= i < some.len() ==> some[i] == notes[i]);
        assert forall|i: int| 0 <= i < last implies (now_kept.contains(i) <==> some_kept.contains(
            i,
        )) by {
            if some_kept.contains(i) {
                let k = choose|k: int| 0 <= k < some_kept.len() && some_kept[k] == i;
                assert(now_kept[k] == i);
            }
            if now_kept.contains(i) {
                let k = choose|k: int| 0 <= k < now_kept.len() && now_kept[k] == i;
                assert(some_kept[k] == i);
            }
        }
        assert(now_kept.contains(last) <==> keeps) by {
            if keeps {
                assert(now_kept[now_kept.len() - 1] == last);
            }
        }
        assert forall|i: int| 0 <= i < notes.len() implies {
            let note = #[trigger] notes[i];
            now_kept.contains(i) <==> ends[i].below(note.offset) && (note.onset.bits % 0x8000_0000
                > 0x7f80_0000 || note.onset.below(note.offset))
        } by {
            if i < last {
                assert(some[i] == notes[i]);
                assert(ends[i] == some_ends[i]);
            }
        }
        assert forall|i: int| 0 <= i < notes.len() implies #[trigger] ends[i + 1]
            == if now_kept.contains(i) {
            notes[i].offset
        } else {
            ends[i]
        } by {
            if i < last {
                assert(some_ends[i + 1] == ends[i + 1]);
                assert(some[i] == notes[i]);
            }
        }
        assert forall|k: int| 0 <= k < now_kept.len() implies {
            let clean = cleaned(notes)[k];
            let note = notes[#[trigger] now_kept[k]];
            let end = ends[now_kept[k]];
            &&& clean.offset == note.offset
            &&& clean.pitch == note.pitch
            &&& clean.onset == if note.onset.bits % 0x8000_0000 > 0x7f80_0000 || note.onset.below(
                end,
            ) {
                end
            } else {
                note.onset
            }
        } by {
            if k < some_kept.len() {
                assert(now_kept[k] == some_kept[k]);
                assert(some[some_kept[k]] == notes[some_kept[k]]);
                assert(ends[some_kept[k]] == some_ends[some_kept[k]]);
            }
        }
        (ends, now_kept)
    }
}

} // verus!
