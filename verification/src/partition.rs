//! Assigning the faces of a die to weighted events.
//!
//! The die has the faces `1..=d`. One unit of weight is worth
//! `d / total_weight` faces, rounded down, and the events take their faces in
//! the order in which they are listed: the first event starts at face 1 and
//! every other event starts on the face after the one where its predecessor
//! ends. Faces that remain after the last event form one more range, labelled
//! [`REROLL_LABEL`].
//!
//! An event of weight zero takes no face. Its range is empty: it keeps its
//! place in the list, with an upper bound one below its lower bound.

use vstd::prelude::*;
use vstd::arithmetic::div_mod::lemma_fundamental_div_mod;
use vstd::arithmetic::mul::{lemma_mul_inequality, lemma_mul_is_distributive_add_other_way};
use crate::event::{Event, EventView};

verus! {

/// The label of the faces that are left to no event.
pub const REROLL_LABEL: &'static str = "[Reroll]";

/// A run of consecutive faces, `lower..=upper`, and what rolling one of them
/// means: the name of an event, or [`REROLL_LABEL`].
///
/// The bounds are wider than the number of faces so that the empty range
/// behind the last face of the largest die can be written down.
#[derive(Debug, PartialEq, Eq)]
pub struct RangeEntry {
    pub lower: u64,
    pub upper: u64,
    pub label: String,
}

/// What a [`RangeEntry`] holds, as mathematical values.
pub ghost struct RangeEntryView {
    pub lower: nat,
    pub upper: nat,
    pub label: Seq<char>,
}

impl View for RangeEntry {
    type V = RangeEntryView;

    open spec fn view(&self) -> RangeEntryView {
        RangeEntryView { lower: self.lower as nat, upper: self.upper as nat, label: self.label@ }
    }
}

impl DeepView for RangeEntry {
    type V = RangeEntryView;

    open spec fn deep_view(&self) -> RangeEntryView {
        self@
    }
}

/// Why a die cannot be divided among a list of events.
#[derive(Debug, Clone, Copy, PartialEq, Eq, Structural)]
pub enum PartitionError {
    /// The die has `d` faces, fewer than the `total_weight` units of weight
    /// that each ask for a face.
    InsufficientSides { d: u32, total_weight: u128 },
}

/// The sum of the weights of `events`.
pub open spec fn total_weight(events: Seq<EventView>) -> nat
    decreases events.len(),
{
    if events.len() == 0 {
        0
    } else {
        total_weight(events.drop_last()) + events.last().weight
    }
}

/// The number of faces that one unit of weight is worth on a die with `d`
/// faces.
pub open spec fn increment(d: nat, events: Seq<EventView>) -> nat {
    d / total_weight(events)
}

/// The number of faces that the first `k` events take together, which is also
/// the face on which the last of them ends.
pub open spec fn faces_taken(d: nat, events: Seq<EventView>, k: int) -> nat {
    total_weight(events.take(k)) * increment(d, events)
}

/// Faces remain after the last event.
pub open spec fn has_reroll(d: nat, events: Seq<EventView>) -> bool {
    faces_taken(d, events, events.len() as int) < d
}

/// The range of the event at position `k`.
pub open spec fn event_range(d: nat, events: Seq<EventView>, k: int) -> RangeEntryView {
    RangeEntryView {
        lower: faces_taken(d, events, k) + 1,
        upper: faces_taken(d, events, k + 1),
        label: events[k].name,
    }
}

/// The range of the faces that remain after the last event.
pub open spec fn reroll_range(d: nat, events: Seq<EventView>) -> RangeEntryView {
    RangeEntryView {
        lower: faces_taken(d, events, events.len() as int) + 1,
        upper: d,
        label: REROLL_LABEL@,
    }
}

/// The ranges of the first `k` events, in the order of the events.
pub open spec fn event_ranges(d: nat, events: Seq<EventView>, k: int) -> Seq<RangeEntryView> {
    Seq::new(k as nat, |j: int| event_range(d, events, j))
}

/// The division of the faces `1..=d` among `events`: one range for each
/// event, in the order of the events, and behind them the reroll range where
/// faces remain.
pub open spec fn ranges(d: nat, events: Seq<EventView>) -> Seq<RangeEntryView> {
    let of_events = event_ranges(d, events, events.len() as int);
    if has_reroll(d, events) {
        of_events.push(reroll_range(d, events))
    } else {
        of_events
    }
}

/// The number of faces in a range.
pub open spec fn width(entry: RangeEntryView) -> int {
    entry.upper + 1 - entry.lower
}

/// The number of faces in all of `entries` together.
pub open spec fn total_width(entries: Seq<RangeEntryView>) -> int
    decreases entries.len(),
{
    if entries.len() == 0 {
        0
    } else {
        total_width(entries.drop_last()) + width(entries.last())
    }
}

/// Every entry but the first starts on the face after the one where the
/// entry before it ends.
pub open spec fn contiguous(entries: Seq<RangeEntryView>) -> bool {
    forall|k: int| 0 < k < entries.len() ==> (#[trigger] entries[k]).lower == entries[k - 1].upper + 1
}

/// `entries` divide the faces `1..=d` without a gap or an overlap.
pub open spec fn covers(entries: Seq<RangeEntryView>, d: nat) -> bool {
    &&& entries.len() > 0
    &&& entries.first().lower == 1
    &&& entries.last().upper == d
    &&& contiguous(entries)
}

/// The weights of the first `k` events sum to no more than the weights of
/// all of them.
pub proof fn lemma_total_weight_prefix(events: Seq<EventView>, k: int)
    requires
        0 <= k <= events.len(),
    ensures
        total_weight(events.take(k)) <= total_weight(events),
    decreases events.len() - k,
{
    if k == events.len() {
        assert(events.take(k) == events);
    } else {
        lemma_total_weight_prefix(events.drop_last(), k);
        assert(events.drop_last().take(k) == events.take(k));
    }
}

/// Taking one more event adds its weight.
pub proof fn lemma_total_weight_step(events: Seq<EventView>, k: int)
    requires
        0 <= k < events.len(),
    ensures
        total_weight(events.take(k + 1)) == total_weight(events.take(k)) + events[k].weight,
{
    assert(events.take(k + 1).drop_last() == events.take(k));
}

/// A list that holds an event, and no event of weight zero, has a total
/// weight of at least 1.
pub proof fn lemma_total_weight_positive(events: Seq<EventView>)
    requires
        events.len() >= 1,
        forall|k: int| 0 <= k < events.len() ==> (#[trigger] events[k]).weight >= 1,
    ensures
        total_weight(events) >= 1,
{
}

/// Before the first event no face is taken.
pub proof fn lemma_faces_taken_none(d: nat, events: Seq<EventView>)
    ensures
        faces_taken(d, events, 0) == 0,
{
    assert(events.take(0) == Seq::<EventView>::empty());
    assert(0 * increment(d, events) == 0) by (nonlinear_arith);
}

/// Each event takes as many faces as its weight times the increment, and
/// the events never take more faces than the die has.
pub proof fn lemma_faces_taken(d: nat, events: Seq<EventView>, k: int)
    requires
        total_weight(events) >= 1,
        0 <= k <= events.len(),
    ensures
        faces_taken(d, events, k) <= d,
        k < events.len() ==> faces_taken(d, events, k + 1) == faces_taken(d, events, k)
            + events[k].weight * increment(d, events),
{
    let total = total_weight(events) as int;
    let unit = increment(d, events) as int;
    lemma_total_weight_prefix(events, k);
    lemma_mul_inequality(total_weight(events.take(k)) as int, total, unit);
    lemma_fundamental_div_mod(d as int, total);
    if k < events.len() {
        lemma_total_weight_step(events, k);
        lemma_mul_is_distributive_add_other_way(
            unit,
            total_weight(events.take(k)) as int,
            events[k].weight as int,
        );
    }
}

/// The ranges of the first `k` events hold as many faces as those events
/// take.
pub proof fn lemma_event_ranges_width(d: nat, events: Seq<EventView>, k: int)
    requires
        total_weight(events) >= 1,
        0 <= k <= events.len(),
    ensures
        total_width(event_ranges(d, events, k)) == faces_taken(d, events, k),
    decreases k,
{
    if k == 0 {
        lemma_faces_taken_none(d, events);
    } else {
        lemma_event_ranges_width(d, events, k - 1);
        lemma_faces_taken(d, events, k - 1);
        assert(event_ranges(d, events, k).drop_last() == event_ranges(d, events, k - 1));
    }
}

/// On a die that has a face for every unit of weight, the ranges divide the
/// faces `1..=d` without a gap or an overlap.
pub proof fn lemma_ranges_cover(d: nat, events: Seq<EventView>)
    requires
        1 <= total_weight(events) <= d,
    ensures
        covers(ranges(d, events), d),
{
    let n = events.len() as int;
    let entries = ranges(d, events);
    assert(events.take(n) == events);
    lemma_faces_taken_none(d, events);
    lemma_faces_taken(d, events, n);
    assert(entries.first() == event_range(d, events, 0));
    assert forall|k: int| 0 < k < entries.len() implies (#[trigger] entries[k]).lower
        == entries[k - 1].upper + 1 by {
        assert(entries[k - 1] == event_range(d, events, k - 1));
    }
}

/// The range of every event holds as many faces as its weight times the
/// increment.
pub proof fn lemma_ranges_proportional(d: nat, events: Seq<EventView>, k: int)
    requires
        total_weight(events) >= 1,
        0 <= k < events.len(),
    ensures
        ranges(d, events)[k] == event_range(d, events, k),
        width(ranges(d, events)[k]) == events[k].weight * increment(d, events),
{
    lemma_faces_taken(d, events, k);
}

/// On a die that has a face for every unit of weight, the range of an event
/// that has some weight is not empty and lies within `1..=d`, and so does
/// the reroll range.
pub proof fn lemma_ranges_within(d: nat, events: Seq<EventView>, k: int)
    requires
        1 <= total_weight(events) <= d,
        0 <= k < ranges(d, events).len(),
        k < events.len() ==> events[k].weight >= 1,
    ensures
        1 <= ranges(d, events)[k].lower <= ranges(d, events)[k].upper <= d,
{
    let n = events.len() as int;
    if k < n {
        lemma_faces_taken(d, events, k);
        lemma_faces_taken(d, events, k + 1);
        lemma_fundamental_div_mod(d as int, total_weight(events) as int);
        assert(increment(d, events) >= 1) by (nonlinear_arith)
            requires
                1 <= total_weight(events) <= d,
                d == total_weight(events) * increment(d, events) + d % total_weight(events),
                d % total_weight(events) < total_weight(events),
        ;
        lemma_mul_inequality(1, events[k].weight as int, increment(d, events) as int);
    } else {
        lemma_faces_taken(d, events, n);
    }
}

/// The ranges hold `d` faces together.
pub proof fn lemma_ranges_total_width(d: nat, events: Seq<EventView>)
    requires
        total_weight(events) >= 1,
    ensures
        total_width(ranges(d, events)) == d,
{
    let n = events.len() as int;
    lemma_event_ranges_width(d, events, n);
    lemma_faces_taken(d, events, n);
    if has_reroll(d, events) {
        assert(ranges(d, events).drop_last() == event_ranges(d, events, n));
    }
}

/// There is a reroll range exactly when the total weight does not divide the
/// number of faces. A die with one face for each unit of weight has none.
pub proof fn lemma_reroll_iff_remainder(d: nat, events: Seq<EventView>)
    requires
        total_weight(events) >= 1,
    ensures
        has_reroll(d, events) <==> d % total_weight(events) != 0,
        total_weight(events) == d ==> !has_reroll(d, events),
        ranges(d, events).len() == events.len() + if has_reroll(d, events) { 1int } else { 0int },
{
    assert(events.take(events.len() as int) == events);
    lemma_fundamental_div_mod(d as int, total_weight(events) as int);
    assert(total_weight(events) * increment(d, events) == increment(d, events) * total_weight(
        events,
    )) by (nonlinear_arith);
    if total_weight(events) == d {
        assert(d % d == 0) by (nonlinear_arith)
            requires
                d >= 1,
        ;
    }
}

/// Adds up the weights of `events`. The sum is kept in 128 bits, which no
/// list that fits in memory can exceed.
pub fn sum_weights(events: &[Event]) -> (total: u128)
    ensures
        total == total_weight(events.deep_view()),
{
    let ghost weights = events.deep_view();
    let mut total: u128 = 0;
    let mut k: usize = 0;
    while k < events.len()
        invariant
            k <= events.len(),
            weights == events.deep_view(),
            total == total_weight(weights.take(k as int)),
            total <= k * u32::MAX,
        decreases events.len() - k,
    {
        proof {
            lemma_total_weight_step(weights, k as int);
        }
        total = total + events[k].weight as u128;
        k += 1;
    }
    proof {
        assert(weights.take(k as int) == weights);
    }
    total
}

/// Appends the range `lower..=upper` under `label` to `entries`.
fn push_range(entries: &mut Vec<RangeEntry>, lower: u64, upper: u64, label: String)
    ensures
        final(entries).deep_view() == old(entries).deep_view().push(
            RangeEntryView { lower: lower as nat, upper: upper as nat, label: label@ },
        ),
{
    entries.push(RangeEntry { lower, upper, label });
    assert(final(entries).deep_view() =~= old(entries).deep_view().push(
        RangeEntryView { lower: lower as nat, upper: upper as nat, label: label@ },
    ));
}

/// Divides the faces `1..=d` among `events`.
///
/// The events are served in the order of the list. Each receives
/// `weight * (d / total_weight)` consecutive faces, and the faces that
/// remain behind the last event, if any, form a last range under
/// [`REROLL_LABEL`]. The division fails, and yields no range at all, exactly
/// when the die has fewer faces than the events have weight in total.
///
/// The events must have some weight between them: a list that is empty, or
/// that holds only events of weight zero, cannot be served.
pub fn partition(d: u32, events: &[Event]) -> (r: Result<Vec<RangeEntry>, PartitionError>)
    requires
        total_weight(events.deep_view()) >= 1,
    ensures
        r is Err <==> total_weight(events.deep_view()) > d,
        r matches Err(PartitionError::InsufficientSides { d: sides, total_weight: total })
            ==> sides == d && total == total_weight(events.deep_view()),
        r matches Ok(entries) ==> {
            let listed = events.deep_view();
            let faces = entries.deep_view();
            &&& faces == ranges(d as nat, listed)
            &&& covers(faces, d as nat)
            &&& forall|k: int|
                0 <= k < listed.len() ==> width(#[trigger] faces[k]) == listed[k].weight
                    * increment(d as nat, listed)
            &&& total_width(faces) == d
            &&& total_weight(listed) == d ==> faces.len() == listed.len()
            &&& forall|k: int|
                0 <= k < faces.len() && (k < listed.len() ==> listed[k].weight >= 1) ==> 1 <= (
                #[trigger] faces[k]).lower <= faces[k].upper <= d
        },
{
    let ghost listed = events.deep_view();
    let total = sum_weights(events);
    if total > d as u128 {
        return Err(PartitionError::InsufficientSides { d, total_weight: total });
    }
    let increment: u64 = d as u64 / total as u64;
    let mut entries: Vec<RangeEntry> = Vec::new();
    let mut cursor: u64 = 0;
    let mut k: usize = 0;
    proof {
        lemma_faces_taken_none(d as nat, listed);
        assert(entries.deep_view() == event_ranges(d as nat, listed, 0));
    }
    while k < events.len()
        invariant
            k <= events.len(),
            listed == events.deep_view(),
            total_weight(listed) >= 1,
            increment == self::increment(d as nat, listed),
            cursor == faces_taken(d as nat, listed, k as int),
            entries.deep_view() == event_ranges(d as nat, listed, k as int),
        decreases events.len() - k,
    {
        proof {
            lemma_faces_taken(d as nat, listed, k as int);
            lemma_faces_taken(d as nat, listed, k + 1);
            assert(event_ranges(d as nat, listed, k + 1) == event_ranges(
                d as nat,
                listed,
                k as int,
            ).push(event_range(d as nat, listed, k as int)));
        }
        let upper = cursor + events[k].weight as u64 * increment;
        push_range(&mut entries, cursor + 1, upper, events[k].name.clone());
        cursor = upper;
        k += 1;
    }
    if cursor < d as u64 {
        push_range(&mut entries, cursor + 1, d as u64, REROLL_LABEL.to_owned());
    }
    proof {
        lemma_ranges_cover(d as nat, listed);
        lemma_ranges_total_width(d as nat, listed);
        lemma_reroll_iff_remainder(d as nat, listed);
        assert forall|k: int| 0 <= k < listed.len() implies width(
            #[trigger] ranges(d as nat, listed)[k],
        ) == listed[k].weight * self::increment(d as nat, listed) by {
            lemma_ranges_proportional(d as nat, listed, k);
        }
        assert forall|k: int|
            0 <= k < ranges(d as nat, listed).len() && (k < listed.len() ==> listed[k].weight
                >= 1) implies 1 <= (#[trigger] ranges(d as nat, listed)[k]).lower <= ranges(
            d as nat,
            listed,
        )[k].upper <= d by {
            lemma_ranges_within(d as nat, listed, k);
        }
    }
    Ok(entries)
}

} // verus!
