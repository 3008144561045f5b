//! The rows of the table that shows a division of the die.
//!
//! Every range of the division gives one row: the range as text, the label of
//! the range, and, for the range of an event, the probability with which the
//! event comes up. The reroll range has no probability. The library states
//! the probability as an exact fraction and leaves its notation to the
//! caller.

use vstd::prelude::*;
use vstd::string::{StrSliceExecFns, StringExecFns};
use crate::decimal::{decimal_digits, decimal_text};
use crate::event::{Event, EventView};
use crate::partition::{partition, ranges, sum_weights, total_weight, PartitionError};

verus! {

/// The probability of an event among the events of a list, were the die
/// rolled until it shows no reroll: `weight` in `total_weight`.
#[derive(Debug, Clone, Copy, PartialEq, Eq, Structural)]
pub struct Probability {
    pub weight: u32,
    pub total_weight: u128,
}

/// One row of the table.
#[derive(Debug, PartialEq, Eq)]
pub struct TableRow {
    pub range: String,
    pub event_name: String,
    pub probability: Option<Probability>,
}

/// What a [`TableRow`] holds, as mathematical values.
pub ghost struct TableRowView {
    pub range: Seq<char>,
    pub event_name: Seq<char>,
    pub probability: Option<Probability>,
}

impl View for TableRow {
    type V = TableRowView;

    open spec fn view(&self) -> TableRowView {
        TableRowView {
            range: self.range@,
            event_name: self.event_name@,
            probability: self.probability,
        }
    }
}

impl DeepView for TableRow {
    type V = TableRowView;

    open spec fn deep_view(&self) -> TableRowView {
        self@
    }
}

/// A run of `n` spaces.
pub open spec fn spaces(n: nat) -> Seq<char> {
    Seq::new(n, |i: int| ' ')
}

/// The number of spaces that bring a text of `len` characters to `width`
/// characters: none where the text is that long already.
pub open spec fn padding(len: nat, width: nat) -> nat {
    if len < width {
        (width - len) as nat
    } else {
        0
    }
}

/// The number of characters that a bound takes in a range text for a die
/// with `d` faces: the number of digits of `d`.
pub open spec fn label_width(d: nat) -> nat {
    decimal_digits(d).len()
}

/// The text of the range `lower..=upper`: the two bounds in decimal notation
/// with ` - ` between them, the lower bound with spaces before it and the
/// upper bound with spaces behind it, so that each takes `width` characters
/// at least.
pub open spec fn range_label(lower: nat, upper: nat, width: nat) -> Seq<char> {
    let low = decimal_digits(lower);
    let up = decimal_digits(upper);
    spaces(padding(low.len(), width)) + low + seq![' ', '-', ' '] + up + spaces(
        padding(up.len(), width),
    )
}

/// The row of the range at position `k` of the division of `1..=d` among
/// `events`.
pub open spec fn row(d: nat, events: Seq<EventView>, k: int) -> TableRowView {
    let entry = ranges(d, events)[k];
    TableRowView {
        range: range_label(entry.lower, entry.upper, label_width(d)),
        event_name: entry.label,
        probability: if k < events.len() {
            Some(
                Probability {
                    weight: events[k].weight as u32,
                    total_weight: total_weight(events) as u128,
                },
            )
        } else {
            None
        },
    }
}

/// The rows of the division of `1..=d` among `events`, one for each range
/// and in the order of the ranges.
pub open spec fn rows(d: nat, events: Seq<EventView>) -> Seq<TableRowView> {
    Seq::new(ranges(d, events).len(), |k: int| row(d, events, k))
}

/// Writes `n` spaces behind what `text` holds.
fn append_spaces(text: &mut String, n: usize)
    ensures
        final(text)@ == old(text)@ + spaces(n as nat),
{
    let mut k: usize = 0;
    while k < n
        invariant
            k <= n,
            text@ == old(text)@ + spaces(k as nat),
        decreases n - k,
    {
        proof {
            reveal_strlit(" ");
            assert(spaces(k as nat) + " "@ =~= spaces((k + 1) as nat));
        }
        text.append(" ");
        k += 1;
    }
}

/// The text of the range `lower..=upper`, each bound taking `width`
/// characters at least.
pub fn range_label_text(lower: u64, upper: u64, width: usize) -> (text: String)
    ensures
        text@ == range_label(lower as nat, upper as nat, width as nat),
{
    let low = decimal_text(lower);
    let up = decimal_text(upper);
    let low_len = low.as_str().unicode_len();
    let up_len = up.as_str().unicode_len();
    let mut text = String::new();
    if low_len < width {
        append_spaces(&mut text, width - low_len);
    }
    text.append(low.as_str());
    proof {
        reveal_strlit(" - ");
    }
    text.append(" - ");
    text.append(up.as_str());
    if up_len < width {
        append_spaces(&mut text, width - up_len);
    }
    assert(text@ =~= range_label(lower as nat, upper as nat, width as nat));
    text
}

/// Divides the faces `1..=d` among `events` and lays the division out as the
/// rows of a table.
///
/// The rows stand in the order of the ranges. The bounds of every range take
/// as many characters as `d` has digits. The row of an event holds its
/// probability and the row of the reroll range holds none. As the division
/// itself, this fails exactly when the die has fewer faces than the events
/// have weight in total, and asks for a list with some weight in it.
pub fn table_rows(d: u32, events: &[Event]) -> (r: Result<Vec<TableRow>, PartitionError>)
    requires
        total_weight(events.deep_view()) >= 1,
    ensures
        r is Err <==> total_weight(events.deep_view()) > d,
        r matches Err(PartitionError::InsufficientSides { d: sides, total_weight: total })
            ==> sides == d && total == total_weight(events.deep_view()),
        r matches Ok(table) ==> table.deep_view() == rows(d as nat, events.deep_view()),
{
    let ghost listed = events.deep_view();
    let entries = match partition(d, events) {
        Ok(entries) => entries,
        Err(error) => {
            return Err(error);
        },
    };
    let total = sum_weights(events);
    let width = decimal_text(d as u64).as_str().unicode_len();
    let mut table: Vec<TableRow> = Vec::new();
    let mut k: usize = 0;
    while k < entries.len()
        invariant
            k <= entries.len(),
            listed == events.deep_view(),
            entries.deep_view() == ranges(d as nat, listed),
            total == total_weight(listed),
            width == label_width(d as nat),
            table.len() == k,
            forall|j: int| 0 <= j < k ==> (#[trigger] table@[j])@ == row(d as nat, listed, j),
        decreases entries.len() - k,
    {
        let entry = &entries[k];
        let probability = if k < events.len() {
            Some(Probability { weight: events[k].weight, total_weight: total })
        } else {
            None
        };
        proof {
            assert(entries.deep_view()[k as int] == entry@);
            if k < events.len() {
                assert(listed[k as int] == events@[k as int]@);
            }
        }
        table.push(
            TableRow {
                range: range_label_text(entry.lower, entry.upper, width),
                event_name: entry.label.clone(),
                probability,
            },
        );
        k += 1;
    }
    assert(table.deep_view() =~= rows(d as nat, listed));
    Ok(table)
}

} // verus!
