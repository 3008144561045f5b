//! Events and their textual form.
//!
//! An event is written as `name` or as `name:weight`. The weight is the run
//! of decimal digits that ends the text, provided that a colon stands directly
//! before the run and at least one character stands before the colon. Text of
//! any other shape is a name on its own, and the event then has weight 1.

use vstd::prelude::*;
use vstd::string::StrSliceExecFns;
use crate::decimal::{
    char_is_digit, decimal_digits, decimal_value, is_digit, lemma_decimal_digits, parse_decimal,
};

verus! {

/// A named outcome and its share of the die, relative to the other events.
///
/// The weight may be zero: such an event is listed, and never comes up.
#[derive(Debug, PartialEq, Eq)]
pub struct Event {
    pub name: String,
    pub weight: u32,
}

/// What an [`Event`] holds, as mathematical values.
pub ghost struct EventView {
    pub name: Seq<char>,
    pub weight: nat,
}

impl View for Event {
    type V = EventView;

    open spec fn view(&self) -> EventView {
        EventView { name: self.name@, weight: self.weight as nat }
    }
}

impl DeepView for Event {
    type V = EventView;

    open spec fn deep_view(&self) -> EventView {
        self@
    }
}

/// Why a text is not an event.
#[derive(Debug, Clone, Copy, PartialEq, Eq, Structural)]
pub enum ParseError {
    /// The digits after the last colon write a number above `u32::MAX`.
    WeightOverflow,
}

/// The colon at position `k` of `token` separates a name from a weight:
/// it has at least one character before it and, from the character after it
/// to the end of the text, one or more decimal digits.
pub open spec fn is_weight_colon(token: Seq<char>, k: int) -> bool {
    &&& 1 <= k < token.len() - 1
    &&& token[k] == ':'
    &&& forall|j: int| k < j < token.len() ==> is_digit(#[trigger] token[j])
}

/// `token` ends in a colon and a weight.
pub open spec fn has_weight_suffix(token: Seq<char>) -> bool {
    exists|k: int| is_weight_colon(token, k)
}

/// The position of the colon that separates name and weight in a text that
/// [`has_weight_suffix`]. There is only one such position
/// ([`lemma_weight_colon_unique`]).
pub open spec fn weight_colon(token: Seq<char>) -> int {
    choose|k: int| is_weight_colon(token, k)
}

/// The event that `token` writes, or the reason why it writes none.
pub open spec fn parsed(token: Seq<char>) -> Result<EventView, ParseError> {
    if has_weight_suffix(token) {
        let k = weight_colon(token);
        let weight = decimal_value(token.subrange(k + 1, token.len() as int));
        if weight <= u32::MAX {
            Ok(EventView { name: token.subrange(0, k), weight })
        } else {
            Err(ParseError::WeightOverflow)
        }
    } else {
        Ok(EventView { name: token, weight: 1 })
    }
}

/// The text that writes `event` with its weight: the name, a colon, and the
/// weight in decimal notation.
pub open spec fn written(event: EventView) -> Seq<char> {
    event.name + seq![':'] + decimal_digits(event.weight)
}

/// A text has at most one colon that separates a name from a weight: a second
/// one would have to stand among the digits that follow the first.
pub proof fn lemma_weight_colon_unique(token: Seq<char>, k1: int, k2: int)
    requires
        is_weight_colon(token, k1),
        is_weight_colon(token, k2),
    ensures
        k1 == k2,
{
    if k1 < k2 {
        assert(is_digit(token[k2]));
    } else if k2 < k1 {
        assert(is_digit(token[k1]));
    }
}

/// An event that is written with its weight is read back as it was: for every
/// name of at least one character, colons in it or not, and every weight up
/// to `u32::MAX`.
pub proof fn lemma_parsed_written(event: EventView)
    requires
        event.name.len() >= 1,
        event.weight <= u32::MAX,
    ensures
        parsed(written(event)) == Ok::<EventView, ParseError>(event),
{
    let token = written(event);
    let k = event.name.len() as int;
    lemma_decimal_digits(event.weight);
    assert(is_weight_colon(token, k));
    lemma_weight_colon_unique(token, k, weight_colon(token));
    assert(token.subrange(0, k) == event.name);
    assert(token.subrange(k + 1, token.len() as int) == decimal_digits(event.weight));
}

/// A text without a colon is a name, and the event has weight 1.
pub proof fn lemma_parsed_plain(token: Seq<char>)
    requires
        !token.contains(':'),
    ensures
        parsed(token) == Ok::<EventView, ParseError>(EventView { name: token, weight: 1 }),
{
    assert forall|k: int| !is_weight_colon(token, k) by {
        if is_weight_colon(token, k) {
            assert(token.contains(token[k]));
        }
    }
}

/// Looks for the colon that separates a name from a weight, scanning from
/// the end of the text.
pub fn find_weight_colon(chars: &[char]) -> (r: Option<usize>)
    ensures
        match r {
            Some(k) => is_weight_colon(chars@, k as int),
            None => !has_weight_suffix(chars@),
        },
{
    let n = chars.len();
    let mut i: usize = n;
    while i > 0 && char_is_digit(chars[i - 1])
        invariant
            i <= n,
            n == chars@.len(),
            forall|j: int| i <= j < n ==> is_digit(#[trigger] chars@[j]),
        decreases i,
    {
        i -= 1;
    }
    if 2 <= i && i < n && chars[i - 1] == ':' {
        Some(i - 1)
    } else {
        proof {
            assert forall|k: int| !is_weight_colon(chars@, k) by {
                if is_weight_colon(chars@, k) {
                    // The scan stopped on the character before the digits,
                    // which is where such a colon stands.
                    if k >= i {
                        assert(is_digit(chars@[k]));
                    } else if k < i - 1 {
                        assert(is_digit(chars@[i - 1]));
                    }
                }
            }
        }
        None
    }
}

impl Event {
    /// Reads an event from its textual form.
    ///
    /// Where `token` ends in a colon and a run of digits, with at least one
    /// character before the colon, the digits are the weight and the text
    /// before the colon is the name. Otherwise the whole of `token` is the
    /// name and the weight is 1. A weight of zero is read as it is written.
    ///
    /// The only failure is a weight above `u32::MAX`.
    pub fn parse(token: &str) -> (r: Result<Event, ParseError>)
        ensures
            r matches Ok(event) ==> parsed(token@) == Ok::<EventView, ParseError>(event@),
            r matches Err(error) ==> parsed(token@) == Err::<EventView, ParseError>(error),
    {
        let chars = chars_of(token);
        match find_weight_colon(chars.as_slice()) {
            None => Ok(Event { name: token.to_owned(), weight: 1 }),
            Some(k) => {
                proof {
                    lemma_weight_colon_unique(token@, k as int, weight_colon(token@));
                }
                match parse_decimal(&chars.as_slice()[k + 1..chars.len()]) {
                    Some(weight) => Ok(
                        Event { name: token.substring_char(0, k).to_owned(), weight },
                    ),
                    None => Err(ParseError::WeightOverflow),
                }
            },
        }
    }

    /// The text under which the event is listed: its name.
    pub fn to_text(&self) -> (text: String)
        ensures
            text@ == self.name@,
    {
        self.name.clone()
    }
}

impl Clone for Event {
    fn clone(&self) -> (copy: Event)
        ensures
            copy == *self,
    {
        Event { name: self.name.clone(), weight: self.weight }
    }
}

impl TryFrom<&str> for Event {
    type Error = ParseError;

    /// Reads an event from its textual form, as [`Event::parse`] does.
    fn try_from(token: &str) -> (r: Result<Event, ParseError>)
        ensures
            r matches Ok(event) ==> parsed(token@) == Ok::<EventView, ParseError>(event@),
            r matches Err(error) ==> parsed(token@) == Err::<EventView, ParseError>(error),
    {
        Event::parse(token)
    }
}

/// The contract of the conversion is the one stated on `try_from` itself,
/// over the view of the event. It cannot name the `Event` that comes back,
/// whose `String` a specification has no means to build.
impl vstd::std_specs::convert::TryFromSpecImpl<&str> for Event {
    open spec fn obeys_try_from_spec() -> bool {
        false
    }

    open spec fn try_from_spec(token: &str) -> Result<Event, ParseError> {
        arbitrary()
    }
}

/// The characters of `text`, in order.
fn chars_of(text: &str) -> (chars: Vec<char>)
    ensures
        chars@ == text@,
{
    let mut chars: Vec<char> = Vec::new();
    for c in it: text.chars()
        invariant
            it.seq() == text@,
            chars@ == it.seq().take(it.index() as int),
    {
        chars.push(c);
    }
    chars
}

} // verus!
