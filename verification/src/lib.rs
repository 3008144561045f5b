//! Weighted events on a die.
//!
//! A list of named events, each with an integer weight, is laid out over the
//! faces `1..=d` of a `d`-sided die: every event receives a run of consecutive
//! faces whose length is proportional to its weight, and the faces that are
//! left over at the end call for a reroll.
//!
//! * [`event`] reads an event from its textual form, `name` or `name:weight`.
//! * [`partition`] assigns the faces.
//! * [`table`] turns the assignment into the rows of a printable table.
//! * [`decimal`] holds the decimal notation that the other modules share.

pub mod decimal;
pub mod event;
pub mod partition;
pub mod table;
