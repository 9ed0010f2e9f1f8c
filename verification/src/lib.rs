//! Head-to-head records for a field of competitors, and the pruning of the
//! field down to the competitors a rating can be fitted for.
//!
//! Every competitor carries one score slot per event. Two competitors who
//! both took part in an event met there: the higher score won, equal scores
//! tied. The numeric fit itself works on real numbers and lives with the
//! caller; this crate provides the exact, integer side of the model.

pub mod field;
pub mod player;
pub mod table;
pub mod tally;
