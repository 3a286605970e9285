//! Sorting of personal names by per-character ordering codes.
//!
//! A name is an ordered sequence of characters. Each character has an
//! ordering code, a short string looked up in a [`table::CodeTable`];
//! characters without an entry fall back to a fixed sentinel code. A name is
//! split into a surname and a given name by [`segment::split_name`], which
//! recognises two-character compound surnames from an allow-list. Two names
//! are ordered by comparing their surnames character by character (code
//! length first, then the code's own characters, then whole-string length as
//! a tie-break) and, when the surnames tie, their given names the same way.
//! [`sort::order_names`] reverses the input and then sorts it stably, so
//! that among fully tied names the later-listed one comes out first.

use vstd::prelude::*;

pub mod compare;
pub mod segment;
pub mod sort;
pub mod table;

verus! {

/// Error for a name with no characters: such a name cannot be split into a
/// surname and a given name, and is rejected rather than mis-ordered.
#[derive(Clone, Copy, Debug, PartialEq, Eq, Structural)]
pub struct EmptyNameError;

} // verus!
