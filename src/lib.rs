//! Debounced short/long classification of presses on one push button.
//!
//! [`press::PressDetector`] holds the decisions of one press cycle: which wait
//! to issue next and how to read what that wait reported. A caller with a real
//! input line and timer runs its actions; [`trace`] runs them over a recorded
//! line, one level sample per millisecond.
use vstd::prelude::*;

pub mod press;
pub mod trace;

verus! {

} // verus!
