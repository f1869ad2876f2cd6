//! ANSI palette of the headless tactical console.

use vstd::prelude::*;
use crate::models::{AlertState, TrackClass};

verus! {

pub const CLEAR: &'static str = "\x1b[2J\x1b[H";
pub const DIM: &'static str = "\x1b[2m";
pub const GREEN: &'static str = "\x1b[32m";
pub const VIOLET: &'static str = "\x1b[35m";
pub const AMBER: &'static str = "\x1b[33m";
pub const RED: &'static str = "\x1b[91m";
pub const BOLD: &'static str = "\x1b[1m";
pub const RESET: &'static str = "\x1b[0m";

/// Colour of a track: red under any alert, else by classification
/// (civil green, military violet, anything else amber).
pub open spec fn track_colour(class: TrackClass, alert: AlertState) -> Seq<char> {
    if alert != AlertState::Nominal {
        RED@
    } else {
        match class {
            TrackClass::Civil => GREEN@,
            TrackClass::Military => VIOLET@,
            _ => AMBER@,
        }
    }
}

pub fn class_color(class: TrackClass, alert: AlertState) -> (c: &'static str)
    ensures
        c@ == track_colour(class, alert),
{
    if alert != AlertState::Nominal {
        return RED;
    }
    match class {
        TrackClass::Civil => GREEN,
        TrackClass::Military => VIOLET,
        _ => AMBER,
    }
}

} // verus!
