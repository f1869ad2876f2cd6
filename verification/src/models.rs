//! Shared data contracts between the engine, the sidecar and the displays:
//! the enumerations and the plain records that carry no measurements.

use vstd::prelude::*;
use crate::text::{chars_of, starts_with, to_uppercase, upper_text};

verus! {

pub const MODEL_VERSION: u32 = 4;

/// Transponder cooperation classification driving symbology selection.
#[derive(Debug, Clone, Copy, PartialEq, Eq, Hash, Structural)]
pub enum TrackClass {
    Civil,
    Military,
    Unidentified,
    Anomaly,
}

/// Operational alert state for a track.
#[derive(Debug, Clone, Copy, PartialEq, Eq, Structural)]
pub enum AlertState {
    /// No alert (the wire name is `none`).
    Nominal,
    Emergency,
    RadioFailure,
    Hijack,
    GeofenceBreach,
    DarkTarget,
}

/// Vertical trend extracted from barometric rate or filtered z-velocity.
#[derive(Debug, Clone, Copy, PartialEq, Eq, Structural)]
pub enum VerticalTrend {
    Level,
    Climb,
    Descent,
}

/// Three-line Flight Data Block rendered beside each target symbol.
#[derive(Debug, Clone)]
pub struct FlightDataBlock {
    pub icao24: String,
    /// Line 1: callsign, altitude in hundreds of feet, vertical arrow.
    pub line1: String,
    /// Line 2: transponder source, ground speed in knots, squawk.
    pub line2: String,
    /// Line 3: system quality / conflict annotation.
    pub line3: String,
    pub color: String,
}

/// Geofence violation event emitted once per entry.
#[derive(Debug, Clone)]
pub struct GeofenceBreach {
    pub fence_id: String,
    pub fence_name: String,
    pub icao24: String,
    pub callsign: String,
    pub entered_ms: u64,
}

/// Lightweight anomaly annotation for the threat-matrix panel.
#[derive(Debug, Clone)]
pub struct AnomalyNote {
    pub icao24: String,
    pub reason: String,
}

/// Decoded identity message consumed by the kinematics stack.
#[derive(Debug, Clone)]
pub struct AdsbIdentityUpdate {
    pub icao24: String,
    pub callsign: String,
    pub category: u8,
    pub received_ms: u64,
}

pub open spec fn css_color_spec(class: TrackClass) -> Seq<char> {
    match class {
        TrackClass::Civil => seq!['#', '0', '0', 'F', 'F', '6', '6'],
        TrackClass::Military => seq!['#', '7', 'C', '4', 'D', 'F', 'F'],
        _ => seq!['#', 'F', 'F', 'B', '3', '0', '0'],
    }
}

pub open spec fn symbol_spec(class: TrackClass) -> Seq<char> {
    match class {
        TrackClass::Civil => seq!['\u{25C7}'],
        TrackClass::Military => seq!['\u{2227}'],
        _ => seq!['\u{25A1}'],
    }
}

impl TrackClass {
    /// Display colour of the class symbology.
    pub fn css_color(self) -> (s: &'static str)
        ensures
            s@ == css_color_spec(self),
    {
        proof {
            reveal_strlit("#00FF66");
            reveal_strlit("#7C4DFF");
            reveal_strlit("#FFB300");
        }
        match self {
            TrackClass::Civil => "#00FF66",
            TrackClass::Military => "#7C4DFF",
            TrackClass::Unidentified | TrackClass::Anomaly => "#FFB300",
        }
    }

    /// Target symbol: diamond for civil, wedge for military, square
    /// otherwise.
    pub fn symbol_char(self) -> (s: &'static str)
        ensures
            s@ == symbol_spec(self),
    {
        proof {
            reveal_strlit("\u{25C7}");
            reveal_strlit("\u{2227}");
            reveal_strlit("\u{25A1}");
        }
        match self {
            TrackClass::Civil => "\u{25C7}",
            TrackClass::Military => "\u{2227}",
            TrackClass::Unidentified | TrackClass::Anomaly => "\u{25A1}",
        }
    }
}

/// Military when the uppercased callsign opens with NAF, NGA or MIL.
pub open spec fn spec_infer_class(callsign: Seq<char>) -> TrackClass {
    let upper = upper_text(callsign);
    if starts_with(upper, seq!['N', 'A', 'F']) || starts_with(upper, seq!['N', 'G', 'A'])
        || starts_with(upper, seq!['M', 'I', 'L']) {
        TrackClass::Military
    } else {
        TrackClass::Civil
    }
}

fn opens_with(cs: &[char], a: char, b: char, c: char) -> (r: bool)
    ensures
        r == starts_with(cs@, seq![a, b, c]),
{
    let r = cs.len() >= 3 && cs[0] == a && cs[1] == b && cs[2] == c;
    proof {
        if cs@.len() >= 3 {
            let pre = cs@.subrange(0, 3);
            if r {
                assert(pre =~= seq![a, b, c]);
            } else {
                assert(pre[0] == cs@[0] && pre[1] == cs@[1] && pre[2] == cs@[2]);
                assert(seq![a, b, c][0] == a);
            }
        }
    }
    r
}

/// Track class inferred from the callsign prefix.
pub fn infer_class(callsign: &str) -> (c: TrackClass)
    ensures
        c == spec_infer_class(callsign@),
{
    let upper = to_uppercase(callsign);
    let cs = chars_of(upper.as_str());
    if opens_with(cs.as_slice(), 'N', 'A', 'F') || opens_with(cs.as_slice(), 'N', 'G', 'A')
        || opens_with(cs.as_slice(), 'M', 'I', 'L') {
        TrackClass::Military
    } else {
        TrackClass::Civil
    }
}

} // verus!
