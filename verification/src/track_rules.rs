//! Per-track bookkeeping rules of the fusion engine: pairing of even/odd
//! airborne-position frames, track freshness, the alert shown on the display
//! and the emergency squawk implied by an aircraft-status report.
//!
//! The filter arithmetic that consumes these decisions is floating-point and
//! lives with the engine; the decisions themselves are integer rules.

use vstd::prelude::*;
use crate::models::AlertState;
use crate::text::push_str;

verus! {

/// Longest gap between an even and an odd airborne-position frame that may
/// still be decoded together (the DO-260B position epoch).
pub const CPR_PAIR_WINDOW_MS: u64 = 10_000;

/// A track without a fresh position for longer than this is coasting.
pub const COAST_THRESHOLD_MS: u64 = 8_000;

/// A track without a fresh position for this long is dropped.
pub const DROP_TRACK_AFTER_MS: u64 = 180_000;

/// How long a geofence entry keeps colouring its track.
pub const BREACH_HOLD_MS: u64 = 30_000;

// ---------------------------------------------------------------------------
// CPR frame pairing
// ---------------------------------------------------------------------------

/// The latest airborne-position frame of one parity: its raw 17-bit CPR
/// counts and its arrival time.
#[derive(Debug, Clone, Copy, PartialEq, Eq, Structural)]
pub struct CprSlot {
    pub lat_cpr: u32,
    pub lon_cpr: u32,
    pub received_ms: u64,
}

/// An even/odd pair ready for a global decode; `newest_odd` tells which of
/// the two arrived last (its zone count governs the longitude solution).
#[derive(Debug, Clone, Copy, PartialEq, Eq)]
pub struct CprPair {
    pub even: (u32, u32),
    pub odd: (u32, u32),
    pub newest_odd: bool,
}

/// The pairing state of one track: the latest unpaired frame of each parity.
#[derive(Debug, Clone, Copy)]
pub struct CprSlots {
    pub even: Option<CprSlot>,
    pub odd: Option<CprSlot>,
}

/// `prev` is recent enough at `now_ms` to pair (an arrival stamped after
/// `now_ms` counts as no gap at all).
pub open spec fn within_pair_window(prev: CprSlot, now_ms: u64) -> bool {
    now_ms <= prev.received_ms + CPR_PAIR_WINDOW_MS
}

/// The pair formed by the stored frame `prev` and a new frame of the other
/// parity.
pub open spec fn pair_with(prev: CprSlot, odd: bool, lat_cpr: u32, lon_cpr: u32) -> CprPair {
    if odd {
        CprPair { even: (prev.lat_cpr, prev.lon_cpr), odd: (lat_cpr, lon_cpr), newest_odd: true }
    } else {
        CprPair { even: (lat_cpr, lon_cpr), odd: (prev.lat_cpr, prev.lon_cpr), newest_odd: false }
    }
}

/// Accepting a frame: the stored frame of the other parity is taken out and
/// pairs with the new one if it is recent enough; the new frame becomes the
/// latest of its own parity.
pub open spec fn cpr_accept(
    s: CprSlots,
    odd: bool,
    lat_cpr: u32,
    lon_cpr: u32,
    now_ms: u64,
) -> (CprSlots, Option<CprPair>) {
    let current = CprSlot { lat_cpr, lon_cpr, received_ms: now_ms };
    let opposite = if odd { s.even } else { s.odd };
    let pair = match opposite {
        Some(prev) => if within_pair_window(prev, now_ms) {
            Some(pair_with(prev, odd, lat_cpr, lon_cpr))
        } else {
            None
        },
        None => None,
    };
    let next = if odd {
        CprSlots { even: None, odd: Some(current) }
    } else {
        CprSlots { even: Some(current), odd: None }
    };
    (next, pair)
}

impl CprSlots {
    /// No frame seen yet.
    pub fn new() -> (s: Self)
        ensures
            s.even is None,
            s.odd is None,
    {
        CprSlots { even: None, odd: None }
    }

    /// Takes in one airborne-position frame and returns the pair to decode,
    /// if it completes one.
    pub fn accept(&mut self, odd: bool, lat_cpr: u32, lon_cpr: u32, now_ms: u64) -> (pair:
        Option<CprPair>)
        ensures
            (*final(self), pair) == cpr_accept(*old(self), odd, lat_cpr, lon_cpr, now_ms),
    {
        let current = CprSlot { lat_cpr, lon_cpr, received_ms: now_ms };
        let opposite = if odd {
            self.even.take()
        } else {
            self.odd.take()
        };
        let pair = match opposite {
            Some(prev) => {
                let gap = now_ms.saturating_sub(prev.received_ms);
                if gap <= CPR_PAIR_WINDOW_MS {
                    if odd {
                        Some(
                            CprPair {
                                even: (prev.lat_cpr, prev.lon_cpr),
                                odd: (lat_cpr, lon_cpr),
                                newest_odd: true,
                            },
                        )
                    } else {
                        Some(
                            CprPair {
                                even: (lat_cpr, lon_cpr),
                                odd: (prev.lat_cpr, prev.lon_cpr),
                                newest_odd: false,
                            },
                        )
                    }
                } else {
                    None
                }
            },
            None => None,
        };
        if odd {
            self.odd = Some(current);
        } else {
            self.even = Some(current);
        }
        pair
    }
}

/// Of two consecutive frames of one track, the second completes a pair
/// exactly when it has the other parity and arrives within the pairing
/// window of the first, and then the pair is made of those two frames,
/// whatever was stored before.
pub proof fn consecutive_frames_pairing(
    s: CprSlots,
    odd1: bool,
    lat1: u32,
    lon1: u32,
    t1: u64,
    odd2: bool,
    lat2: u32,
    lon2: u32,
    t2: u64,
)
    ensures
        ({
            let first = cpr_accept(s, odd1, lat1, lon1, t1);
            let second = cpr_accept(first.0, odd2, lat2, lon2, t2);
            &&& second.1 is Some <==> (odd1 != odd2 && t2 <= t1 + CPR_PAIR_WINDOW_MS)
            &&& second.1 is Some ==> second.1 == Some(
                pair_with(CprSlot { lat_cpr: lat1, lon_cpr: lon1, received_ms: t1 }, odd2, lat2, lon2),
            )
        }),
{
}

/// Once a frame has been used as the older half of a pair it is gone: a
/// third frame of the same parity as the second finds nothing to pair with.
pub proof fn stored_frame_pairs_once(
    s: CprSlots,
    odd: bool,
    lat1: u32,
    lon1: u32,
    t1: u64,
    lat2: u32,
    lon2: u32,
    t2: u64,
    lat3: u32,
    lon3: u32,
    t3: u64,
)
    ensures
        ({
            let first = cpr_accept(s, !odd, lat1, lon1, t1);
            let second = cpr_accept(first.0, odd, lat2, lon2, t2);
            let third = cpr_accept(second.0, odd, lat3, lon3, t3);
            third.1 is None
        }),
{
}

// ---------------------------------------------------------------------------
// Track freshness
// ---------------------------------------------------------------------------

/// How current a track's position is.
#[derive(Debug, Clone, Copy, PartialEq, Eq, Structural)]
pub enum Freshness {
    /// Position no older than the coast threshold.
    Live,
    /// Older than the coast threshold: shown extrapolated.
    Coasting,
    /// Silent for the drop period: removed.
    Dropped,
}

/// Milliseconds since the last position (zero for a stamp in the future).
pub open spec fn position_age_ms(now_ms: u64, last_position_ms: u64) -> int {
    if now_ms >= last_position_ms {
        now_ms - last_position_ms
    } else {
        0
    }
}

/// Classifies a track by the age of its last position fix.
pub fn track_freshness(now_ms: u64, last_position_ms: u64) -> (f: Freshness)
    ensures
        f == (if position_age_ms(now_ms, last_position_ms) >= DROP_TRACK_AFTER_MS {
            Freshness::Dropped
        } else if position_age_ms(now_ms, last_position_ms) > COAST_THRESHOLD_MS {
            Freshness::Coasting
        } else {
            Freshness::Live
        }),
{
    let age = now_ms.saturating_sub(last_position_ms);
    if age >= DROP_TRACK_AFTER_MS {
        Freshness::Dropped
    } else if age > COAST_THRESHOLD_MS {
        Freshness::Coasting
    } else {
        Freshness::Live
    }
}

// ---------------------------------------------------------------------------
// Displayed alert
// ---------------------------------------------------------------------------

/// The alert shown for a track: its own alert wins; a nominal track inside
/// its breach hold shows the breach; otherwise an armed emergency override
/// shows every nominal track as an emergency.
pub open spec fn shown_alert(
    alert: AlertState,
    now_ms: u64,
    breach_until_ms: u64,
    override_until_ms: u64,
) -> AlertState {
    if alert != AlertState::Nominal {
        alert
    } else if now_ms < breach_until_ms {
        AlertState::GeofenceBreach
    } else if now_ms < override_until_ms {
        AlertState::Emergency
    } else {
        AlertState::Nominal
    }
}

/// Resolves the alert displayed for a track at `now_ms`.
pub fn display_alert(
    alert: AlertState,
    now_ms: u64,
    breach_until_ms: u64,
    override_until_ms: u64,
) -> (shown: AlertState)
    ensures
        shown == shown_alert(alert, now_ms, breach_until_ms, override_until_ms),
{
    let mut shown = alert;
    if shown == AlertState::Nominal && now_ms < breach_until_ms {
        shown = AlertState::GeofenceBreach;
    }
    if shown == AlertState::Nominal && now_ms < override_until_ms {
        shown = AlertState::Emergency;
    }
    shown
}

// ---------------------------------------------------------------------------
// Squawk and callsign
// ---------------------------------------------------------------------------

/// Emergency states 1..=6 of an aircraft-status report (general emergency,
/// lifeguard, minimum fuel, no communications, unlawful interference,
/// downed aircraft).
pub open spec fn is_emergency_state(emergency_state: u8) -> bool {
    1 <= emergency_state <= 6
}

/// An aircraft-status report of an emergency gives a track that has no
/// squawk yet the general-emergency code 7700; any known squawk is kept.
pub fn apply_emergency_status(squawk: &mut String, emergency_state: u8)
    ensures
        final(squawk)@ == (if is_emergency_state(emergency_state) && old(squawk)@.len() == 0 {
            "7700"@
        } else {
            old(squawk)@
        }),
{
    if 1 <= emergency_state && emergency_state <= 6 && squawk.as_str().is_empty() {
        *squawk = "7700".to_owned();
    }
}

/// The callsign shown for a track: its own, or `UNK-` and its address when
/// none has been received.
pub fn display_callsign(callsign: &str, icao24: &str) -> (shown: String)
    ensures
        shown@ == (if callsign@.len() == 0 {
            "UNK-"@ + icao24@
        } else {
            callsign@
        }),
{
    if callsign.is_empty() {
        let mut shown = "UNK-".to_owned();
        push_str(&mut shown, icao24);
        shown
    } else {
        callsign.to_owned()
    }
}

/// The squawk shown for a track: its own, or `----` when none is known.
pub fn display_squawk(squawk: &str) -> (shown: String)
    ensures
        shown@ == (if squawk@.len() == 0 {
            "----"@
        } else {
            squawk@
        }),
{
    if squawk.is_empty() {
        "----".to_owned()
    } else {
        squawk.to_owned()
    }
}

} // verus!
