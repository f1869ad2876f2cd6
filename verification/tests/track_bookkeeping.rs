use aeropulse_ng::models::AlertState;
use aeropulse_ng::track_rules::{
    apply_emergency_status, display_alert, display_callsign, display_squawk, track_freshness,
    CprPair, CprSlots, Freshness, CPR_PAIR_WINDOW_MS,
};

#[test]
fn even_then_odd_within_window_pairs() {
    let mut slots = CprSlots::new();
    assert_eq!(slots.accept(false, 93000, 51372, 1_000), None);
    let pair = slots.accept(true, 74158, 50194, 1_000 + CPR_PAIR_WINDOW_MS);
    assert_eq!(
        pair,
        Some(CprPair { even: (93000, 51372), odd: (74158, 50194), newest_odd: true })
    );
}

#[test]
fn odd_then_even_pairs_with_even_newest() {
    let mut slots = CprSlots::new();
    assert_eq!(slots.accept(true, 74158, 50194, 5_000), None);
    let pair = slots.accept(false, 93000, 51372, 6_000);
    assert_eq!(
        pair,
        Some(CprPair { even: (93000, 51372), odd: (74158, 50194), newest_odd: false })
    );
}

#[test]
fn same_parity_frames_never_pair() {
    let mut slots = CprSlots::new();
    assert_eq!(slots.accept(true, 1, 2, 1_000), None);
    assert_eq!(slots.accept(true, 3, 4, 1_500), None);
    // The newest odd frame is the one kept for the next even frame.
    assert_eq!(
        slots.accept(false, 5, 6, 2_000),
        Some(CprPair { even: (5, 6), odd: (3, 4), newest_odd: false })
    );
}

#[test]
fn stale_opposite_frame_is_discarded() {
    let mut slots = CprSlots::new();
    assert_eq!(slots.accept(false, 1, 2, 1_000), None);
    assert_eq!(slots.accept(true, 3, 4, 1_000 + CPR_PAIR_WINDOW_MS + 1), None);
    // The stale even frame was consumed; the fresh odd frame waits.
    assert!(slots.even.is_none());
    assert_eq!(slots.odd.map(|s| (s.lat_cpr, s.lon_cpr)), Some((3, 4)));
}

#[test]
fn paired_frame_is_used_once() {
    let mut slots = CprSlots::new();
    slots.accept(false, 1, 2, 1_000);
    assert!(slots.accept(true, 3, 4, 2_000).is_some());
    assert_eq!(slots.accept(true, 5, 6, 3_000), None);
}

#[test]
fn frame_stamped_before_the_stored_one_still_pairs() {
    let mut slots = CprSlots::new();
    slots.accept(false, 1, 2, 50_000);
    assert!(slots.accept(true, 3, 4, 10_000).is_some());
}

#[test]
fn freshness_thresholds() {
    assert_eq!(track_freshness(10_000, 10_000), Freshness::Live);
    assert_eq!(track_freshness(18_000, 10_000), Freshness::Live);
    assert_eq!(track_freshness(18_001, 10_000), Freshness::Coasting);
    assert_eq!(track_freshness(189_999, 10_000), Freshness::Coasting);
    assert_eq!(track_freshness(190_000, 10_000), Freshness::Dropped);
    assert_eq!(track_freshness(5_000, 10_000), Freshness::Live);
}

#[test]
fn own_alert_wins_over_holds() {
    assert_eq!(display_alert(AlertState::Hijack, 100, 200, 300), AlertState::Hijack);
}

#[test]
fn breach_hold_precedes_override() {
    assert_eq!(display_alert(AlertState::Nominal, 100, 200, 300), AlertState::GeofenceBreach);
    assert_eq!(display_alert(AlertState::Nominal, 250, 200, 300), AlertState::Emergency);
    assert_eq!(display_alert(AlertState::Nominal, 300, 200, 300), AlertState::Nominal);
}

#[test]
fn emergency_status_sets_7700_only_when_unknown() {
    let mut squawk = String::new();
    apply_emergency_status(&mut squawk, 1);
    assert_eq!(squawk, "7700");

    let mut known = String::from("1200");
    apply_emergency_status(&mut known, 5);
    assert_eq!(known, "1200");

    let mut quiet = String::new();
    apply_emergency_status(&mut quiet, 0);
    assert_eq!(quiet, "");
    apply_emergency_status(&mut quiet, 7);
    assert_eq!(quiet, "");
}

#[test]
fn unknown_callsign_and_squawk_placeholders() {
    assert_eq!(display_callsign("", "A1B2C3"), "UNK-A1B2C3");
    assert_eq!(display_callsign("DAL123", "A1B2C3"), "DAL123");
    assert_eq!(display_squawk(""), "----");
    assert_eq!(display_squawk("7500"), "7500");
}
