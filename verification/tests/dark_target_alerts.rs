use aeropulse_ng::dark_target::{AnomalyDetector, DarkTargetConfig, TrackObservation};
use aeropulse_ng::models::AlertState;

fn obs(icao: &str, callsign: &str, squawk: &str) -> TrackObservation {
    TrackObservation { icao24: icao.into(), callsign: callsign.into(), squawk: squawk.into() }
}

#[test]
fn emergency_squawks_map_to_alert_states() {
    let mut det = AnomalyDetector::default();
    assert_eq!(det.scan(&[obs("A1", "VL604", "7700")], 1_000)[0].alert, Some(AlertState::Emergency));
    assert_eq!(det.scan(&[obs("B2", "NAF911", "7500")], 1_000)[0].alert, Some(AlertState::Hijack));
    assert_eq!(
        det.scan(&[obs("C3", "NGA212", "7600")], 1_000)[0].alert,
        Some(AlertState::RadioFailure)
    );
}

#[test]
fn identity_less_emitter_flags_after_arming() {
    let cfg = DarkTargetConfig { min_track_age_ms: 5_000, ..Default::default() };
    let mut det = AnomalyDetector::new(cfg);

    let early = det.scan(&[obs("DARK", "", "0000")], 1_000);
    assert!(early.is_empty(), "must stay quiet while arming");

    let armed = det.scan(&[obs("DARK", "", "0000")], 6_000);
    assert_eq!(armed.len(), 1);
    assert_eq!(armed[0].alert, Some(AlertState::DarkTarget));
    assert!(armed[0].reason.contains("IDENTITY"));
}

#[test]
fn transponder_silence_flags_absent_cooperative_tracks() {
    let cfg = DarkTargetConfig {
        min_track_age_ms: 5_000,
        silence_threshold_ms: 10_000,
        ..Default::default()
    };
    let mut det = AnomalyDetector::new(cfg);

    det.scan(&[obs("AAA", "VL604", "2000")], 1_000);
    det.scan(&[obs("AAA", "VL604", "2000")], 6_000);

    let quiet_mid = det.scan(&[], 12_000);
    assert!(quiet_mid.is_empty(), "inside grace period");

    let flagged = det.scan(&[], 16_000);
    assert_eq!(flagged.len(), 1);
    assert_eq!(flagged[0].alert, Some(AlertState::DarkTarget));
    assert!(flagged[0].reason.contains("SILENCE"));
}

#[test]
fn recovery_clears_alert_and_emits_transition() {
    let cfg = DarkTargetConfig { min_track_age_ms: 1_000, ..Default::default() };
    let mut det = AnomalyDetector::new(cfg);

    det.scan(&[obs("X9", "", "0000")], 1_000);
    let armed = det.scan(&[obs("X9", "", "0000")], 3_000);
    assert_eq!(armed.len(), 1, "dark target armed");
    assert_eq!(armed[0].alert, Some(AlertState::DarkTarget));

    let recovered = det.scan(&[obs("X9", "NEWCS", "2000")], 4_000);
    assert_eq!(recovered.len(), 1);
    assert_eq!(recovered[0].alert, None);
}

#[test]
fn squawk_churn_is_counted_without_false_alerts() {
    let mut det = AnomalyDetector::default();
    det.scan(&[obs("CH", "TST01", "2000")], 1_000);
    det.scan(&[obs("CH", "TST01", "2345")], 2_000);
    det.scan(&[obs("CH", "TST01", "3456")], 3_000);
    let v = det.scan(&[obs("CH", "TST01", "4567")], 4_000);
    assert!(v.is_empty(), "churn alone must not alert");
    assert!(det.churn_count("CH").unwrap() >= 3);
}

#[test]
fn identity_reason_reports_rounded_seconds() {
    let cfg = DarkTargetConfig { min_track_age_ms: 1_000, ..Default::default() };
    for (span_ms, secs) in [(2_500u64, 2.5f64), (3_500, 3.5), (1_499, 1.499), (12_501, 12.501)] {
        let mut det = AnomalyDetector::new(cfg);
        det.scan(&[obs("Q1", "", "")], 1_000);
        let v = det.scan(&[obs("Q1", "", "")], 1_000 + span_ms);
        assert_eq!(v.len(), 1);
        assert_eq!(v[0].reason, format!("NO IDENTITY BROADCAST ({:.0}s OBSERVED)", secs));
    }
}

#[test]
fn verdict_reasons_for_emergencies() {
    let mut det = AnomalyDetector::default();
    let v = det.scan(&[obs("E1", "AB", "7700"), obs("E2", "AB", "7600"), obs("E3", "AB", "7500")], 10);
    assert_eq!(v.len(), 3);
    assert_eq!(v[0].reason, "SQUAWK 7700 GENERAL EMERGENCY");
    assert_eq!(v[1].reason, "SQUAWK 7600 RADIO FAILURE");
    assert_eq!(v[2].reason, "SQUAWK 7500 UNLAWFUL INTERFERENCE");
    assert_eq!(v[0].icao24, "E1");
    assert_eq!(det.tracked_count(), 3);
}

#[test]
fn repeated_scan_raises_nothing_new() {
    let cfg = DarkTargetConfig { min_track_age_ms: 1_000, ..Default::default() };
    let mut det = AnomalyDetector::new(cfg);
    let batch = [obs("R1", "", "1200"), obs("R2", "CS", "7700")];
    det.scan(&batch, 1_000);
    let first = det.scan(&batch, 5_000);
    assert_eq!(first.len(), 1);
    let again = det.scan(&batch, 5_000);
    assert!(again.is_empty());
    // Emergency clears once the squawk returns to normal.
    let cleared = det.scan(&[obs("R2", "CS", "1200")], 6_000);
    assert_eq!(cleared.len(), 1);
    assert_eq!(cleared[0].alert, None);
    assert_eq!(cleared[0].reason, "");
}

#[test]
fn churn_count_unknown_address_is_none() {
    let det = AnomalyDetector::default();
    assert_eq!(det.churn_count("ZZZ"), None);
    assert_eq!(det.tracked_count(), 0);
}
