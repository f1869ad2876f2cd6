use aeropulse_ng::geofence::{set_active, FenceFlag, FenceRef, FixRef, Occupancy};

fn fence(id: &str) -> FenceRef {
    FenceRef { id: id.into(), name: format!("{id} AREA") }
}

fn fix(icao: &str, t: u64) -> FixRef {
    FixRef { icao24: icao.into(), callsign: format!("CS{icao}"), now_ms: t }
}

#[test]
fn entry_then_presence_then_exit_rearms() {
    let mut occ = Occupancy::new();
    let fences = [fence("R-51")];
    let fixes = [fix("A", 1), fix("B", 1)];

    let first = occ.pass(&fences, &fixes, &[vec![true, false]]);
    assert_eq!(first.len(), 1);
    assert_eq!(first[0].icao24, "A");
    assert_eq!(first[0].fence_id, "R-51");
    assert_eq!(first[0].fence_name, "R-51 AREA");
    assert_eq!(first[0].callsign, "CSA");
    assert_eq!(first[0].entered_ms, 1);

    // Still inside: no new entry; B enters.
    let second = occ.pass(&fences, &[fix("A", 2), fix("B", 2)], &[vec![true, true]]);
    assert_eq!(second.len(), 1);
    assert_eq!(second[0].icao24, "B");

    // A leaves, then comes back: the fence re-arms.
    assert!(occ.pass(&fences, &[fix("A", 3), fix("B", 3)], &[vec![false, true]]).is_empty());
    let back = occ.pass(&fences, &[fix("A", 4), fix("B", 4)], &[vec![true, true]]);
    assert_eq!(back.len(), 1);
    assert_eq!(back[0].icao24, "A");
    assert_eq!(back[0].entered_ms, 4);
}

#[test]
fn fences_track_independently() {
    let mut occ = Occupancy::new();
    let both = [fence("F1"), fence("F2")];
    let fixes = [fix("X", 10)];
    let v = occ.pass(&both, &fixes, &[vec![true], vec![true]]);
    assert_eq!(v.len(), 2);
    assert_eq!(v[0].fence_id, "F1");
    assert_eq!(v[1].fence_id, "F2");
    // Only F2 takes part (F1 inactive): X left F2 and re-enters it next.
    assert!(occ.pass(&[fence("F2")], &fixes, &[vec![false]]).is_empty());
    let again = occ.pass(&both, &fixes, &[vec![true], vec![true]]);
    assert_eq!(again.len(), 1);
    assert_eq!(again[0].fence_id, "F2");
}

#[test]
fn empty_pass_raises_nothing() {
    let mut occ = Occupancy::new();
    assert!(occ.pass(&[], &[fix("A", 1)], &[]).is_empty());
    assert!(occ.pass(&[fence("F")], &[], &[vec![]]).is_empty());
}

fn flag(id: &str, active: bool) -> FenceFlag {
    FenceFlag { id: id.to_string(), active }
}

#[test]
fn set_active_flips_only_the_first_matching_fence() {
    let mut flags = vec![flag("A", true), flag("B", true), flag("B", true)];
    assert!(set_active(&mut flags, "B", false));
    let states: Vec<(String, bool)> = flags.iter().map(|f| (f.id.clone(), f.active)).collect();
    assert_eq!(
        states,
        vec![("A".to_string(), true), ("B".to_string(), false), ("B".to_string(), true)]
    );
}

#[test]
fn set_active_on_unknown_fence_changes_nothing() {
    let mut flags = vec![flag("A", false)];
    assert!(!set_active(&mut flags, "Z", true));
    assert_eq!(flags.len(), 1);
    assert!(!flags[0].active);
    assert_eq!(flags[0].id, "A");
}
