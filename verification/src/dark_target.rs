//! Transponder anomaly & dark-target alerting heuristics.
//!
//! Flags non-cooperative flight profiles for Display-1 symbology:
//! * emergency / radio-failure / unlawful-interference squawk codes,
//! * abrupt transponder silence on previously active tracks,
//! * identity-less emitters (no identification broadcast observed).
//!
//! Verdicts are emitted on alert-state transitions only. Times are engine
//! milliseconds; configuration spans are milliseconds as well.

use vstd::prelude::*;
use std::collections::VecDeque;
use crate::models::AlertState;
use crate::text::{decimal, push_decimal, push_str};

verus! {

pub const SQUAWK_HIJACK: &'static str = "7500";
pub const SQUAWK_RADIO_FAILURE: &'static str = "7600";
pub const SQUAWK_EMERGENCY: &'static str = "7700";

#[derive(Debug, Clone, Copy)]
pub struct DarkTargetConfig {
    /// Silence before a previously-active track is flagged.
    pub silence_threshold_ms: u64,
    /// Minimum observation span before silence/identity alerting arms.
    pub min_track_age_ms: u64,
    /// Window for counting squawk-code churn.
    pub churn_window_ms: u64,
}

impl Default for DarkTargetConfig {
    fn default() -> (c: Self)
        ensures
            c.silence_threshold_ms == 45_000,
            c.min_track_age_ms == 30_000,
            c.churn_window_ms == 60_000,
    {
        DarkTargetConfig {
            silence_threshold_ms: 45_000,
            min_track_age_ms: 30_000,
            churn_window_ms: 60_000,
        }
    }
}

// ---------------------------------------------------------------------------
// Records
// ---------------------------------------------------------------------------

#[derive(Debug)]
struct Record {
    first_seen_ms: u64,
    last_seen_ms: u64,
    ever_had_callsign: bool,
    last_squawk: Option<String>,
    squawk_change_times_ms: VecDeque<u64>,
    churn_count: usize,
    current_alert: Option<AlertState>,
}

/// What the detector remembers about one ICAO address.
pub struct RecordModel {
    pub first_seen_ms: u64,
    pub last_seen_ms: u64,
    pub ever_had_callsign: bool,
    pub last_squawk: Option<Seq<char>>,
    pub squawk_change_times_ms: Seq<u64>,
    pub churn_count: usize,
    pub current_alert: Option<AlertState>,
}

pub open spec fn opt_string_view(o: Option<String>) -> Option<Seq<char>> {
    match o {
        Some(s) => Some(s@),
        None => None,
    }
}

impl Record {
    spec fn model(&self) -> RecordModel {
        RecordModel {
            first_seen_ms: self.first_seen_ms,
            last_seen_ms: self.last_seen_ms,
            ever_had_callsign: self.ever_had_callsign,
            last_squawk: opt_string_view(self.last_squawk),
            squawk_change_times_ms: self.squawk_change_times_ms@,
            churn_count: self.churn_count,
            current_alert: self.current_alert,
        }
    }

    fn new(now_ms: u64) -> (r: Self)
        ensures
            r.model() == new_record(now_ms),
    {
        Record {
            first_seen_ms: now_ms,
            last_seen_ms: now_ms,
            ever_had_callsign: false,
            last_squawk: None,
            squawk_change_times_ms: VecDeque::new(),
            churn_count: 0,
            current_alert: None,
        }
    }

    fn span_ms(&self, now_ms: u64) -> (s: u64)
        ensures
            s == sat_sub(now_ms, self.first_seen_ms),
    {
        now_ms.saturating_sub(self.first_seen_ms)
    }
}

pub open spec fn new_record(now_ms: u64) -> RecordModel {
    RecordModel {
        first_seen_ms: now_ms,
        last_seen_ms: now_ms,
        ever_had_callsign: false,
        last_squawk: None,
        squawk_change_times_ms: Seq::empty(),
        churn_count: 0,
        current_alert: None,
    }
}

pub open spec fn sat_sub(a: u64, b: u64) -> u64 {
    if a >= b {
        (a - b) as u64
    } else {
        0
    }
}

// ---------------------------------------------------------------------------
// Observations and verdicts
// ---------------------------------------------------------------------------

/// Snapshot input consumed each scan.
#[derive(Debug, Clone)]
pub struct TrackObservation {
    pub icao24: String,
    pub callsign: String,
    pub squawk: String,
}

pub struct ObservationModel {
    pub icao24: Seq<char>,
    pub callsign: Seq<char>,
    pub squawk: Seq<char>,
}

impl View for TrackObservation {
    type V = ObservationModel;

    open spec fn view(&self) -> ObservationModel {
        ObservationModel { icao24: self.icao24@, callsign: self.callsign@, squawk: self.squawk@ }
    }
}

/// One anomaly outcome; emitted only on alert-state transitions.
#[derive(Debug, Clone, PartialEq)]
pub struct AnomalyVerdict {
    pub icao24: String,
    pub alert: Option<AlertState>,
    pub reason: String,
}

pub struct VerdictModel {
    pub icao24: Seq<char>,
    pub alert: Option<AlertState>,
    pub reason: Seq<char>,
}

impl View for AnomalyVerdict {
    type V = VerdictModel;

    open spec fn view(&self) -> VerdictModel {
        VerdictModel { icao24: self.icao24@, alert: self.alert, reason: self.reason@ }
    }
}

pub open spec fn opt_verdict_view(v: Option<AnomalyVerdict>) -> Seq<VerdictModel> {
    match v {
        Some(v) => seq![v@],
        None => Seq::empty(),
    }
}

pub open spec fn verdict_views(vs: Seq<AnomalyVerdict>) -> Seq<VerdictModel> {
    vs.map_values(|v: AnomalyVerdict| v@)
}

// ---------------------------------------------------------------------------
// The per-observation transition
// ---------------------------------------------------------------------------

/// Alert raised by an emergency squawk code, if any.
pub open spec fn emergency_alert(squawk: Seq<char>) -> Option<AlertState> {
    if squawk == "7700"@ {
        Some(AlertState::Emergency)
    } else if squawk == "7600"@ {
        Some(AlertState::RadioFailure)
    } else if squawk == "7500"@ {
        Some(AlertState::Hijack)
    } else {
        None
    }
}

pub open spec fn emergency_reason(squawk: Seq<char>) -> Seq<char> {
    if squawk == "7700"@ {
        "SQUAWK 7700 GENERAL EMERGENCY"@
    } else if squawk == "7600"@ {
        "SQUAWK 7600 RADIO FAILURE"@
    } else {
        "SQUAWK 7500 UNLAWFUL INTERFERENCE"@
    }
}

/// Squawk-change timestamps with those older than the churn window
/// dropped from the front.
pub open spec fn evict_old(times: Seq<u64>, now_ms: u64, window_ms: u64) -> Seq<u64>
    decreases times.len(),
{
    if times.len() > 0 && sat_sub(now_ms, times[0]) > window_ms {
        evict_old(times.drop_first(), now_ms, window_ms)
    } else {
        times
    }
}

/// Squawk bookkeeping: the first code is remembered, later changes are
/// timestamped and counted (the count wraps like the machine word).
pub open spec fn track_churn(rec: RecordModel, squawk: Seq<char>, now_ms: u64, window_ms: u64) -> RecordModel {
    if squawk.len() == 0 {
        rec
    } else {
        match rec.last_squawk {
            None => RecordModel { last_squawk: Some(squawk), ..rec },
            Some(prev) => if prev != squawk {
                RecordModel {
                    last_squawk: Some(squawk),
                    squawk_change_times_ms: evict_old(
                        rec.squawk_change_times_ms.push(now_ms),
                        now_ms,
                        window_ms,
                    ),
                    churn_count: if rec.churn_count == usize::MAX {
                        0
                    } else {
                        (rec.churn_count + 1) as usize
                    },
                    ..rec
                }
            } else {
                rec
            },
        }
    }
}

/// Observed span rounded to whole seconds, ties to even (as `{:.0}`
/// renders it).
pub open spec fn rounded_seconds(ms: nat) -> nat {
    let q = ms / 1000;
    let r = ms % 1000;
    if r > 500 || (r == 500 && q % 2 == 1) {
        q + 1
    } else {
        q
    }
}

pub open spec fn identity_reason(span_ms: u64) -> Seq<char> {
    "NO IDENTITY BROADCAST ("@ + decimal(rounded_seconds(span_ms as nat)) + "s OBSERVED)"@
}

pub open spec fn silence_reason() -> Seq<char> {
    "TRANSPONDER SILENCE AFTER ACTIVE TRACK"@
}

/// Processing of one observation against the record of its address:
/// the record is refreshed, an emergency squawk wins, otherwise squawk
/// churn is tracked and an identity-less emitter past the arming age is
/// flagged; a verdict is produced only when the alert changes.
pub open spec fn observe(
    rec: RecordModel,
    o: ObservationModel,
    now_ms: u64,
    cfg: DarkTargetConfig,
) -> (RecordModel, Option<VerdictModel>) {
    let r1 = RecordModel {
        last_seen_ms: now_ms,
        ever_had_callsign: rec.ever_had_callsign || o.callsign.len() > 0,
        ..rec
    };
    let emerg = emergency_alert(o.squawk);
    let r2 = if emerg is None {
        track_churn(r1, o.squawk, now_ms, cfg.churn_window_ms)
    } else {
        r1
    };
    let span = sat_sub(now_ms, r2.first_seen_ms);
    let (next, reason) = match emerg {
        Some(a) => (Some(a), emergency_reason(o.squawk)),
        None => if !r2.ever_had_callsign && span >= cfg.min_track_age_ms {
            (Some(AlertState::DarkTarget), identity_reason(span))
        } else {
            (None, Seq::empty())
        },
    };
    if next != r2.current_alert {
        (
            RecordModel { current_alert: next, ..r2 },
            Some(VerdictModel { icao24: o.icao24, alert: next, reason }),
        )
    } else {
        (r2, None)
    }
}

fn same_alert(a: Option<AlertState>, b: Option<AlertState>) -> (r: bool)
    ensures
        r == (a == b),
{
    match (a, b) {
        (None, None) => true,
        (Some(x), Some(y)) => x == y,
        _ => false,
    }
}

fn emergency_of(squawk: &String) -> (r: Option<(AlertState, String)>)
    ensures
        r matches Some((a, reason)) ==> emergency_alert(squawk@) == Some(a) && reason@
            == emergency_reason(squawk@),
        r is None ==> emergency_alert(squawk@) is None,
{
    if *squawk == SQUAWK_EMERGENCY.to_owned() {
        Some((AlertState::Emergency, "SQUAWK 7700 GENERAL EMERGENCY".to_owned()))
    } else if *squawk == SQUAWK_RADIO_FAILURE.to_owned() {
        Some((AlertState::RadioFailure, "SQUAWK 7600 RADIO FAILURE".to_owned()))
    } else if *squawk == SQUAWK_HIJACK.to_owned() {
        Some((AlertState::Hijack, "SQUAWK 7500 UNLAWFUL INTERFERENCE".to_owned()))
    } else {
        None
    }
}

fn rounded_seconds_of(ms: u64) -> (s: u64)
    ensures
        s as nat == rounded_seconds(ms as nat),
{
    let q = ms / 1000;
    let r = ms % 1000;
    if r > 500 || (r == 500 && q % 2 == 1) {
        q + 1
    } else {
        q
    }
}

fn track_churn_exec(rec: &mut Record, squawk: &String, now_ms: u64, window_ms: u64)
    ensures
        final(rec).model() == track_churn(old(rec).model(), squawk@, now_ms, window_ms),
{
    if squawk.as_str().is_empty() {
        return;
    }
    let changed = match &rec.last_squawk {
        None => {
            rec.last_squawk = Some(squawk.clone());
            return;
        },
        Some(prev) => !(*prev == *squawk),
    };
    if changed {
        rec.last_squawk = Some(squawk.clone());
        rec.squawk_change_times_ms.push_back(now_ms);
        rec.churn_count = if rec.churn_count == usize::MAX {
            0
        } else {
            rec.churn_count + 1
        };
        let ghost pushed = rec.squawk_change_times_ms@;
        let ghost m0 = rec.model();
        assert(pushed == old(rec).model().squawk_change_times_ms.push(now_ms));
        while rec.squawk_change_times_ms.len() > 0 && now_ms.saturating_sub(
            rec.squawk_change_times_ms[0],
        ) > window_ms
            invariant
                rec.model() == (RecordModel { squawk_change_times_ms: rec.squawk_change_times_ms@, ..m0 }),
                evict_old(pushed, now_ms, window_ms) == evict_old(
                    rec.squawk_change_times_ms@,
                    now_ms,
                    window_ms,
                ),
            decreases rec.squawk_change_times_ms@.len(),
        {
            let ghost before = rec.squawk_change_times_ms@;
            let _ = rec.squawk_change_times_ms.pop_front();
            assert(rec.squawk_change_times_ms@ =~= before.drop_first());
        }
        proof {
            let t = rec.squawk_change_times_ms@;
            if t.len() > 0 {
                assert(sat_sub(now_ms, t[0]) <= window_ms);
            }
            assert(evict_old(t, now_ms, window_ms) == t);
        }
    }
}

fn observe_record(rec: &mut Record, o: &TrackObservation, now_ms: u64, cfg: &DarkTargetConfig) -> (v: Option<AnomalyVerdict>)
    ensures
        (final(rec).model(), opt_verdict_view(v)) == ({
            let (r, ov) = observe(old(rec).model(), o@, now_ms, *cfg);
            (r, match ov { Some(x) => seq![x], None => Seq::empty() })
        }),
{
    rec.last_seen_ms = now_ms;
    if !o.callsign.as_str().is_empty() {
        rec.ever_had_callsign = true;
    }
    let emerg = emergency_of(&o.squawk);
    if emerg.is_none() {
        track_churn_exec(rec, &o.squawk, now_ms, cfg.churn_window_ms);
    }
    let span = rec.span_ms(now_ms);
    let (next, reason) = match emerg {
        Some((a, reason)) => (Some(a), reason),
        None => if !rec.ever_had_callsign && span >= cfg.min_track_age_ms {
            let mut reason = "NO IDENTITY BROADCAST (".to_owned();
            push_decimal(&mut reason, rounded_seconds_of(span));
            push_str(&mut reason, "s OBSERVED)");
            (Some(AlertState::DarkTarget), reason)
        } else {
            (None, String::new())
        },
    };
    if !same_alert(next, rec.current_alert) {
        rec.current_alert = next;
        Some(AnomalyVerdict { icao24: o.icao24.clone(), alert: next, reason })
    } else {
        None
    }
}

// ---------------------------------------------------------------------------
// Detector
// ---------------------------------------------------------------------------

/// Index of the first entry keyed `key` at or after `from`.
pub open spec fn key_index_from(entries: Seq<(Seq<char>, RecordModel)>, key: Seq<char>, from: int) -> Option<int>
    decreases entries.len() - from,
{
    if from < 0 || from >= entries.len() {
        None
    } else if entries[from].0 == key {
        Some(from)
    } else {
        key_index_from(entries, key, from + 1)
    }
}

pub open spec fn key_index(entries: Seq<(Seq<char>, RecordModel)>, key: Seq<char>) -> Option<int> {
    key_index_from(entries, key, 0)
}

/// Every address appears at most once.
pub open spec fn keys_unique(entries: Seq<(Seq<char>, RecordModel)>) -> bool {
    forall|i: int, j: int|
        0 <= i < entries.len() && 0 <= j < entries.len() && i != j ==> entries[i].0 != entries[j].0
}

/// Applies one observation to the entry table.
pub open spec fn apply_observation(
    entries: Seq<(Seq<char>, RecordModel)>,
    o: ObservationModel,
    now_ms: u64,
    cfg: DarkTargetConfig,
) -> (Seq<(Seq<char>, RecordModel)>, Seq<VerdictModel>) {
    let (idx, rec) = match key_index(entries, o.icao24) {
        Some(i) => (i, entries[i].1),
        None => (entries.len() as int, new_record(now_ms)),
    };
    let (r, v) = observe(rec, o, now_ms, cfg);
    let verdicts = match v {
        Some(x) => seq![x],
        None => Seq::empty(),
    };
    if idx < entries.len() {
        (entries.update(idx, (o.icao24, r)), verdicts)
    } else {
        (entries.push((o.icao24, r)), verdicts)
    }
}

/// The observation phase of a scan: observations applied in order.
pub open spec fn observe_all(
    entries: Seq<(Seq<char>, RecordModel)>,
    obs: Seq<ObservationModel>,
    now_ms: u64,
    cfg: DarkTargetConfig,
) -> (Seq<(Seq<char>, RecordModel)>, Seq<VerdictModel>)
    decreases obs.len(),
{
    if obs.len() == 0 {
        (entries, Seq::empty())
    } else {
        let (e1, v1) = observe_all(entries, obs.drop_last(), now_ms, cfg);
        let (e2, v2) = apply_observation(e1, obs.last(), now_ms, cfg);
        (e2, v1 + v2)
    }
}

pub open spec fn is_seen(obs: Seq<ObservationModel>, key: Seq<char>) -> bool {
    exists|i: int| 0 <= i < obs.len() && obs[i].icao24 == key
}

/// A previously cooperative track, armed, and silent for the threshold.
pub open spec fn gone_silent(rec: RecordModel, now_ms: u64, cfg: DarkTargetConfig) -> bool {
    &&& rec.ever_had_callsign
    &&& sat_sub(rec.last_seen_ms, rec.first_seen_ms) >= cfg.min_track_age_ms
    &&& sat_sub(now_ms, rec.last_seen_ms) >= cfg.silence_threshold_ms
}

/// The absentee phase over the first `k` entries: unseen tracks that went
/// silent turn dark, once.
pub open spec fn age_absentees(
    entries: Seq<(Seq<char>, RecordModel)>,
    obs: Seq<ObservationModel>,
    now_ms: u64,
    cfg: DarkTargetConfig,
    k: nat,
) -> (Seq<(Seq<char>, RecordModel)>, Seq<VerdictModel>)
    decreases k,
{
    if k == 0 || k > entries.len() {
        (entries, Seq::empty())
    } else {
        let (e1, v1) = age_absentees(entries, obs, now_ms, cfg, (k - 1) as nat);
        let (key, rec) = entries[k - 1];
        if !is_seen(obs, key) && gone_silent(rec, now_ms, cfg) && rec.current_alert != Some(
            AlertState::DarkTarget,
        ) {
            (
                e1.update(k - 1, (key, RecordModel { current_alert: Some(AlertState::DarkTarget), ..rec })),
                v1.push(
                    VerdictModel {
                        icao24: key,
                        alert: Some(AlertState::DarkTarget),
                        reason: silence_reason(),
                    },
                ),
            )
        } else {
            (e1, v1)
        }
    }
}

/// One complete scan: the entry table afterwards and the verdicts in
/// emission order.
pub open spec fn spec_scan(
    entries: Seq<(Seq<char>, RecordModel)>,
    obs: Seq<ObservationModel>,
    now_ms: u64,
    cfg: DarkTargetConfig,
) -> (Seq<(Seq<char>, RecordModel)>, Seq<VerdictModel>) {
    let (e1, v1) = observe_all(entries, obs, now_ms, cfg);
    let (e2, v2) = age_absentees(e1, obs, now_ms, cfg, e1.len());
    (e2, v1 + v2)
}

pub open spec fn observation_views(obs: Seq<TrackObservation>) -> Seq<ObservationModel> {
    obs.map_values(|o: TrackObservation| o@)
}

/// Per-address anomaly state machine.
pub struct AnomalyDetector {
    cfg: DarkTargetConfig,
    keys: Vec<String>,
    records: Vec<Record>,
}

impl Default for AnomalyDetector {
    fn default() -> (d: Self)
        ensures
            d.wf(),
            d.entries() == Seq::<(Seq<char>, RecordModel)>::empty(),
            d.config() == (DarkTargetConfig {
                silence_threshold_ms: 45_000,
                min_track_age_ms: 30_000,
                churn_window_ms: 60_000,
            }),
    {
        AnomalyDetector::new(DarkTargetConfig::default())
    }
}

impl AnomalyDetector {
    /// The entry table: each known address with its record, in the order
    /// the addresses were first observed.
    pub closed spec fn entries(&self) -> Seq<(Seq<char>, RecordModel)> {
        Seq::new(self.keys@.len(), |i: int| (self.keys@[i]@, self.records@[i].model()))
    }

    pub closed spec fn config(&self) -> DarkTargetConfig {
        self.cfg
    }

    /// The table is consistent and keyed uniquely.
    pub closed spec fn wf(&self) -> bool {
        &&& self.keys@.len() == self.records@.len()
        &&& keys_unique(self.entries())
    }

    /// A well-formed detector keys its table uniquely: no address has two
    /// entries.
    pub proof fn lemma_wf_keys_unique(&self)
        requires
            self.wf(),
        ensures
            keys_unique(self.entries()),
    {
    }

    pub fn new(cfg: DarkTargetConfig) -> (d: Self)
        ensures
            d.wf(),
            d.entries() == Seq::<(Seq<char>, RecordModel)>::empty(),
            d.config() == cfg,
    {
        let d = AnomalyDetector { cfg, keys: Vec::new(), records: Vec::new() };
        assert(d.entries() =~= Seq::<(Seq<char>, RecordModel)>::empty());
        d
    }

    pub fn tracked_count(&self) -> (n: usize)
        requires
            self.wf(),
        ensures
            n == self.entries().len(),
    {
        self.keys.len()
    }

    /// Number of squawk changes recorded for `icao24`, if it is known.
    pub fn churn_count(&self, icao24: &str) -> (c: Option<usize>)
        requires
            self.wf(),
        ensures
            c == (match key_index(self.entries(), icao24@) {
                Some(i) => Some(self.entries()[i].1.churn_count),
                None => None::<usize>,
            }),
    {
        let key = icao24.to_owned();
        match self.find(&key) {
            Some(i) => Some(self.records[i].churn_count),
            None => None,
        }
    }

    fn find(&self, key: &String) -> (r: Option<usize>)
        requires
            self.wf(),
        ensures
            r matches Some(i) ==> key_index(self.entries(), key@) == Some(i as int) && i
                < self.keys@.len(),
            r is None ==> key_index(self.entries(), key@) is None,
    {
        let mut i: usize = 0;
        while i < self.keys.len()
            invariant
                self.wf(),
                i <= self.keys@.len(),
                key_index(self.entries(), key@) == key_index_from(self.entries(), key@, i as int),
            decreases self.keys.len() - i,
        {
            if self.keys[i] == *key {
                assert(self.entries()[i as int].0 == key@);
                return Some(i);
            }
            assert(self.entries()[i as int].0 != key@);
            i += 1;
        }
        None
    }

    /// Applies one observation to the table.
    fn observe_one(&mut self, o: &TrackObservation, now_ms: u64) -> (v: Option<AnomalyVerdict>)
        requires
            old(self).wf(),
        ensures
            final(self).wf(),
            final(self).config() == old(self).config(),
            (final(self).entries(), opt_verdict_view(v)) == apply_observation(
                old(self).entries(),
                o@,
                now_ms,
                old(self).config(),
            ),
    {
        let ghost before = self.entries();
        let cfg = self.cfg;
        proof {
            lemma_key_index_from(before, o@.icao24, 0);
        }
        match self.find(&o.icao24) {
            Some(k) => {
                let v = observe_record(&mut self.records[k], o, now_ms, &cfg);
                proof {
                    assert(self.entries() =~= before.update(
                        k as int,
                        (o@.icao24, self.records@[k as int].model()),
                    ));
                    assert(keys_unique(self.entries())) by {
                        assert forall|i: int, j: int|
                            0 <= i < self.entries().len() && 0 <= j < self.entries().len() && i
                                != j implies self.entries()[i].0 != self.entries()[j].0 by {
                            assert(self.entries()[i].0 == before[i].0);
                            assert(self.entries()[j].0 == before[j].0);
                        }
                    }
                }
                v
            },
            None => {
                let mut rec = Record::new(now_ms);
                let v = observe_record(&mut rec, o, now_ms, &cfg);
                self.keys.push(o.icao24.clone());
                self.records.push(rec);
                proof {
                    assert(self.entries() =~= before.push((o@.icao24, rec.model())));
                    assert(keys_unique(self.entries())) by {
                        assert forall|i: int, j: int|
                            0 <= i < self.entries().len() && 0 <= j < self.entries().len() && i
                                != j implies self.entries()[i].0 != self.entries()[j].0 by {
                            if i < before.len() {
                                assert(self.entries()[i].0 == before[i].0);
                            }
                            if j < before.len() {
                                assert(self.entries()[j].0 == before[j].0);
                            }
                        }
                    }
                }
                v
            },
        }
    }

    /// Turns the `k`-th entry dark when it is absent and has gone silent.
    fn age_entry(&mut self, k: usize, seen: bool, now_ms: u64) -> (v: Option<AnomalyVerdict>)
        requires
            old(self).wf(),
            k < old(self).entries().len(),
        ensures
            final(self).wf(),
            final(self).config() == old(self).config(),
            ({
                let (key, rec) = old(self).entries()[k as int];
                if !seen && gone_silent(rec, now_ms, old(self).config()) && rec.current_alert
                    != Some(AlertState::DarkTarget) {
                    &&& final(self).entries() == old(self).entries().update(
                        k as int,
                        (key, RecordModel { current_alert: Some(AlertState::DarkTarget), ..rec }),
                    )
                    &&& opt_verdict_view(v) == seq![
                        VerdictModel {
                            icao24: key,
                            alert: Some(AlertState::DarkTarget),
                            reason: silence_reason(),
                        },
                    ]
                } else {
                    &&& final(self).entries() == old(self).entries()
                    &&& v is None
                }
            }),
    {
        let ghost before = self.entries();
        let cfg = self.cfg;
        let rec = &self.records[k];
        let silent = rec.ever_had_callsign && rec.last_seen_ms.saturating_sub(rec.first_seen_ms)
            >= cfg.min_track_age_ms && now_ms.saturating_sub(rec.last_seen_ms)
            >= cfg.silence_threshold_ms;
        let already_dark = same_alert(rec.current_alert, Some(AlertState::DarkTarget));
        if !seen && silent && !already_dark {
            self.records[k].current_alert = Some(AlertState::DarkTarget);
            proof {
                assert(self.entries() =~= before.update(
                    k as int,
                    (before[k as int].0, RecordModel {
                        current_alert: Some(AlertState::DarkTarget),
                        ..before[k as int].1
                    }),
                ));
                assert(keys_unique(self.entries())) by {
                    assert forall|i: int, j: int|
                        0 <= i < self.entries().len() && 0 <= j < self.entries().len() && i
                            != j implies self.entries()[i].0 != self.entries()[j].0 by {
                        assert(self.entries()[i].0 == before[i].0);
                        assert(self.entries()[j].0 == before[j].0);
                    }
                }
            }
            let verdict = AnomalyVerdict {
                icao24: self.keys[k].clone(),
                alert: Some(AlertState::DarkTarget),
                reason: "TRANSPONDER SILENCE AFTER ACTIVE TRACK".to_owned(),
            };
            proof {
                reveal_strlit("TRANSPONDER SILENCE AFTER ACTIVE TRACK");
                assert(opt_verdict_view(Some(verdict)) =~= seq![verdict@]);
            }
            Some(verdict)
        } else {
            proof {
                assert(self.entries() =~= before);
            }
            None
        }
    }

    /// Processes one scan at engine time `now_ms`.
    ///
    /// `observations` covers every track currently alive; anything known but
    /// absent ages toward the silence verdict.
    pub fn scan(&mut self, observations: &[TrackObservation], now_ms: u64) -> (verdicts: Vec<AnomalyVerdict>)
        requires
            old(self).wf(),
        ensures
            final(self).wf(),
            final(self).config() == old(self).config(),
            (final(self).entries(), verdict_views(verdicts@)) == spec_scan(
                old(self).entries(),
                observation_views(observations@),
                now_ms,
                old(self).config(),
            ),
    {
        let ghost obs = observation_views(observations@);
        let ghost e0 = self.entries();
        let mut changed: Vec<AnomalyVerdict> = Vec::new();
        let mut i: usize = 0;
        while i < observations.len()
            invariant
                self.wf(),
                self.config() == old(self).config(),
                e0 == old(self).entries(),
                obs == observation_views(observations@),
                i <= observations@.len(),
                (self.entries(), verdict_views(changed@)) == observe_all(
                    e0,
                    obs.subrange(0, i as int),
                    now_ms,
                    self.config(),
                ),
            decreases observations.len() - i,
        {
            let ghost before_v = verdict_views(changed@);
            proof {
                assert(obs.subrange(0, i + 1).drop_last() =~= obs.subrange(0, i as int));
                assert(obs.subrange(0, i + 1).last() == observations@[i as int]@);
            }
            let v = self.observe_one(&observations[i], now_ms);
            match v {
                Some(verdict) => {
                    changed.push(verdict);
                },
                None => {},
            }
            assert(verdict_views(changed@) =~= before_v + opt_verdict_view(v));
            i += 1;
        }
        assert(obs.subrange(0, observations@.len() as int) =~= obs);
        let ghost e1 = self.entries();
        let ghost v1 = verdict_views(changed@);
        let mut k: usize = 0;
        while k < self.keys.len()
            invariant
                self.wf(),
                self.config() == old(self).config(),
                obs == observation_views(observations@),
                e1.len() == self.entries().len(),
                k <= self.entries().len(),
                (self.entries(), verdict_views(changed@)) == ({
                    let (e2, v2) = age_absentees(e1, obs, now_ms, self.config(), k as nat);
                    (e2, v1 + v2)
                }),
            decreases self.entries().len() - k,
        {
            proof {
                lemma_age_absentees_frame(e1, obs, now_ms, self.config(), k as nat);
            }
            let ghost before_v = verdict_views(changed@);
            let seen = observed(observations, &self.keys[k]);
            let v = self.age_entry(k, seen, now_ms);
            match v {
                Some(verdict) => {
                    changed.push(verdict);
                },
                None => {},
            }
            assert(verdict_views(changed@) =~= before_v + opt_verdict_view(v));
            k += 1;
        }
        changed
    }
}

/// Whether some observation carries the address `key`.
fn observed(observations: &[TrackObservation], key: &String) -> (r: bool)
    ensures
        r == is_seen(observation_views(observations@), key@),
{
    let ghost obs = observation_views(observations@);
    let mut j: usize = 0;
    while j < observations.len()
        invariant
            j <= observations@.len(),
            obs == observation_views(observations@),
            forall|x: int| 0 <= x < j ==> obs[x].icao24 != key@,
        decreases observations.len() - j,
    {
        if observations[j].icao24 == *key {
            assert(obs[j as int].icao24 == key@);
            return true;
        }
        j += 1;
    }
    false
}

proof fn lemma_key_index_from(entries: Seq<(Seq<char>, RecordModel)>, key: Seq<char>, from: int)
    requires
        0 <= from,
    ensures
        match key_index_from(entries, key, from) {
            Some(i) => from <= i < entries.len() && entries[i].0 == key,
            None => forall|j: int| from <= j < entries.len() ==> entries[j].0 != key,
        },
    decreases entries.len() - from,
{
    if from < entries.len() && entries[from].0 != key {
        lemma_key_index_from(entries, key, from + 1);
    }
}

proof fn lemma_age_absentees_frame(
    entries: Seq<(Seq<char>, RecordModel)>,
    obs: Seq<ObservationModel>,
    now_ms: u64,
    cfg: DarkTargetConfig,
    k: nat,
)
    requires
        k <= entries.len(),
    ensures
        age_absentees(entries, obs, now_ms, cfg, k).0.len() == entries.len(),
        forall|j: int|
            k <= j < entries.len() ==> #[trigger] age_absentees(entries, obs, now_ms, cfg, k).0[j]
                == entries[j],
    decreases k,
{
    if k > 0 {
        lemma_age_absentees_frame(entries, obs, now_ms, cfg, (k - 1) as nat);
    }
}

// ---------------------------------------------------------------------------
// Repeated scans
// ---------------------------------------------------------------------------

/// The entry for `o`'s address exists and is a fixed point of `o`.
pub open spec fn settled(
    entries: Seq<(Seq<char>, RecordModel)>,
    o: ObservationModel,
    now_ms: u64,
    cfg: DarkTargetConfig,
) -> bool {
    match key_index(entries, o.icao24) {
        Some(i) => observe(entries[i].1, o, now_ms, cfg) == (entries[i].1, None::<VerdictModel>),
        None => false,
    }
}

/// Each address occurs at most once among the observations.
pub open spec fn distinct_addresses(obs: Seq<ObservationModel>) -> bool {
    forall|i: int, j: int| 0 <= i < j < obs.len() ==> obs[i].icao24 != obs[j].icao24
}

/// An absent, previously cooperative track that has gone silent and is not
/// dark yet.
pub open spec fn ages_dark(
    entry: (Seq<char>, RecordModel),
    obs: Seq<ObservationModel>,
    now_ms: u64,
    cfg: DarkTargetConfig,
) -> bool {
    !is_seen(obs, entry.0) && gone_silent(entry.1, now_ms, cfg) && entry.1.current_alert != Some(
        AlertState::DarkTarget,
    )
}

pub open spec fn aged(
    entry: (Seq<char>, RecordModel),
    obs: Seq<ObservationModel>,
    now_ms: u64,
    cfg: DarkTargetConfig,
) -> (Seq<char>, RecordModel) {
    if ages_dark(entry, obs, now_ms, cfg) {
        (entry.0, RecordModel { current_alert: Some(AlertState::DarkTarget), ..entry.1 })
    } else {
        entry
    }
}

proof fn lemma_observe_idempotent(
    rec: RecordModel,
    o: ObservationModel,
    now_ms: u64,
    cfg: DarkTargetConfig,
)
    ensures
        observe(observe(rec, o, now_ms, cfg).0, o, now_ms, cfg) == (
            observe(rec, o, now_ms, cfg).0,
            None::<VerdictModel>,
        ),
{
    let r = observe(rec, o, now_ms, cfg).0;
    let r1 = RecordModel {
        last_seen_ms: now_ms,
        ever_had_callsign: r.ever_had_callsign || o.callsign.len() > 0,
        ..r
    };
    assert(r1 == r);
    if emergency_alert(o.squawk) is None {
        assert(track_churn(r1, o.squawk, now_ms, cfg.churn_window_ms) == r1);
    }
}

/// Key lookups agree on two tables whose first `n` keys agree, when the key
/// sits among them.
proof fn lemma_key_index_keys(
    a: Seq<(Seq<char>, RecordModel)>,
    b: Seq<(Seq<char>, RecordModel)>,
    key: Seq<char>,
    from: int,
)
    requires
        0 <= from,
        a.len() <= b.len(),
        forall|j: int| 0 <= j < a.len() ==> #[trigger] b[j].0 == a[j].0,
        key_index_from(a, key, from) is Some,
    ensures
        key_index_from(b, key, from) == key_index_from(a, key, from),
    decreases a.len() - from,
{
    if from < a.len() && a[from].0 != key {
        lemma_key_index_keys(a, b, key, from + 1);
    }
}

/// Applying an observation settles its address, keeps the keys unique,
/// keeps the old keys in place, and leaves every other settled address
/// settled.
proof fn lemma_apply_settles(
    e: Seq<(Seq<char>, RecordModel)>,
    o: ObservationModel,
    now_ms: u64,
    cfg: DarkTargetConfig,
)
    requires
        keys_unique(e),
    ensures
        ({
            let e2 = apply_observation(e, o, now_ms, cfg).0;
            &&& keys_unique(e2)
            &&& settled(e2, o, now_ms, cfg)
            &&& e.len() <= e2.len()
            &&& forall|j: int| 0 <= j < e.len() ==> #[trigger] e2[j].0 == e[j].0
            &&& forall|o2: ObservationModel|
                o2.icao24 != o.icao24 && #[trigger] settled(e, o2, now_ms, cfg) ==> settled(
                    e2,
                    o2,
                    now_ms,
                    cfg,
                )
        }),
{
    let e2 = apply_observation(e, o, now_ms, cfg).0;
    lemma_key_index_from(e, o.icao24, 0);
    let (idx, rec) = match key_index(e, o.icao24) {
        Some(i) => (i, e[i].1),
        None => (e.len() as int, new_record(now_ms)),
    };
    let r = observe(rec, o, now_ms, cfg).0;
    lemma_observe_idempotent(rec, o, now_ms, cfg);
    assert(e2[idx] == (o.icao24, r));
    assert forall|j: int| 0 <= j < e.len() implies #[trigger] e2[j].0 == e[j].0 by {}
    assert(keys_unique(e2)) by {
        assert forall|i: int, j: int|
            0 <= i < e2.len() && 0 <= j < e2.len() && i != j implies e2[i].0 != e2[j].0 by {
            if i < e.len() {
                assert(e2[i].0 == e[i].0);
            }
            if j < e.len() {
                assert(e2[j].0 == e[j].0);
            }
        }
    }
    lemma_key_index_from(e2, o.icao24, 0);
    assert(key_index(e2, o.icao24) == Some(idx)) by {
        if idx < e.len() {
            lemma_key_index_keys(e, e2, o.icao24, 0);
        } else {
            match key_index(e2, o.icao24) {
                Some(i) => {
                    if i != idx {
                        assert(e2[i].0 == e[i].0);
                    }
                },
                None => {},
            }
        }
    }
    assert(settled(e2, o, now_ms, cfg));
    assert forall|o2: ObservationModel|
        o2.icao24 != o.icao24 && #[trigger] settled(e, o2, now_ms, cfg) implies settled(
        e2,
        o2,
        now_ms,
        cfg,
    ) by {
        lemma_key_index_from(e, o2.icao24, 0);
        lemma_key_index_keys(e, e2, o2.icao24, 0);
        let i2 = key_index(e, o2.icao24)->0;
        assert(i2 != idx);
        assert(e2[i2] == e[i2]);
    }
}

proof fn lemma_first_pass(
    e: Seq<(Seq<char>, RecordModel)>,
    obs: Seq<ObservationModel>,
    now_ms: u64,
    cfg: DarkTargetConfig,
)
    requires
        keys_unique(e),
        distinct_addresses(obs),
    ensures
        keys_unique(observe_all(e, obs, now_ms, cfg).0),
        forall|j: int|
            0 <= j < obs.len() ==> settled(
                observe_all(e, obs, now_ms, cfg).0,
                #[trigger] obs[j],
                now_ms,
                cfg,
            ),
    decreases obs.len(),
{
    if obs.len() > 0 {
        let prefix = obs.drop_last();
        lemma_first_pass(e, prefix, now_ms, cfg);
        let e1 = observe_all(e, prefix, now_ms, cfg).0;
        lemma_apply_settles(e1, obs.last(), now_ms, cfg);
        assert forall|j: int| 0 <= j < obs.len() implies settled(
            observe_all(e, obs, now_ms, cfg).0,
            #[trigger] obs[j],
            now_ms,
            cfg,
        ) by {
            if j < obs.len() - 1 {
                assert(prefix[j] == obs[j]);
                assert(settled(e1, obs[j], now_ms, cfg));
            }
        }
    }
}

proof fn lemma_settled_pass(
    e: Seq<(Seq<char>, RecordModel)>,
    obs: Seq<ObservationModel>,
    now_ms: u64,
    cfg: DarkTargetConfig,
)
    requires
        forall|j: int| 0 <= j < obs.len() ==> settled(e, #[trigger] obs[j], now_ms, cfg),
    ensures
        observe_all(e, obs, now_ms, cfg) == (e, Seq::<VerdictModel>::empty()),
    decreases obs.len(),
{
    if obs.len() > 0 {
        let prefix = obs.drop_last();
        assert forall|j: int| 0 <= j < prefix.len() implies settled(
            e,
            #[trigger] prefix[j],
            now_ms,
            cfg,
        ) by {
            assert(prefix[j] == obs[j]);
        }
        lemma_settled_pass(e, prefix, now_ms, cfg);
        let o = obs.last();
        assert(settled(e, obs[obs.len() - 1], now_ms, cfg));
        lemma_key_index_from(e, o.icao24, 0);
        let i = key_index(e, o.icao24)->0;
        assert(e.update(i, (o.icao24, e[i].1)) =~= e);
        assert(Seq::<VerdictModel>::empty() + Seq::<VerdictModel>::empty() =~= Seq::<
            VerdictModel,
        >::empty());
    }
}

proof fn lemma_age_shape(
    e: Seq<(Seq<char>, RecordModel)>,
    obs: Seq<ObservationModel>,
    now_ms: u64,
    cfg: DarkTargetConfig,
    k: nat,
)
    requires
        k <= e.len(),
    ensures
        age_absentees(e, obs, now_ms, cfg, k).0.len() == e.len(),
        forall|j: int|
            0 <= j < e.len() ==> #[trigger] age_absentees(e, obs, now_ms, cfg, k).0[j] == if j
                < k {
                aged(e[j], obs, now_ms, cfg)
            } else {
                e[j]
            },
    decreases k,
{
    if k > 0 {
        lemma_age_shape(e, obs, now_ms, cfg, (k - 1) as nat);
    }
}

proof fn lemma_age_quiet(
    e: Seq<(Seq<char>, RecordModel)>,
    obs: Seq<ObservationModel>,
    now_ms: u64,
    cfg: DarkTargetConfig,
    k: nat,
)
    requires
        k <= e.len(),
        forall|j: int| 0 <= j < k ==> !ages_dark(#[trigger] e[j], obs, now_ms, cfg),
    ensures
        age_absentees(e, obs, now_ms, cfg, k) == (e, Seq::<VerdictModel>::empty()),
    decreases k,
{
    if k > 0 {
        lemma_age_quiet(e, obs, now_ms, cfg, (k - 1) as nat);
        assert(!ages_dark(e[k - 1], obs, now_ms, cfg));
    }
}

/// Verdicts mark alert transitions only: a scan repeated at the same
/// instant with the same observations, each address observed once, leaves
/// the table as it is and raises no verdict.
pub proof fn rescan_is_quiet(
    entries: Seq<(Seq<char>, RecordModel)>,
    obs: Seq<ObservationModel>,
    now_ms: u64,
    cfg: DarkTargetConfig,
)
    requires
        keys_unique(entries),
        distinct_addresses(obs),
    ensures
        spec_scan(spec_scan(entries, obs, now_ms, cfg).0, obs, now_ms, cfg) == (
            spec_scan(entries, obs, now_ms, cfg).0,
            Seq::<VerdictModel>::empty(),
        ),
{
    let e1 = observe_all(entries, obs, now_ms, cfg).0;
    lemma_first_pass(entries, obs, now_ms, cfg);
    let n = e1.len();
    let e2 = age_absentees(e1, obs, now_ms, cfg, n).0;
    lemma_age_shape(e1, obs, now_ms, cfg, n);
    assert(spec_scan(entries, obs, now_ms, cfg).0 == e2);
    assert forall|j: int| 0 <= j < e1.len() implies #[trigger] e2[j].0 == e1[j].0 by {}
    assert forall|j: int| 0 <= j < obs.len() implies settled(e2, #[trigger] obs[j], now_ms, cfg) by {
        let o = obs[j];
        assert(settled(e1, o, now_ms, cfg));
        lemma_key_index_from(e1, o.icao24, 0);
        lemma_key_index_keys(e1, e2, o.icao24, 0);
        let i = key_index(e1, o.icao24)->0;
        assert(is_seen(obs, e1[i].0));
        assert(e2[i] == e1[i]);
    }
    lemma_settled_pass(e2, obs, now_ms, cfg);
    assert forall|j: int| 0 <= j < e2.len() implies !ages_dark(#[trigger] e2[j], obs, now_ms, cfg) by {
        assert(e2[j] == aged(e1[j], obs, now_ms, cfg));
    }
    lemma_age_quiet(e2, obs, now_ms, cfg, e2.len());
    assert(Seq::<VerdictModel>::empty() + Seq::<VerdictModel>::empty() =~= Seq::<
        VerdictModel,
    >::empty());
}

/// Squawk churn is counted but never alerts by itself: with two
/// non-emergency squawks, an observation leads to the same alert and the
/// same verdict (or none) either way.
pub proof fn churn_never_alerts(
    rec: RecordModel,
    o1: ObservationModel,
    o2: ObservationModel,
    now_ms: u64,
    cfg: DarkTargetConfig,
)
    requires
        o1.icao24 == o2.icao24,
        o1.callsign == o2.callsign,
        emergency_alert(o1.squawk) is None,
        emergency_alert(o2.squawk) is None,
    ensures
        observe(rec, o1, now_ms, cfg).0.current_alert == observe(rec, o2, now_ms, cfg).0.current_alert,
        observe(rec, o1, now_ms, cfg).1 == observe(rec, o2, now_ms, cfg).1,
{
}

proof fn lemma_seen_prefix(obs: Seq<ObservationModel>, key: Seq<char>)
    requires
        obs.len() > 0,
        !is_seen(obs, key),
    ensures
        !is_seen(obs.drop_last(), key),
        obs.last().icao24 != key,
{
    let p = obs.drop_last();
    if is_seen(p, key) {
        let i = choose|i: int| 0 <= i < p.len() && p[i].icao24 == key;
        assert(obs[i].icao24 == key);
    }
    assert(obs[obs.len() - 1].icao24 != key);
}

/// The observation phase leaves an address that is not observed where it
/// was, untouched, and raises no verdict for it.
proof fn lemma_observe_all_unseen(
    e: Seq<(Seq<char>, RecordModel)>,
    obs: Seq<ObservationModel>,
    now_ms: u64,
    cfg: DarkTargetConfig,
    j: int,
)
    requires
        keys_unique(e),
        0 <= j < e.len(),
        !is_seen(obs, e[j].0),
    ensures
        ({
            let (e1, v1) = observe_all(e, obs, now_ms, cfg);
            &&& keys_unique(e1)
            &&& e.len() <= e1.len()
            &&& e1[j] == e[j]
            &&& forall|i: int| 0 <= i < v1.len() ==> #[trigger] v1[i].icao24 != e[j].0
        }),
    decreases obs.len(),
{
    if obs.len() > 0 {
        let key = e[j].0;
        let prefix = obs.drop_last();
        lemma_seen_prefix(obs, key);
        lemma_observe_all_unseen(e, prefix, now_ms, cfg, j);
        let (e1, v1) = observe_all(e, prefix, now_ms, cfg);
        let o = obs.last();
        lemma_apply_settles(e1, o, now_ms, cfg);
        lemma_key_index_from(e1, o.icao24, 0);
        let (e2, v2) = apply_observation(e1, o, now_ms, cfg);
        assert(e2[j] == e1[j]);
        assert forall|i: int| 0 <= i < v2.len() implies #[trigger] v2[i].icao24 != key by {}
        let v = v1 + v2;
        assert forall|i: int| 0 <= i < v.len() implies #[trigger] v[i].icao24 != key by {
            if i < v1.len() {
                assert(v[i] == v1[i]);
            } else {
                assert(v[i] == v2[i - v1.len()]);
            }
        }
    }
}

/// The absentee phase over the first `k` entries raises a verdict for an
/// address exactly when one of those entries with that address ages dark.
proof fn lemma_age_verdicts(
    e: Seq<(Seq<char>, RecordModel)>,
    obs: Seq<ObservationModel>,
    now_ms: u64,
    cfg: DarkTargetConfig,
    k: nat,
    key: Seq<char>,
)
    requires
        k <= e.len(),
    ensures
        ({
            let v = age_absentees(e, obs, now_ms, cfg, k).1;
            (exists|i: int| 0 <= i < v.len() && #[trigger] v[i].icao24 == key) <==> (exists|m: int|
                0 <= m < k && #[trigger] e[m].0 == key && ages_dark(e[m], obs, now_ms, cfg))
        }),
    decreases k,
{
    if k > 0 {
        lemma_age_verdicts(e, obs, now_ms, cfg, (k - 1) as nat, key);
        let v1 = age_absentees(e, obs, now_ms, cfg, (k - 1) as nat).1;
        let v = age_absentees(e, obs, now_ms, cfg, k).1;
        let m = k - 1;
        if ages_dark(e[m], obs, now_ms, cfg) {
            assert(v == v1.push(
                VerdictModel {
                    icao24: e[m].0,
                    alert: Some(AlertState::DarkTarget),
                    reason: silence_reason(),
                },
            ));
            if exists|i: int| 0 <= i < v.len() && #[trigger] v[i].icao24 == key {
                let i = choose|i: int| 0 <= i < v.len() && #[trigger] v[i].icao24 == key;
                if i < v1.len() {
                    assert(v1[i].icao24 == key);
                } else {
                    assert(e[m].0 == key);
                }
            }
            if exists|mm: int| 0 <= mm < k && #[trigger] e[mm].0 == key && ages_dark(e[mm], obs, now_ms, cfg) {
                let mm = choose|mm: int| 0 <= mm < k && #[trigger] e[mm].0 == key && ages_dark(e[mm], obs, now_ms, cfg);
                if mm < m {
                    let i = choose|i: int| 0 <= i < v1.len() && #[trigger] v1[i].icao24 == key;
                    assert(v[i] == v1[i]);
                } else {
                    assert(v[v1.len() as int].icao24 == key);
                }
            }
        } else {
            assert(v == v1);
            if exists|mm: int| 0 <= mm < k && #[trigger] e[mm].0 == key && ages_dark(e[mm], obs, now_ms, cfg) {
                let mm = choose|mm: int| 0 <= mm < k && #[trigger] e[mm].0 == key && ages_dark(e[mm], obs, now_ms, cfg);
                assert(mm < m);
            }
        }
    }
}

/// A track absent from a scan turns dark exactly when it had broadcast a
/// callsign, had been observed for at least the minimum track age between
/// its first and last sighting, has been silent for the silence threshold,
/// and is not dark already. Then its alert becomes `DarkTarget` and one
/// verdict names it; otherwise its record is left as it was and no verdict
/// names it.
pub proof fn silence_verdict_needs_armed_track(
    entries: Seq<(Seq<char>, RecordModel)>,
    obs: Seq<ObservationModel>,
    now_ms: u64,
    cfg: DarkTargetConfig,
    j: int,
)
    requires
        keys_unique(entries),
        0 <= j < entries.len(),
        !is_seen(obs, entries[j].0),
    ensures
        ({
            let (e2, vs) = spec_scan(entries, obs, now_ms, cfg);
            let key = entries[j].0;
            let rec = entries[j].1;
            let observed_span: int = if rec.last_seen_ms >= rec.first_seen_ms {
                rec.last_seen_ms - rec.first_seen_ms
            } else {
                0
            };
            let silent_for: int = if now_ms >= rec.last_seen_ms {
                now_ms - rec.last_seen_ms
            } else {
                0
            };
            let turns_dark = rec.ever_had_callsign && observed_span >= cfg.min_track_age_ms
                && silent_for >= cfg.silence_threshold_ms && rec.current_alert != Some(
                AlertState::DarkTarget,
            );
            &&& j < e2.len()
            &&& e2[j].0 == key
            &&& (exists|i: int| 0 <= i < vs.len() && #[trigger] vs[i].icao24 == key) <==> turns_dark
            &&& turns_dark ==> e2[j].1 == (RecordModel {
                current_alert: Some(AlertState::DarkTarget),
                ..rec
            })
            &&& !turns_dark ==> e2[j].1 == rec
        }),
{
    let key = entries[j].0;
    lemma_observe_all_unseen(entries, obs, now_ms, cfg, j);
    let (e1, v1) = observe_all(entries, obs, now_ms, cfg);
    let n = e1.len();
    lemma_age_shape(e1, obs, now_ms, cfg, n);
    lemma_age_verdicts(e1, obs, now_ms, cfg, n, key);
    let (e2, v2) = age_absentees(e1, obs, now_ms, cfg, n);
    let vs = v1 + v2;
    assert(e2[j] == aged(e1[j], obs, now_ms, cfg));
    let dark = ages_dark(e1[j], obs, now_ms, cfg);
    assert((exists|m: int| 0 <= m < n && #[trigger] e1[m].0 == key && ages_dark(e1[m], obs, now_ms, cfg)) <==> dark) by {
        if exists|m: int| 0 <= m < n && #[trigger] e1[m].0 == key && ages_dark(e1[m], obs, now_ms, cfg) {
            let m = choose|m: int| 0 <= m < n && #[trigger] e1[m].0 == key && ages_dark(e1[m], obs, now_ms, cfg);
            assert(m == j);
        }
        if dark {
            assert(e1[j].0 == key);
        }
    }
    assert((exists|i: int| 0 <= i < vs.len() && #[trigger] vs[i].icao24 == key) <==> (exists|i: int|
        0 <= i < v2.len() && #[trigger] v2[i].icao24 == key)) by {
        if exists|i: int| 0 <= i < vs.len() && #[trigger] vs[i].icao24 == key {
            let i = choose|i: int| 0 <= i < vs.len() && #[trigger] vs[i].icao24 == key;
            if i < v1.len() {
                assert(vs[i] == v1[i]);
            } else {
                assert(vs[i] == v2[i - v1.len()]);
            }
        }
        if exists|i: int| 0 <= i < v2.len() && #[trigger] v2[i].icao24 == key {
            let i = choose|i: int| 0 <= i < v2.len() && #[trigger] v2[i].icao24 == key;
            assert(vs[i + v1.len()] == v2[i]);
        }
    }
}

} // verus!
