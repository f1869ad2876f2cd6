# AeroPulse-NG surveillance core

Signal decoding, alerting and bookkeeping of the AeroPulse-NG tactical
surveillance engine, written in Verus: every function in `src/` carries a
contract that Verus proves.

## Layout

| Path | Contents |
|---|---|
| `src/mode_s.rs` | DF17 / Mode S: CRC-24, single-bit repair, identity, position, velocity, status and altitude fields, hex rendering, callsign alphabet, address parity |
| `src/synth.rs` | xorshift64* stream and the DF17 frame builders used by the synthetic feed |
| `src/frame_laws.rs` | Address parity and decode-after-encode laws for every synthesised frame type |
| `src/acars.rs` | ACARS framing, CRC-16/CCITT, stream scanning, weather classification, frame synthesis, and their laws |
| `src/bds.rs` | Comm-B BDS 4,4 / 4,5 register codecs and their round-trip laws |
| `src/weather_text.rs` | QNH and wind-group scans over METAR / D-ATIS text |
| `src/dark_target.rs` | Squawk, identity and silence anomaly detection; transition-only verdicts |
| `src/geofence.rs` | Per-fence occupancy and entry events |
| `src/track_rules.rs` | Per-track bookkeeping: even/odd position-frame pairing, freshness, displayed alert, emergency squawk, placeholders |
| `src/registry.rs` | SDR roles, dongle inventories (sysfs snapshot, bench), channel binding |
| `src/models.rs`, `src/console.rs` | Shared enumerations and records, display colours |
| `src/sidecar.rs` | Sidecar configuration and the init / shutdown command lines |
| `src/text.rs` | Character-level helpers and the few Unicode-table std services |
| `tests/` | Scenario and example tests against the compiled library |
| `app/` | The headless console and everything floating-point: EKF, R*-tree STCA, CPR, geodesy, intercept geometry, weather fusion, the simulator's truth model, and the sidecar process bridge |

## Running

`app/main.rs` drives the engine against the synthetic RF feed and renders
the tactical picture as ANSI text.
