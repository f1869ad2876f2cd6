//! Signal decoding, alerting and bookkeeping core of the AeroPulse-NG
//! surveillance engine.

use vstd::prelude::*;

pub mod text;
pub mod models;

pub mod mode_s;
pub mod synth;
pub mod frame_laws;
pub mod acars;
pub mod bds;
pub mod weather_text;

pub mod dark_target;
pub mod geofence;
pub mod track_rules;
pub mod registry;
pub mod sidecar;
pub mod console;

verus! {
}
