use aeropulse_ng::console::{class_color, AMBER, GREEN, RED, VIOLET};
use aeropulse_ng::models::{infer_class, AlertState, TrackClass};

#[test]
fn class_colours_and_symbols() {
    assert_eq!(TrackClass::Civil.css_color(), "#00FF66");
    assert_eq!(TrackClass::Military.css_color(), "#7C4DFF");
    assert_eq!(TrackClass::Unidentified.css_color(), "#FFB300");
    assert_eq!(TrackClass::Anomaly.css_color(), "#FFB300");
    assert_eq!(TrackClass::Civil.symbol_char(), "\u{25C7}");
    assert_eq!(TrackClass::Military.symbol_char(), "\u{2227}");
    assert_eq!(TrackClass::Anomaly.symbol_char(), "\u{25A1}");
}

#[test]
fn military_prefixes_classify() {
    assert_eq!(infer_class("NAF911"), TrackClass::Military);
    assert_eq!(infer_class("nga212"), TrackClass::Military);
    assert_eq!(infer_class("MIL01"), TrackClass::Military);
    assert_eq!(infer_class("VL604"), TrackClass::Civil);
    assert_eq!(infer_class("NA"), TrackClass::Civil);
    assert_eq!(infer_class(""), TrackClass::Civil);
}

#[test]
fn console_colour_follows_alert_then_class() {
    assert_eq!(class_color(TrackClass::Civil, AlertState::Nominal), GREEN);
    assert_eq!(class_color(TrackClass::Military, AlertState::Nominal), VIOLET);
    assert_eq!(class_color(TrackClass::Anomaly, AlertState::Nominal), AMBER);
    assert_eq!(class_color(TrackClass::Civil, AlertState::DarkTarget), RED);
    assert_eq!(RED, "\x1b[91m");
}
