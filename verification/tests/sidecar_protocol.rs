use aeropulse_ng::sidecar::{encode_init, encode_shutdown, SidecarConfig};

#[test]
fn init_frame_encodes() {
    let s = encode_init("/tmp/a.duckdb");
    assert!(s.starts_with("{\"cmd\":\"init\",\"db_path\":\"/tmp/a.duckdb\"}"));
    assert!(s.ends_with('\n'));
}

#[test]
fn init_frame_escapes_path() {
    assert_eq!(encode_init("a\"b\\c\n"), "{\"cmd\":\"init\",\"db_path\":\"a\\\"b\\\\c\\n\"}\n");
}

#[test]
fn shutdown_frame_encodes() {
    assert_eq!(encode_shutdown(), "{\"cmd\":\"shutdown\"}\n");
}

#[test]
fn default_sidecar_config() {
    let c = SidecarConfig::default();
    assert!(c.enabled);
    assert_eq!(c.python_bin, "python3");
    assert_eq!(c.script_path, "python-sidecar/main.py");
    assert_eq!(c.db_path, "aeropulse.duckdb");
}

#[test]
fn init_escapes_every_control_character() {
    assert_eq!(
        encode_init("\u{8}\t\u{c}\r\u{1}\u{1f}\u{7f}é"),
        "{\"cmd\":\"init\",\"db_path\":\"\\b\\t\\f\\r\\u0001\\u001f\u{7f}é\"}\n"
    );
}
