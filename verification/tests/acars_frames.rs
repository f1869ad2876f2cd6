use aeropulse_ng::acars::{
    classify_weather, crc16_ccitt, parse_stream, stream_is_decodable, synthesize_frame,
    WeatherProduct,
};

fn build_frame(mode: char, tail: &str, ack: char, label: &str, bid: char, flight: &str, text: &str) -> Vec<u8> {
    synthesize_frame(mode, tail, ack, label, bid, flight, text)
}

#[test]
fn parses_wellformed_metar_downlink() {
    let metar_text = "METAR DNKN 261200Z 18012KT 6000 HZ FEW030 33/24 Q1013 NOSIG=";
    let frame = build_frame('2', "5NBYQ", '\u{06}', "SA", '1', "VL604", metar_text);
    let msgs = parse_stream(&frame, 1000);
    assert_eq!(msgs.len(), 1);
    let m = &msgs[0];
    assert!(m.downlink);
    assert_eq!(m.aircraft_tail, "5NBYQ");
    assert_eq!(m.flight_id, "VL604");
    assert!(m.crc_valid);
    match classify_weather(m) {
        WeatherProduct::Metar(t) => assert!(t.contains("Q1013")),
        other => panic!("wrong product {:?}", other),
    }
}

#[test]
fn parses_datis_uplink() {
    let datis_text = "DNKN INFO C 261305Z APCH ILS RWY 06 WIND 190/14 QNH 1014 TEMPO 4000 HZ=";
    let frame = build_frame('A', "KNATIS", '\u{15}', "A7", '2', "", datis_text);
    let msgs = parse_stream(&frame, 2000);
    assert_eq!(msgs.len(), 1, "uplink frame must parse");
    assert_eq!(msgs[0].aircraft_tail, "KNATIS");
    assert_eq!(msgs[0].label, "A7");
    assert!(!msgs[0].downlink);
    match classify_weather(&msgs[0]) {
        WeatherProduct::Datis { info_letter, .. } => assert_eq!(info_letter, 'C'),
        other => panic!("expected datis, got {:?}", other),
    }
}

#[test]
fn corrupted_bcs_flagged_not_fatal() {
    let mut frame = build_frame('2', "5NBKD", '\u{06}', "_d", '1', "DTR", "POSN REPORT");
    let last = frame.len() - 1;
    frame[last] ^= 0xFF;
    let msgs = parse_stream(&frame, 3000);
    assert_eq!(msgs.len(), 1);
    assert!(!msgs[0].crc_valid);
    assert!(matches!(classify_weather(&msgs[0]), WeatherProduct::Other));
}

#[test]
fn noise_between_frames_is_skipped() {
    let mut stream = vec![0xAAu8; 37];
    stream.extend(build_frame('2', "5NAZ", '\u{06}', "H1", '1', "NGA", "ENGINE START"));
    stream.extend_from_slice(&[0x55; 11]);
    let msgs = parse_stream(&stream, 4000);
    assert_eq!(msgs.len(), 1);
    assert!(msgs[0].text.contains("ENGINE START"));
}

#[test]
fn crc_reference_vector() {
    // CRC-16/CCITT-FALSE of ASCII "123456789" is 0x29B1.
    assert_eq!(crc16_ccitt(b"123456789"), 0x29B1);
}

#[test]
fn crc_of_empty_input_is_initial_register() {
    assert_eq!(crc16_ccitt(&[]), 0xFFFF);
}

#[test]
fn synthesized_frame_fields_and_check() {
    let frame = build_frame('2', "5N-BYQ", '\u{06}', "H1", '3', "VL604", "ENGINE START");
    assert_eq!(frame[0], 0x01);
    let msgs = parse_stream(&frame, 77);
    assert_eq!(msgs.len(), 1);
    let m = &msgs[0];
    assert_eq!(m.mode, '2');
    // '-' is not kept in the tail.
    assert_eq!(m.aircraft_tail, "5NBYQ");
    assert_eq!(m.label, "H1");
    assert_eq!(m.block_id, '3');
    assert_eq!(m.flight_id, "VL604");
    // The text ends where ETX begins.
    assert_eq!(m.text, "ENGINE START");
    assert!(m.downlink);
    assert!(m.crc_valid);
    assert_eq!(m.received_ms, 77);
}

#[test]
fn non_graphic_payload_bytes_are_sanitised() {
    let mut body = vec![0x01u8, b'2'];
    body.extend_from_slice(b".5NBYQ");
    body.push(0x06);
    body.extend_from_slice(b"H1");
    body.push(b'1');
    body.push(0x02);
    body.extend_from_slice(b"VL604\r");
    body.extend_from_slice(&[b'A', 0x07, b'B', 0xC3, b' ', b'\r', b'C', b' ']);
    body.push(0x03);
    let crc = crc16_ccitt(&body);
    body.extend_from_slice(&crc.to_be_bytes());
    let msgs = parse_stream(&body, 5);
    assert_eq!(msgs.len(), 1);
    assert_eq!(msgs[0].text, "A\u{B7}B\u{B7} C");
    assert!(msgs[0].crc_valid);
}

#[test]
fn lossy_label_bytes_are_replaced() {
    // A label byte that is not UTF-8 becomes U+FFFD; '@' is relabelled '-'.
    let mut body = vec![0x01u8, b'2'];
    body.extend_from_slice(b".5NBYQ");
    body.push(0x06);
    body.extend_from_slice(&[0xFF, b'@']);
    body.push(b'1');
    body.push(0x03);
    let crc = crc16_ccitt(&body);
    body.extend_from_slice(&crc.to_be_bytes());
    let msgs = parse_stream(&body, 5);
    assert_eq!(msgs.len(), 1);
    assert_eq!(msgs[0].label, "\u{FFFD}-");
    assert!(!msgs[0].downlink);
}

#[test]
fn short_and_unterminated_frames_yield_nothing() {
    assert!(parse_stream(&[], 1).is_empty());
    assert!(parse_stream(&[0x01, b'2', b'A'], 1).is_empty());
    let frame = build_frame('2', "5NAZ", '\u{06}', "H1", '1', "NGA", "ENGINE START");
    let cut = &frame[..frame.len() - 1];
    assert!(parse_stream(cut, 1).is_empty());
}

#[test]
fn stx_inside_block_check_is_reported_undecodable() {
    let mut body = vec![0x01u8, b'2'];
    body.extend_from_slice(b".5NBYQ");
    body.push(0x06);
    body.extend_from_slice(b"H1");
    body.push(b'1');
    body.push(0x03);
    body.extend_from_slice(&[0x02, 0x00]);
    assert!(!stream_is_decodable(&body));
    let ok = build_frame('2', "5NAZ", '\u{06}', "H1", '1', "NGA", "ENGINE START");
    assert!(stream_is_decodable(&ok));
}

#[test]
fn speci_and_sa_reports_classify() {
    let f = build_frame('2', "5NBYQ", '\u{06}', "H1", '1', "VL604", "speci dnkn 261230z");
    let msgs = parse_stream(&f, 1);
    assert!(matches!(classify_weather(&msgs[0]), WeatherProduct::Speci(_)));
    let f = build_frame('2', "5NBYQ", '\u{06}', "H1", '1', "VL604", "SA DNKN 261200Z");
    let msgs = parse_stream(&f, 1);
    match classify_weather(&msgs[0]) {
        WeatherProduct::Metar(t) => assert_eq!(t, "DNKN 261200Z"),
        other => panic!("wrong product {:?}", other),
    }
}

#[test]
fn datis_by_digit_count_without_atis_keyword() {
    // Label containing 'A', no "ATIS", but long with at least four digits.
    // With no flight id line break the first four payload bytes are taken
    // as the flight id, so the text starts at "INFORMATION".
    let f = build_frame('A', "KNATIS", '\u{15}', "A6", '2', "", "DNMM INFORMATION K 1300Z RWY 18");
    let msgs = parse_stream(&f, 1);
    match classify_weather(&msgs[0]) {
        WeatherProduct::Datis { station, info_letter, .. } => {
            assert_eq!(station, Some('I'));
            assert_eq!(info_letter, 'K');
            assert_eq!(msgs[0].flight_id, "DNMM");
        }
        other => panic!("expected datis, got {:?}", other),
    }
}

#[test]
fn appended_block_check_leaves_zero_residue() {
    for data in [&b""[..], &b"123456789"[..], &b"\x01.5NBYQ\x06H11\x03"[..]] {
        let c = crc16_ccitt(data);
        let mut framed = data.to_vec();
        framed.extend_from_slice(&c.to_be_bytes());
        assert_eq!(crc16_ccitt(&framed), 0);
    }
}
