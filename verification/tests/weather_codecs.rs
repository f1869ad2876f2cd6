use aeropulse_ng::bds::{decode_bds44, decode_bds45, encode_bds44, encode_bds45, HazardFields, WindFields};
use aeropulse_ng::weather_text::{extract_qnh, extract_wind_group, qnh_in, wind_group_in, WindScan};

fn wind_fields(speed_kt: u16, dir_deg: f32, temperature_c: f32) -> WindFields {
    WindFields {
        speed_kt,
        dir_code: ((dir_deg.rem_euclid(360.0) / 360.0 * 2048.0).round() as u64 & 0x7FF) as u16,
        dir_valid: dir_deg >= 0.0,
        sat_code: (temperature_c / 0.25).round() as i32,
    }
}

fn dir_deg(f: &WindFields) -> f32 {
    if f.dir_valid {
        f.dir_code as f32 * 360.0 / 2048.0
    } else {
        -1.0
    }
}

fn hazard_fields(turbulence: u8, wind_shear: u8, microburst: u8, icing: u8, temp_deviation_c: f32) -> HazardFields {
    HazardFields {
        turbulence,
        wind_shear,
        microburst,
        icing,
        temp_dev_code: (temp_deviation_c / 0.1).round() as i32,
    }
}

#[test]
fn bds44_roundtrip() {
    for (spd, dir, temp) in [(35u16, 182.0f32, 12.5f32), (140, 359.9, -54.25), (5, 1.0, 31.75)] {
        let r = wind_fields(spd, dir, temp);
        let enc = encode_bds44(&r);
        let dec = decode_bds44(&enc).expect("decodable");
        assert_eq!(dec.speed_kt, spd);
        assert!((dir_deg(&dec) - dir).abs() < 0.25, "dir {}", dir_deg(&dec));
        assert!((dec.sat_code as f32 * 0.25 - temp).abs() < 0.26, "temp {}", dec.sat_code);
    }
}

#[test]
fn bds44_invalid_speed_rejected() {
    let zero = [0u8; 7];
    assert!(decode_bds44(&zero).is_none());
}

#[test]
fn bds44_negative_temperatures() {
    let r = wind_fields(80, 90.0, -56.5);
    let dec = decode_bds44(&encode_bds44(&r)).expect("decodable");
    assert!((dec.sat_code as f32 * 0.25 - (-56.5)).abs() < 0.26);
}

#[test]
fn bds45_roundtrip() {
    let r = hazard_fields(2, 1, 0, 3, -7.4);
    let dec = decode_bds45(&encode_bds45(&r)).expect("decodable");
    assert_eq!(dec.turbulence, 2);
    assert_eq!(dec.wind_shear, 1);
    assert_eq!(dec.icing, 3);
    assert!((dec.temp_dev_code as f32 * 0.1 - (-7.4)).abs() < 0.11);
}

#[test]
fn bds45_sentinel_is_none() {
    let empty = hazard_fields(0, 0, 0, 7, 0.0);
    let mut enc = encode_bds45(&empty);
    enc[2] &= 0x00;
    enc[3] &= 0xFE;
    assert!(decode_bds45(&enc).is_none());
}

#[test]
fn bds44_fields_roundtrip_exactly() {
    let f = WindFields { speed_kt: 550, dir_code: 2047, dir_valid: true, sat_code: -32768 };
    assert_eq!(decode_bds44(&encode_bds44(&f)), Some(f));
    let g = WindFields { speed_kt: 1, dir_code: 0, dir_valid: false, sat_code: 32767 };
    assert_eq!(decode_bds44(&encode_bds44(&g)), Some(g));
}

#[test]
fn bds44_encoder_clamps_speed_and_masks_direction() {
    let f = WindFields { speed_kt: 0, dir_code: 0x0FFF, dir_valid: true, sat_code: 4 };
    let dec = decode_bds44(&encode_bds44(&f)).unwrap();
    assert_eq!(dec.speed_kt, 1);
    assert_eq!(dec.dir_code, 0x07FF);
    let f = WindFields { speed_kt: 9000, dir_code: 5, dir_valid: true, sat_code: 4 };
    assert_eq!(decode_bds44(&encode_bds44(&f)).unwrap().speed_kt, 550);
    // Speed above 550 on the wire is rejected.
    assert!(decode_bds44(&[0x22, 0x70, 0, 0, 0, 0, 0]).is_none());
}

#[test]
fn bds44_byte_layout() {
    let f = WindFields { speed_kt: 35, dir_code: 1035, dir_valid: true, sat_code: 50 };
    assert_eq!(encode_bds44(&f), [0x02, 0x38, 0x17, 0x00, 0x32, 0x00, 0x00]);
}

#[test]
fn bds45_fields_roundtrip_exactly() {
    let h = HazardFields { turbulence: 3, wind_shear: 2, microburst: 1, icing: 7, temp_dev_code: -1 };
    assert_eq!(decode_bds45(&encode_bds45(&h)), Some(h));
}

#[test]
fn qnh_and_wind_parsers() {
    assert_eq!(extract_qnh("... Q1013 NOSIG"), Some(1013));
    assert_eq!(extract_qnh("DNKN INFO C QNH 1014 TEMPO"), Some(1014));
    assert_eq!(extract_qnh("no pressure here"), None);
    assert_eq!(extract_wind_group("WIND 18012KT"), WindScan::Found(180, 12));
    assert_eq!(extract_wind_group("36005KT TEMP"), WindScan::Found(0, 5));
    assert_eq!(extract_wind_group("CAVOK"), WindScan::Absent);
    assert_eq!(extract_wind_group("RUNWAY 18 CLOSED"), WindScan::Absent);
}

#[test]
fn lowercase_text_is_upper_cased_first() {
    assert_eq!(extract_qnh("cavok q1009="), Some(1009));
    assert_eq!(qnh_in("cavok q1009="), None);
    assert_eq!(extract_wind_group("wind 27015kt"), WindScan::Found(270, 15));
    assert_eq!(wind_group_in("wind 27015kt"), WindScan::Absent);
}

#[test]
fn qnh_needs_exactly_four_digits() {
    assert_eq!(extract_qnh("Q10135 Q0998"), Some(998));
    assert_eq!(extract_qnh("Q101"), None);
    assert_eq!(extract_qnh("QNHHN  0995"), Some(995));
}

#[test]
fn wind_group_speed_digits_and_direction_wrap() {
    assert_eq!(extract_wind_group("99912345KT"), WindScan::Found(279, 12345));
    assert_eq!(extract_wind_group("180KT 090"), WindScan::Absent);
    // The scan moves one byte at a time, so a group can start mid-number.
    assert_eq!(extract_wind_group("GUST 2701234567KT"), WindScan::Found(12, 34567));
    assert_eq!(
        extract_wind_group("METAR DNMO 261200Z 21008KT CAVOK Q1011="),
        WindScan::Found(210, 8)
    );
}

#[test]
fn wind_scan_reports_split_character() {
    // After "1234" the two-byte slice would end inside the euro sign.
    assert_eq!(extract_wind_group("1234K\u{20AC}xx"), WindScan::SplitChar);
    assert_eq!(extract_wind_group("123\u{E9}abc"), WindScan::Absent);
}
