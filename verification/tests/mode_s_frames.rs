use aeropulse_ng::mode_s::{
    append_df17_parity, char_to_callsign_index, crc25, decode_altitude, decode_frame,
    encode_altitude_count, frame_to_hex, nl_zones_for_degrees, DecodedMessage,
};
use aeropulse_ng::synth::{
    build_identity_me, build_status_me, df17_frame, encode_identity_frame, encode_position_frame,
    encode_status_frame, encode_velocity_frame, pack_position_me, pack_velocity_me, Rng,
};

const REFERENCE_FRAME: &str = "8D406B902015A678D4D220AA4BDA";
const REFERENCE_VELOCITY_FRAME: &str = "8D485020994409940838175B284F";

fn hex_to_bytes(s: &str) -> Vec<u8> {
    s.as_bytes()
        .chunks(2)
        .map(|p| u8::from_str_radix(std::str::from_utf8(p).unwrap(), 16).unwrap())
        .collect()
}

fn altitude_count(alt_ft: f64) -> u32 {
    ((alt_ft + 1000.0) / 25.0).round().max(0.0) as u32
}

#[test]
fn reference_df17_frame_passes_crc() {
    let bytes = hex_to_bytes(REFERENCE_FRAME);
    assert_eq!(crc25(&bytes), 0, "even-parity remainder on known-good frame");
}

#[test]
fn decodes_reference_identity_message() {
    let bytes = hex_to_bytes(REFERENCE_FRAME);
    let res = decode_frame(&bytes).expect("must decode");
    match res.message {
        DecodedMessage::Identity { icao24, .. } => {
            assert_eq!(icao24, 0x406B90);
        }
        other => panic!("unexpected decode: {:?}", other),
    }
}

#[test]
fn single_bit_error_repaired() {
    let bytes = hex_to_bytes(REFERENCE_FRAME);
    let mut corrupted = bytes.clone();
    corrupted[4] ^= 0x08;
    let res = decode_frame(&corrupted).expect("repair path must recover frame");
    assert!(res.repaired_bit.is_some());
}

#[test]
fn double_bit_error_rejected() {
    let bytes = hex_to_bytes(REFERENCE_FRAME);
    let mut corrupted = bytes;
    corrupted[3] ^= 0x80;
    corrupted[9] ^= 0x40;
    assert!(decode_frame(&corrupted).is_none());
}

#[test]
fn altitude_codec_roundtrip_q_bit() {
    for alt in [1500.0, 10_500.0, 32_000.0, 41_000.0] {
        let encoded = encode_altitude_count(altitude_count(alt));
        let decoded = decode_altitude(encoded).expect("decodable");
        assert!((decoded as f64 - alt).abs() <= 25.0, "{} -> {}", alt, decoded);
    }
}

#[test]
fn synthesized_full_frame_decodes() {
    let icao: u32 = 0x44F1A2;
    let mut frame = vec![0x8Du8];
    frame.extend_from_slice(&icao.to_be_bytes()[1..]);
    let tc: u64 = 4;
    let ca: u64 = 2;
    let mut me: u64 = (tc << 51) | (ca << 48);
    let cs = b"NGA101  ";
    for (i, ch) in cs.iter().enumerate() {
        let idx = char_to_callsign_index(*ch).expect("charset hit");
        me |= idx << (42 - 6 * i);
    }
    let me_bytes = me.to_be_bytes();
    frame.extend_from_slice(&me_bytes[1..]);
    let full = append_df17_parity(frame, icao);
    let decoded = decode_frame(&full).expect("synthetic frame");
    match decoded.message {
        DecodedMessage::Identity { callsign, .. } => {
            assert_eq!(callsign.trim_end(), "NGA101");
        }
        other => panic!("wrong type: {:?}", other),
    }
}

#[test]
fn nl_table_boundaries() {
    let nl = |lat: f64| nl_zones_for_degrees(lat.abs().floor() as u64);
    assert_eq!(nl(0.0), 59);
    assert_eq!(nl(10.4), 55);
    assert_eq!(nl(11.0), 54);
    assert_eq!(nl(65.9), 2);
    assert_eq!(nl(67.2), 1);
    assert_eq!(nl(88.0), 1);
}

#[test]
fn reference_velocity_frame_decodes() {
    let bytes = hex_to_bytes(REFERENCE_VELOCITY_FRAME);
    match decode_frame(&bytes) {
        Some(res) => match res.message {
            DecodedMessage::Velocity { icao24, ground_vector_kt, .. } => {
                assert_eq!(icao24, 0x485020);
                assert!(ground_vector_kt.is_some());
            }
            other => panic!("unexpected decode: {:?}", other),
        },
        None => panic!("reference velocity frame must decode"),
    }
}

#[test]
fn reference_velocity_vector_values() {
    // DO-260B layout: east-west raw 9 westward, north-south raw 160
    // southward, vertical rate raw 14 downward: 159.20 kt on 182.88 degrees,
    // descending 832 ft/min.
    let bytes = hex_to_bytes(REFERENCE_VELOCITY_FRAME);
    let res = decode_frame(&bytes).expect("decodes");
    match res.message {
        DecodedMessage::Velocity {
            subtype,
            ground_vector_kt,
            airspeed_kt,
            heading_raw,
            vertical_rate_fpm,
            ..
        } => {
            assert_eq!(subtype, 1);
            assert_eq!(ground_vector_kt, Some((-8, -159)));
            assert_eq!(airspeed_kt, None);
            assert_eq!(heading_raw, None);
            assert_eq!(vertical_rate_fpm, Some(-832));
            let (ew, ns) = ground_vector_kt.unwrap();
            let (ew, ns) = (ew as f64, ns as f64);
            let speed = (ew * ew + ns * ns).sqrt();
            let mut track = ew.atan2(ns).to_degrees();
            if track < 0.0 {
                track += 360.0;
            }
            assert!((speed - 159.20).abs() < 0.01);
            assert!((track - 182.88).abs() < 0.01);
        }
        other => panic!("unexpected decode: {:?}", other),
    }
}

#[test]
fn frame_hex_rendering() {
    let bytes = hex_to_bytes(REFERENCE_FRAME);
    assert_eq!(frame_to_hex(&bytes), REFERENCE_FRAME);
    assert_eq!(frame_to_hex(&[0x00, 0x0f, 0xa0]), "000FA0");
    assert_eq!(frame_to_hex(&[]), "");
}

#[test]
fn callsign_charset_indices() {
    assert_eq!(char_to_callsign_index(b'A'), Some(1));
    assert_eq!(char_to_callsign_index(b'Z'), Some(26));
    assert_eq!(char_to_callsign_index(b' '), Some(32));
    assert_eq!(char_to_callsign_index(b'0'), Some(48));
    assert_eq!(char_to_callsign_index(b'9'), Some(57));
    // Anything outside the alphabet falls to slot 0 (rendered '#').
    assert_eq!(char_to_callsign_index(b'a'), Some(0));
    assert_eq!(char_to_callsign_index(b'#'), Some(0));
}

#[test]
fn altitude_gray_code_field() {
    // Q bit clear: Gillham code; count 0b00000000011 (Gray) -> binary 2 -> 0 ft.
    assert_eq!(decode_altitude(0x003), Some(0));
    // Q bit set, count 1 -> -975 ft.
    assert_eq!(decode_altitude(0x011), Some(-975));
    assert_eq!(encode_altitude_count(0), 0x010);
    assert_eq!(encode_altitude_count(1400), 0xAF8);
}

#[test]
fn parity_makes_remainder_equal_address() {
    let icao = 0x71C003u32;
    let frame = df17_frame(build_status_me(2), icao);
    assert_eq!(frame.len(), 14);
    assert_eq!(crc25(&frame), icao);
}

#[test]
fn identity_frame_roundtrip_example() {
    let frame = encode_identity_frame(0x44F1A2, "VL604");
    let res = decode_frame(&frame).expect("decodes");
    assert_eq!(res.repaired_bit, None);
    match res.message {
        DecodedMessage::Identity { icao24, callsign, category } => {
            assert_eq!(icao24, 0x44F1A2);
            assert_eq!(callsign, "VL604");
            assert_eq!(category, 34);
        }
        other => panic!("unexpected decode: {:?}", other),
    }
    assert_eq!(build_identity_me(9, 2, "AB"), build_identity_me(4, 2, "AB"));
    let lower = decode_frame(&encode_identity_frame(0x44F1A2, "vl604")).expect("decodes");
    match lower.message {
        DecodedMessage::Identity { callsign, .. } => assert_eq!(callsign, "##604"),
        other => panic!("unexpected decode: {:?}", other),
    }
}

#[test]
fn status_frame_roundtrip_example() {
    let frame = encode_status_frame(0x123456, 13);
    let res = decode_frame(&frame).expect("decodes");
    match res.message {
        DecodedMessage::AircraftStatus { icao24, emergency_state } => {
            assert_eq!(icao24, 0x123456);
            assert_eq!(emergency_state, 5);
        }
        other => panic!("unexpected decode: {:?}", other),
    }
}

#[test]
fn position_frame_roundtrip_example() {
    let code = encode_altitude_count(altitude_count(34_000.0));
    let frame = encode_position_frame(0x71C003, code, true, 0x2_3456, 0x1_ABCD);
    let res = decode_frame(&frame).expect("decodes");
    assert_eq!(res.repaired_bit, None);
    match res.message {
        DecodedMessage::AirbornePosition {
            icao24,
            altitude_ft,
            odd,
            lat_cpr,
            lon_cpr,
            surveillance_status,
        } => {
            assert_eq!(icao24, 0x71C003);
            assert_eq!(altitude_ft, 34_000);
            assert!(odd);
            assert_eq!(lat_cpr, 0x0_3456);
            assert_eq!(lon_cpr, 0x1_ABCD);
            assert_eq!(surveillance_status, 0);
        }
        other => panic!("unexpected decode: {:?}", other),
    }
    assert_eq!(
        pack_position_me(code, true, 0x2_3456, 0x1_ABCD) >> 51,
        11
    );
}

#[test]
fn velocity_frame_roundtrip_example() {
    let frame = encode_velocity_frame(0x485020, true, 120, false, 2000, true, 15);
    let res = decode_frame(&frame).expect("decodes");
    match res.message {
        DecodedMessage::Velocity {
            icao24,
            subtype,
            ground_vector_kt,
            airspeed_kt,
            heading_raw,
            vertical_rate_fpm,
        } => {
            assert_eq!(icao24, 0x485020);
            assert_eq!(subtype, 1);
            // North-south magnitude clamps at 1023 - 1 = 1022 kt.
            assert_eq!(ground_vector_kt, Some((-120, 1022)));
            assert_eq!(airspeed_kt, None);
            assert_eq!(heading_raw, None);
            assert_eq!(vertical_rate_fpm, Some(-960));
        }
        other => panic!("unexpected decode: {:?}", other),
    }
    assert_eq!(pack_velocity_me(false, -5, false, 0, false, 600) >> 51, 19);
}

#[test]
fn rng_is_deterministic_per_seed() {
    let mut a = Rng::new(42);
    let mut b = Rng::new(42);
    let mut c = Rng::new(43);
    let xs: Vec<u64> = (0..5).map(|_| a.next_u64()).collect();
    let ys: Vec<u64> = (0..5).map(|_| b.next_u64()).collect();
    let zs: Vec<u64> = (0..5).map(|_| c.next_u64()).collect();
    assert_eq!(xs, ys);
    assert_ne!(xs, zs);
    // A zero seed is replaced so the generator does not stall.
    let mut z = Rng::new(0);
    assert_ne!(z.next_u64(), 0);
}

#[test]
fn single_bit_errors_in_payload_are_repaired_in_place() {
    let frame = encode_identity_frame(0x44F1A2, "VL604");
    let clean = decode_frame(&frame).expect("decodes");
    for bit in [5usize, 7, 32, 40, 63, 87, 88, 100, 111] {
        let mut corrupted = frame.clone();
        corrupted[bit / 8] ^= 0x80 >> (bit % 8);
        let res = decode_frame(&corrupted).expect("repairable");
        assert_eq!(res.repaired_bit, Some(bit), "bit {bit}");
        assert_eq!(res.message, clean.message);
    }
}

#[test]
fn generator_never_draws_zero() {
    for seed in [0u64, 1, 2, 0xFFFF_FFFF_FFFF_FFFF, 0x8000_0000_0000_0000] {
        let mut rng = Rng::new(seed);
        for _ in 0..2000 {
            assert_ne!(rng.next_u64(), 0);
        }
    }
    let mut a = Rng::new(0);
    let mut b = Rng::new(1);
    for _ in 0..100 {
        assert_eq!(a.next_u64(), b.next_u64());
    }
}

#[test]
fn airspeed_subtype_reads_heading_and_airspeed_fields() {
    // TC 19 subtype 3: heading status at ME bit 14, heading at ME 15-24,
    // airspeed at ME 26-35, vertical rate sign at ME 37 and rate at ME 38-46.
    let me: u64 = (19u64 << 51)
        | (3u64 << 48)
        | (1u64 << 42)
        | (512u64 << 32)
        | (250u64 << 21)
        | (0u64 << 19)
        | (10u64 << 10);
    let frame = df17_frame(me, 0xABCDEF);
    let res = decode_frame(&frame).expect("decodes");
    match res.message {
        DecodedMessage::Velocity {
            icao24,
            subtype,
            ground_vector_kt,
            airspeed_kt,
            heading_raw,
            vertical_rate_fpm,
        } => {
            assert_eq!(icao24, 0xABCDEF);
            assert_eq!(subtype, 3);
            assert_eq!(ground_vector_kt, None);
            assert_eq!(airspeed_kt, Some(249));
            assert_eq!(heading_raw, Some(512));
            assert_eq!(vertical_rate_fpm, Some(576));
        }
        other => panic!("unexpected decode: {:?}", other),
    }
}
