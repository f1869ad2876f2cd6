//! Mode S Comm-B meteorological registers over the 7-byte BCS field.
//!
//! BDS 4,4 (routine air report), bit map MSB first:
//!   WS[0..12] kt · WD[12..23] in 360/2048 deg · STATUS[23] ·
//!   SAT[24..40] two's complement, 0.25 degC · reserved[40..56].
//! BDS 4,5 (hazard report):
//!   TURB[0..2] SHEAR[2..4] MICROBURST[4..6] ICING[6..9] ·
//!   TEMPDEV[9..25] two's complement, 0.1 degC · reserved[25..56].
//!
//! The codecs here work on the registers' integer fields; scaling to
//! degrees and Celsius is left to the caller.

use vstd::prelude::*;

verus! {

/// Raw fields of a BDS 4,4 wind report.
#[derive(Debug, Clone, Copy, PartialEq, Eq, Structural)]
pub struct WindFields {
    /// Wind speed, knots (1..=550 when valid).
    pub speed_kt: u16,
    /// Wind direction from-true in units of 360/2048 degree (11 bits).
    pub dir_code: u16,
    /// Direction status bit.
    pub dir_valid: bool,
    /// Static air temperature in quarter degrees Celsius.
    pub sat_code: i32,
}

/// Raw fields of a BDS 4,5 hazard report.
#[derive(Debug, Clone, Copy, PartialEq, Eq, Structural)]
pub struct HazardFields {
    /// 0 none .. 3 severe.
    pub turbulence: u8,
    /// 0 no report .. 3 severe.
    pub wind_shear: u8,
    /// 0 no report .. 3 microburst detected.
    pub microburst: u8,
    /// 0 none, 1 light, 2 standard, 3 severe (7 with nothing else: no data).
    pub icing: u8,
    /// Deviation from ISA temperature in tenths of a degree Celsius.
    pub temp_dev_code: i32,
}

/// The 56-bit big-endian word the seven BCS bytes spell.
pub open spec fn bcs_word(b: Seq<u8>) -> u64 {
    ((b[0] as u64) << 48u64) | ((b[1] as u64) << 40u64) | ((b[2] as u64) << 32u64) | ((
    b[3] as u64) << 24u64) | ((b[4] as u64) << 16u64) | ((b[5] as u64) << 8u64) | (b[6] as u64)
}

/// The seven big-endian bytes of a 56-bit word.
pub open spec fn word_bytes(w: u64) -> Seq<u8> {
    seq![
        (w >> 48u64) as u8,
        (w >> 40u64) as u8,
        (w >> 32u64) as u8,
        (w >> 24u64) as u8,
        (w >> 16u64) as u8,
        (w >> 8u64) as u8,
        w as u8,
    ]
}

/// A 16-bit two's-complement value.
pub open spec fn signed16(x: u64) -> i32 {
    if x >= 0x8000 {
        (x - 0x1_0000) as i32
    } else {
        x as i32
    }
}

pub open spec fn spec_decode_bds44(b: Seq<u8>) -> Option<WindFields> {
    let w = bcs_word(b);
    let speed = ((w >> 44u64) & 0xFFFu64) as u16;
    if speed == 0 || speed > 550 {
        None
    } else {
        Some(
            WindFields {
                speed_kt: speed,
                dir_code: ((w >> 33u64) & 0x7FFu64) as u16,
                dir_valid: (w >> 32u64) & 1u64 == 1u64,
                sat_code: signed16((w >> 16u64) & 0xFFFFu64),
            },
        )
    }
}

pub open spec fn clamp_speed(s: u16) -> u16 {
    if s < 1 {
        1
    } else if s > 550 {
        550
    } else {
        s
    }
}

pub open spec fn wind_word(f: WindFields) -> u64 {
    ((clamp_speed(f.speed_kt) as u64) << 44u64) | (((f.dir_code as u64) & 0x7FFu64) << 33u64) | ((
    if f.dir_valid {
        1u64
    } else {
        0u64
    }) << 32u64) | ((((f.sat_code as u16) as u64) & 0xFFFFu64) << 16u64)
}

/// Speed clamped to 1..=550 kt, direction masked to 11 bits, temperature
/// truncated to 16 bits.
pub open spec fn spec_encode_bds44(f: WindFields) -> Seq<u8> {
    word_bytes(wind_word(f))
}

pub open spec fn spec_decode_bds45(b: Seq<u8>) -> Option<HazardFields> {
    let w = bcs_word(b);
    let turbulence = ((w >> 54u64) & 3u64) as u8;
    let wind_shear = ((w >> 52u64) & 3u64) as u8;
    let microburst = ((w >> 50u64) & 3u64) as u8;
    let icing = ((w >> 47u64) & 7u64) as u8;
    if icing == 7 && turbulence == 0 && wind_shear == 0 {
        None
    } else {
        Some(
            HazardFields {
                turbulence,
                wind_shear,
                microburst,
                icing,
                temp_dev_code: signed16((w >> 31u64) & 0xFFFFu64),
            },
        )
    }
}

pub open spec fn hazard_word(h: HazardFields) -> u64 {
    (((h.turbulence as u64) & 3u64) << 54u64) | (((h.wind_shear as u64) & 3u64) << 52u64) | (((
    h.microburst as u64) & 3u64) << 50u64) | (((h.icing as u64) & 7u64) << 47u64) | ((((
    h.temp_dev_code as u16) as u64) & 0xFFFFu64) << 31u64)
}

/// Every field masked to its width, the deviation truncated to 16 bits.
pub open spec fn spec_encode_bds45(h: HazardFields) -> Seq<u8> {
    word_bytes(hazard_word(h))
}

fn word_of(bcs: &[u8; 7]) -> (w: u64)
    ensures
        w == bcs_word(bcs@),
{
    ((bcs[0] as u64) << 48u64) | ((bcs[1] as u64) << 40u64) | ((bcs[2] as u64) << 32u64) | ((
    bcs[3] as u64) << 24u64) | ((bcs[4] as u64) << 16u64) | ((bcs[5] as u64) << 8u64) | (
    bcs[6] as u64)
}

fn bytes_of(w: u64) -> (b: [u8; 7])
    ensures
        b@ == word_bytes(w),
{
    let b = [
        (w >> 48u64) as u8,
        (w >> 40u64) as u8,
        (w >> 32u64) as u8,
        (w >> 24u64) as u8,
        (w >> 16u64) as u8,
        (w >> 8u64) as u8,
        w as u8,
    ];
    assert(b@ =~= word_bytes(w));
    b
}

fn sign_extend16(x: u64) -> (v: i32)
    requires
        x <= 0xFFFF,
    ensures
        v == signed16(x),
{
    if x >= 0x8000 {
        (x as i32) - 0x1_0000
    } else {
        x as i32
    }
}

/// Decodes a BDS 4,4 payload; `None` when the speed field is 0 or above
/// 550 kt.
pub fn decode_bds44(bcs: &[u8; 7]) -> (r: Option<WindFields>)
    ensures
        r == spec_decode_bds44(bcs@),
{
    let w = word_of(bcs);
    let speed = ((w >> 44u64) & 0xFFFu64) as u16;
    if speed == 0 || speed > 550 {
        return None;
    }
    let sat = (w >> 16u64) & 0xFFFFu64;
    assert(sat <= 0xFFFF) by (bit_vector)
        requires
            sat == (w >> 16u64) & 0xFFFFu64,
    ;
    Some(
        WindFields {
            speed_kt: speed,
            dir_code: ((w >> 33u64) & 0x7FFu64) as u16,
            dir_valid: (w >> 32u64) & 1u64 == 1u64,
            sat_code: sign_extend16(sat),
        },
    )
}

/// Encodes a wind report into the BDS 4,4 layout.
pub fn encode_bds44(f: &WindFields) -> (b: [u8; 7])
    ensures
        b@ == spec_encode_bds44(*f),
{
    let speed: u16 = if f.speed_kt < 1 {
        1
    } else if f.speed_kt > 550 {
        550
    } else {
        f.speed_kt
    };
    let valid: u64 = if f.dir_valid {
        1
    } else {
        0
    };
    let w = ((speed as u64) << 44u64) | (((f.dir_code as u64) & 0x7FFu64) << 33u64) | (valid
        << 32u64) | ((((f.sat_code as u16) as u64) & 0xFFFFu64) << 16u64);
    bytes_of(w)
}

/// Decodes a BDS 4,5 payload; `None` for the no-data sentinel (icing 7
/// with neither turbulence nor shear).
pub fn decode_bds45(bcs: &[u8; 7]) -> (r: Option<HazardFields>)
    ensures
        r == spec_decode_bds45(bcs@),
{
    let w = word_of(bcs);
    let turbulence = ((w >> 54u64) & 3u64) as u8;
    let wind_shear = ((w >> 52u64) & 3u64) as u8;
    let microburst = ((w >> 50u64) & 3u64) as u8;
    let icing = ((w >> 47u64) & 7u64) as u8;
    if icing == 7 && turbulence == 0 && wind_shear == 0 {
        return None;
    }
    let td = (w >> 31u64) & 0xFFFFu64;
    assert(td <= 0xFFFF) by (bit_vector)
        requires
            td == (w >> 31u64) & 0xFFFFu64,
    ;
    Some(HazardFields { turbulence, wind_shear, microburst, icing, temp_dev_code: sign_extend16(td) })
}

/// Encodes a hazard report into the BDS 4,5 layout.
pub fn encode_bds45(h: &HazardFields) -> (b: [u8; 7])
    ensures
        b@ == spec_encode_bds45(*h),
{
    let w = (((h.turbulence as u64) & 3u64) << 54u64) | (((h.wind_shear as u64) & 3u64) << 52u64)
        | (((h.microburst as u64) & 3u64) << 50u64) | (((h.icing as u64) & 7u64) << 47u64) | ((((
    h.temp_dev_code as u16) as u64) & 0xFFFFu64) << 31u64);
    bytes_of(w)
}

proof fn lemma_word_bytes_roundtrip(w: u64)
    requires
        w < 0x100_0000_0000_0000u64,
    ensures
        bcs_word(word_bytes(w)) == w,
{
    let b = word_bytes(w);
    assert(b[0] == (w >> 48u64) as u8 && b[1] == (w >> 40u64) as u8 && b[2] == (w >> 32u64) as u8
        && b[3] == (w >> 24u64) as u8 && b[4] == (w >> 16u64) as u8 && b[5] == (w >> 8u64) as u8
        && b[6] == w as u8);
    assert((((w >> 48u64) as u8 as u64) << 48u64) | (((w >> 40u64) as u8 as u64) << 40u64) | (((w
        >> 32u64) as u8 as u64) << 32u64) | (((w >> 24u64) as u8 as u64) << 24u64) | (((w
        >> 16u64) as u8 as u64) << 16u64) | (((w >> 8u64) as u8 as u64) << 8u64) | (w as u8 as u64)
        == w) by (bit_vector)
        requires
            w < 0x100_0000_0000_0000u64,
    ;
}

proof fn lemma_signed16_of_truncation(x: i32)
    requires
        -0x8000 <= x < 0x8000,
    ensures
        signed16(((x as u16) as u64) & 0xFFFFu64) == x,
{
    let t = ((x as u16) as u64) & 0xFFFFu64;
    assert((x >= 0 ==> t == x as u64) && (x < 0 ==> t >= 0x8000 && t <= 0xFFFF && (t as i32)
        - 0x1_0000i32 == x)) by (bit_vector)
        requires
            t == ((x as u16) as u64) & 0xFFFFu64,
            -0x8000 <= x < 0x8000,
    ;
}

/// A wind report whose fields fit the register comes back unchanged from
/// encoding and decoding.
pub proof fn bds44_roundtrip(f: WindFields)
    requires
        1 <= f.speed_kt <= 550,
        f.dir_code < 2048,
        -0x8000 <= f.sat_code < 0x8000,
    ensures
        spec_decode_bds44(spec_encode_bds44(f)) == Some(f),
{
    let s = f.speed_kt as u64;
    let d = f.dir_code as u64;
    let v: u64 = if f.dir_valid {
        1
    } else {
        0
    };
    let sat = f.sat_code;
    let t = ((sat as u16) as u64) & 0xFFFFu64;
    let w = wind_word(f);
    assert(w == (s << 44u64) | ((d & 0x7FFu64) << 33u64) | (v << 32u64) | (t << 16u64));
    assert(w < 0x100_0000_0000_0000u64 && (w >> 44u64) & 0xFFFu64 == s && (w >> 33u64) & 0x7FFu64
        == d && (w >> 32u64) & 1u64 == v && (w >> 16u64) & 0xFFFFu64 == t) by (bit_vector)
        requires
            w == (s << 44u64) | ((d & 0x7FFu64) << 33u64) | (v << 32u64) | (t << 16u64),
            1 <= s <= 550,
            d < 2048,
            v <= 1,
            t == ((sat as u16) as u64) & 0xFFFFu64,
    ;
    lemma_word_bytes_roundtrip(w);
    lemma_signed16_of_truncation(f.sat_code);
}

/// A hazard report whose fields fit the register, and which is not the
/// no-data sentinel, comes back unchanged from encoding and decoding.
pub proof fn bds45_roundtrip(h: HazardFields)
    requires
        h.turbulence < 4,
        h.wind_shear < 4,
        h.microburst < 4,
        h.icing < 8,
        !(h.icing == 7 && h.turbulence == 0 && h.wind_shear == 0),
        -0x8000 <= h.temp_dev_code < 0x8000,
    ensures
        spec_decode_bds45(spec_encode_bds45(h)) == Some(h),
{
    let a = h.turbulence as u64;
    let b = h.wind_shear as u64;
    let c = h.microburst as u64;
    let i = h.icing as u64;
    let td = h.temp_dev_code;
    let t = ((td as u16) as u64) & 0xFFFFu64;
    let w = hazard_word(h);
    assert(w == ((a & 3u64) << 54u64) | ((b & 3u64) << 52u64) | ((c & 3u64) << 50u64) | ((i
        & 7u64) << 47u64) | (t << 31u64));
    assert(w < 0x100_0000_0000_0000u64 && (w >> 54u64) & 3u64 == a && (w >> 52u64) & 3u64 == b && (w
        >> 50u64) & 3u64 == c && (w >> 47u64) & 7u64 == i && (w >> 31u64) & 0xFFFFu64 == t)
        by (bit_vector)
        requires
            w == ((a & 3u64) << 54u64) | ((b & 3u64) << 52u64) | ((c & 3u64) << 50u64) | ((i
                & 7u64) << 47u64) | (t << 31u64),
            a < 4,
            b < 4,
            c < 4,
            i < 8,
            t == ((td as u16) as u64) & 0xFFFFu64,
    ;
    lemma_word_bytes_roundtrip(w);
    lemma_signed16_of_truncation(h.temp_dev_code);
}

/// Where each field of the two registers sits in the seven BCS bytes.
proof fn lemma_bcs_byte_fields(b0: u8, b1: u8, b2: u8, b3: u8, b4: u8, b5: u8, b6: u8, w: u64)
    by (bit_vector)
    requires
        w == ((b0 as u64) << 48u64) | ((b1 as u64) << 40u64) | ((b2 as u64) << 32u64) | ((
        b3 as u64) << 24u64) | ((b4 as u64) << 16u64) | ((b5 as u64) << 8u64) | (b6 as u64),
    ensures
        (w >> 54u64) & 3u64 == ((b0 >> 6u8) & 3u8) as u64,
        (w >> 52u64) & 3u64 == ((b0 >> 4u8) & 3u8) as u64,
        (w >> 50u64) & 3u64 == ((b0 >> 2u8) & 3u8) as u64,
        (w >> 47u64) & 7u64 == ((((b0 & 3u8) as u64) << 1u64) | ((b1 >> 7u8) as u64)),
        (w >> 31u64) & 0xFFFFu64 == ((((b1 & 0x7Fu8) as u64) << 9u64) | ((b2 as u64) << 1u64) | ((
        b3 >> 7u8) as u64)),
        (w >> 44u64) & 0xFFFu64 == (((b0 as u64) << 4u64) | ((b1 >> 4u8) as u64)),
        (w >> 33u64) & 0x7FFu64 == ((((b1 & 0xFu8) as u64) << 7u64) | ((b2 >> 1u8) as u64)),
        (w >> 32u64) & 1u64 == ((b2 & 1u8) as u64),
        (w >> 16u64) & 0xFFFFu64 == (((b3 as u64) << 8u64) | (b4 as u64)),
        (w >> 54u64) & 3u64 < 4u64,
        (w >> 52u64) & 3u64 < 4u64,
        (w >> 50u64) & 3u64 < 4u64,
        (w >> 47u64) & 7u64 < 8u64,
        (w >> 44u64) & 0xFFFu64 < 0x1000u64,
        (w >> 33u64) & 0x7FFu64 < 0x800u64,
{
}

/// The BDS 4,5 fields as the register's bytes carry them: turbulence in
/// the top two bits of the first byte, wind shear in the next two,
/// microburst in the two after, icing in the last two bits of the first
/// byte and the top bit of the second, and the 16-bit temperature
/// deviation from the low seven bits of the second byte through the top bit
/// of the fourth. Exactly the no-data sentinel (icing 7, no turbulence, no
/// shear) decodes to nothing.
pub proof fn bds45_byte_layout(b: Seq<u8>)
    requires
        b.len() == 7,
    ensures
        ({
            let icing: u64 = (((b[0] & 3u8) as u64) << 1u64) | ((b[1] >> 7u8) as u64);
            let td: u64 = (((b[1] & 0x7Fu8) as u64) << 9u64) | ((b[2] as u64) << 1u64) | ((b[3]
                >> 7u8) as u64);
            &&& spec_decode_bds45(b) is None <==> (icing == 7 && (b[0] >> 6u8) & 3u8 == 0 && (b[0]
                >> 4u8) & 3u8 == 0)
            &&& spec_decode_bds45(b) matches Some(h) ==> {
                &&& h.turbulence == (b[0] >> 6u8) & 3u8
                &&& h.wind_shear == (b[0] >> 4u8) & 3u8
                &&& h.microburst == (b[0] >> 2u8) & 3u8
                &&& h.icing as u64 == icing
                &&& h.temp_dev_code == signed16(td)
            }
        }),
{
    let w = bcs_word(b);
    lemma_bcs_byte_fields(b[0], b[1], b[2], b[3], b[4], b[5], b[6], w);
}

/// The BDS 4,4 fields as the register's bytes carry them: the 12-bit wind
/// speed across the first byte and the top nibble of the second, the
/// 11-bit direction from the low nibble of the second byte through the top
/// seven bits of the third, the direction-valid flag in the third byte's
/// low bit, and the static air temperature in the fourth and fifth bytes.
/// A speed of zero or above 550 kt decodes to nothing.
pub proof fn bds44_byte_layout(b: Seq<u8>)
    requires
        b.len() == 7,
    ensures
        ({
            let speed: u64 = ((b[0] as u64) << 4u64) | ((b[1] >> 4u8) as u64);
            &&& spec_decode_bds44(b) is None <==> (speed == 0 || speed > 550)
            &&& spec_decode_bds44(b) matches Some(f) ==> {
                &&& f.speed_kt as u64 == speed
                &&& f.dir_code as u64 == ((((b[1] & 0xFu8) as u64) << 7u64) | ((b[2] >> 1u8) as u64))
                &&& f.dir_valid == (b[2] & 1u8 == 1u8)
                &&& f.sat_code == signed16(((b[3] as u64) << 8u64) | (b[4] as u64))
            }
        }),
{
    lemma_bcs_byte_fields(b[0], b[1], b[2], b[3], b[4], b[5], b[6], bcs_word(b));
}

} // verus!
