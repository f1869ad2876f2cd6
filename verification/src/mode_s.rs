//! Mode S / ADS-B downlink decoder for 1090 MHz DF=17 Extended Squitter.
//!
//! Accepts raw 14-byte (112-bit ES) or 7-byte (56-bit) frames, validates the
//! CRC-24 parity (address parity or even parity), repairs single-bit errors,
//! and extracts identity, raw CPR position fields, barometric altitude and
//! velocity components per the DO-260B field layouts. Bit positions follow
//! the specification's MSB-first numbering: bit 0 is the first bit of the DF
//! field.
//!
//! Quantities are returned in the units the wire carries them: CPR fractions
//! as 17-bit counts (divide by 2^17), velocity components in knots, vertical
//! rate in ft/min, heading as a 10-bit count of 360/1024 degrees.

use vstd::prelude::*;
use vstd::arithmetic::power2::{pow2, lemma2_to64, lemma_pow2_unfold};
use crate::text::{string_from_chars, push_char};

verus! {

/// The Mode S generator polynomial with its x^24 term.
pub const CRC_POLY: u32 = 0x1FF_F409;

/// The generator polynomial without its x^24 term, as applied to the 24-bit
/// register.
pub open spec fn crc_generator() -> u32 {
    0xFF_F409u32
}

// ---------------------------------------------------------------------------
// Bit access
// ---------------------------------------------------------------------------

/// Bit `pos` of a frame, MSB-first; positions past the end read as zero.
pub open spec fn frame_bit(frame: Seq<u8>, pos: int) -> u8 {
    if 0 <= pos && pos / 8 < frame.len() {
        (frame[pos / 8] >> ((7 - pos % 8) as u8)) & 1u8
    } else {
        0u8
    }
}

/// The unsigned number spelled by bits `start .. start + len`, MSB first.
pub open spec fn bits_value(frame: Seq<u8>, start: int, len: nat) -> nat
    decreases len,
{
    if len == 0 {
        0
    } else {
        2 * bits_value(frame, start, (len - 1) as nat) + frame_bit(frame, start + len - 1) as nat
    }
}

pub proof fn lemma_frame_bit_le_1(frame: Seq<u8>, pos: int)
    ensures
        frame_bit(frame, pos) <= 1,
{
    if 0 <= pos && pos / 8 < frame.len() {
        let b = frame[pos / 8];
        let s = (7 - pos % 8) as u8;
        assert((b >> s) & 1u8 <= 1u8) by (bit_vector);
    }
}

pub proof fn lemma_bits_value_bound(frame: Seq<u8>, start: int, len: nat)
    ensures
        bits_value(frame, start, len) < pow2(len),
    decreases len,
{
    if len == 0 {
        lemma2_to64();
    } else {
        lemma_bits_value_bound(frame, start, (len - 1) as nat);
        lemma_frame_bit_le_1(frame, start + len - 1);
        lemma_pow2_unfold(len);
    }
}

fn bit_at(frame: &[u8], pos: usize) -> (b: u8)
    ensures
        b == frame_bit(frame@, pos as int),
        b <= 1,
{
    proof {
        lemma_frame_bit_le_1(frame@, pos as int);
    }
    if pos / 8 < frame.len() {
        (frame[pos / 8] >> ((7 - pos % 8) as u8)) & 1u8
    } else {
        0u8
    }
}

/// Reads the `len`-bit field starting at bit `start`.
pub fn field(frame: &[u8], start: usize, len: usize) -> (v: u64)
    requires
        len <= 64,
        start + len <= 128,
    ensures
        v == bits_value(frame@, start as int, len as nat),
{
    let mut v: u64 = 0;
    let mut k: usize = 0;
    while k < len
        invariant
            k <= len <= 64,
            start + len <= 128,
            v == bits_value(frame@, start as int, k as nat),
        decreases len - k,
    {
        proof {
            lemma_bits_value_bound(frame@, start as int, k as nat);
            lemma_pow2_unfold((k + 1) as nat);
            lemma2_to64();
            if k + 1 < 64 {
                vstd::arithmetic::power2::lemma_pow2_strictly_increases((k + 1) as nat, 64);
            }
        }
        let b = bit_at(frame, start + k);
        v = v * 2 + b as u64;
        k += 1;
    }
    v
}

// ---------------------------------------------------------------------------
// CRC-24
// ---------------------------------------------------------------------------

/// One register step of the Mode S parity generator: shift in `bit`, and
/// when the bit that falls out of position 23 is set, reduce by the
/// generator polynomial.
pub open spec fn crc24_step(reg: u32, bit: u8) -> u32 {
    let msb = (reg >> 23u32) & 1u32;
    let shifted = ((reg << 1u32) | (bit as u32)) & 0xFF_FFFFu32;
    if msb == 1 {
        shifted ^ crc_generator()
    } else {
        shifted
    }
}

/// Register after the first `n` bits of `frame` have been shifted in.
pub open spec fn crc24_run(frame: Seq<u8>, n: nat) -> u32
    decreases n,
{
    if n == 0 {
        0
    } else {
        crc24_step(crc24_run(frame, (n - 1) as nat), frame_bit(frame, n - 1))
    }
}

/// CRC-24 remainder of the whole frame: the frame polynomial reduced modulo
/// G(x) = x^24+x^23+...+x^12+x^10+x^3+1.
pub open spec fn spec_crc24(frame: Seq<u8>) -> u32 {
    crc24_run(frame, frame.len() * 8)
}

/// CRC-24 remainder over the full frame using the Mode S generator.
///
/// For a correctly received DF17 frame with address parity the remainder is
/// the transmitting ICAO address; with even parity it is zero.
pub fn crc25(bytes: &[u8]) -> (rem: u32)
    ensures
        rem == spec_crc24(bytes@),
{
    let mut reg: u32 = 0;
    let mut i: usize = 0;
    while i < bytes.len()
        invariant
            i <= bytes@.len(),
            reg == crc24_run(bytes@, (i * 8) as nat),
        decreases bytes.len() - i,
    {
        let byte = bytes[i];
        let mut b: usize = 0;
        while b < 8
            invariant
                i < bytes@.len(),
                byte == bytes@[i as int],
                b <= 8,
                reg == crc24_run(bytes@, (i * 8 + b) as nat),
            decreases 8 - b,
        {
            let bit = (byte >> ((7 - b) as u8)) & 1u8;
            proof {
                let pos = (i * 8 + b) as int;
                assert(pos / 8 == i && pos % 8 == b);
                assert(frame_bit(bytes@, pos) == bit);
            }
            let msb = (reg >> 23u32) & 1u32;
            let shifted = ((reg << 1u32) | (bit as u32)) & 0xFF_FFFFu32;
            reg = if msb == 1 {
                shifted ^ 0xFF_F409u32
            } else {
                shifted
            };
            b += 1;
        }
        i += 1;
    }
    assert(bytes@.len() * 8 == (i * 8) as nat);
    reg
}

// ---------------------------------------------------------------------------
// Single-bit repair
// ---------------------------------------------------------------------------

/// `frame` with bit `pos` (MSB-first numbering) inverted.
pub open spec fn flip_bit(frame: Seq<u8>, pos: int) -> Seq<u8> {
    frame.update(pos / 8, frame[pos / 8] ^ (0x80u8 >> ((pos % 8) as u8)))
}

/// The ICAO address field (bits 8..32).
pub open spec fn icao_field(frame: Seq<u8>) -> nat {
    bits_value(frame, 8, 24)
}

/// Inverting bit `pos` restores address parity (against the received ICAO
/// field) or even parity.
pub open spec fn repairs_at(frame: Seq<u8>, pos: int) -> bool {
    let rem = spec_crc24(flip_bit(frame, pos));
    rem == icao_field(frame) || rem == 0
}

/// The lowest bit position at or above `from` whose inversion repairs the
/// frame.
pub open spec fn first_repair(frame: Seq<u8>, from: nat) -> Option<nat>
    decreases 112 - from,
{
    if from >= 112 {
        None
    } else if repairs_at(frame, from as int) {
        Some(from)
    } else {
        first_repair(frame, from + 1)
    }
}

/// Repair position chosen for a frame: only full 112-bit frames are
/// repaired, at the lowest position that works.
pub open spec fn spec_repair(frame: Seq<u8>) -> Option<nat> {
    if frame.len() != 14 {
        None
    } else {
        first_repair(frame, 0)
    }
}

fn copy_bytes(raw: &[u8]) -> (v: Vec<u8>)
    ensures
        v@ == raw@,
{
    let mut v: Vec<u8> = Vec::new();
    let mut i: usize = 0;
    while i < raw.len()
        invariant
            i <= raw@.len(),
            v@ == raw@.subrange(0, i as int),
        decreases raw.len() - i,
    {
        v.push(raw[i]);
        assert(v@ =~= raw@.subrange(0, i + 1));
        i += 1;
    }
    assert(v@ =~= raw@);
    v
}

/// Attempts single-bit error repair across all 112 bit positions, returning
/// the repaired frame and the position that was inverted.
fn try_single_bit_repair(frame: &[u8]) -> (r: Option<(Vec<u8>, usize)>)
    ensures
        r matches Some((fixed, pos)) ==> spec_repair(frame@) == Some(pos as nat) && fixed@
            == flip_bit(frame@, pos as int),
        r is None ==> spec_repair(frame@) is None,
{
    if frame.len() != 14 {
        return None;
    }
    let f = field(frame, 8, 24);
    proof {
        lemma_bits_value_bound(frame@, 8, 24);
        lemma2_to64();
    }
    let target_icao = f as u32;
    let mut candidate = copy_bytes(frame);
    let mut pos: usize = 0;
    while pos < 112
        invariant
            frame@.len() == 14,
            pos <= 112,
            candidate@ == frame@,
            target_icao == icao_field(frame@),
            first_repair(frame@, 0) == first_repair(frame@, pos as nat),
        decreases 112 - pos,
    {
        let idx = pos / 8;
        let mask = 0x80u8 >> ((pos % 8) as u8);
        let saved = candidate[idx];
        candidate[idx] = saved ^ mask;
        assert(candidate@ == flip_bit(frame@, pos as int));
        let rem = crc25(candidate.as_slice());
        if rem == target_icao || rem == 0 {
            return Some((candidate, pos));
        }
        candidate[idx] = saved;
        assert(candidate@ =~= frame@);
        pos += 1;
    }
    None
}

// ---------------------------------------------------------------------------
// Altitude
// ---------------------------------------------------------------------------

/// XOR of the Gray code with all of its right shifts up to `k - 1` places.
pub open spec fn gray_prefix(g: u32, k: nat) -> u32
    decreases k,
{
    if k == 0 {
        0
    } else {
        gray_prefix(g, (k - 1) as nat) ^ (g >> ((k - 1) as u32))
    }
}

/// Binary value of an 11-bit reflected Gray code.
pub open spec fn gray_to_binary(g: u32) -> u32 {
    gray_prefix(g, 11)
}

/// The 11 value bits of the 12-bit altitude field with the Q slot (M8)
/// removed.
pub open spec fn altitude_count(field12: u16) -> u32 {
    ((((field12 >> 5u16) & 0x7Fu16) as u32) << 4u32) | ((field12 & 0x0Fu16) as u32)
}

/// Barometric altitude in feet encoded by the 12-bit field: with Q = 1 the
/// count resolves at 25 ft, otherwise it is a Gillham Gray code at 500 ft.
pub open spec fn spec_altitude_ft(field12: u16) -> int {
    if field12 & 0x10u16 != 0 {
        altitude_count(field12) as int * 25 - 1000
    } else {
        gray_to_binary(altitude_count(field12)) as int * 500 - 1000
    }
}

proof fn lemma_altitude_count_bound(field12: u16)
    ensures
        altitude_count(field12) < 2048,
{
    assert(((((field12 >> 5u16) & 0x7Fu16) as u32) << 4u32) | ((field12 & 0x0Fu16) as u32) < 2048)
        by (bit_vector);
}

/// Decodes the 12-bit ADS-B altitude field to feet.
pub fn decode_altitude(field12: u16) -> (alt: Option<i32>)
    ensures
        alt == Some(spec_altitude_ft(field12) as i32),
        alt matches Some(a) ==> a as int == spec_altitude_ft(field12),
{
    proof {
        lemma_altitude_count_bound(field12);
    }
    let high = (field12 >> 5u16) & 0x7F;
    let low = field12 & 0x0F;
    let n: u32 = ((high as u32) << 4u32) | (low as u32);
    if field12 & 0x10 != 0 {
        Some((n as i32) * 25 - 1000)
    } else {
        let mut binary: u32 = n;
        binary = binary ^ (binary >> 8u32);
        binary = binary ^ (binary >> 4u32);
        binary = binary ^ (binary >> 2u32);
        binary = binary ^ (binary >> 1u32);
        proof {
            reveal_with_fuel(gray_prefix, 12);
            assert(n < 2048 ==> ({
                let b1 = n ^ (n >> 8u32);
                let b2 = b1 ^ (b1 >> 4u32);
                let b3 = b2 ^ (b2 >> 2u32);
                b3 ^ (b3 >> 1u32)
            }) == 0u32 ^ (n >> 0u32) ^ (n >> 1u32) ^ (n >> 2u32) ^ (n >> 3u32) ^ (n >> 4u32) ^ (n
                >> 5u32) ^ (n >> 6u32) ^ (n >> 7u32) ^ (n >> 8u32) ^ (n >> 9u32) ^ (n >> 10u32))
                by (bit_vector);
            assert(binary == gray_to_binary(n));
            assert(binary < 2048u32) by (bit_vector)
                requires
                    binary == 0u32 ^ (n >> 0u32) ^ (n >> 1u32) ^ (n >> 2u32) ^ (n >> 3u32) ^ (n
                        >> 4u32) ^ (n >> 5u32) ^ (n >> 6u32) ^ (n >> 7u32) ^ (n >> 8u32) ^ (n
                        >> 9u32) ^ (n >> 10u32),
                    n < 2048u32,
            ;
        }
        Some((binary as i32) * 500 - 1000)
    }
}

/// Packs an altitude count (25 ft steps above -1000 ft) into the 12-bit
/// field with the Q bit set: count bits 4..10 go to M1..M7, bits 0..3 to
/// M9..M12.
pub open spec fn spec_altitude_code(count: u32) -> u16 {
    (((((count >> 4u32) & 0x7Fu32) as u16) << 5u16) | 0x10u16 | ((count & 0x0Fu32) as u16)) as u16
}

/// Encodes an altitude count (`round((ft + 1000) / 25)`, clamped at zero by
/// the caller) into the 12-bit Q=1 altitude field.
pub fn encode_altitude_count(count: u32) -> (code: u16)
    ensures
        code == spec_altitude_code(count),
        count < 2048 ==> spec_altitude_ft(code) == count as int * 25 - 1000,
{
    let code = (((((count >> 4u32) & 0x7Fu32) as u16) << 5u16) | 0x10u16 | ((count & 0x0Fu32)
        as u16)) as u16;
    proof {
        assert(count < 2048 ==> {
            let c = ((((count >> 4u32) & 0x7Fu32) as u16) << 5u16) | 0x10u16 | ((count & 0x0Fu32)
                as u16);
            &&& c & 0x10u16 != 0
            &&& ((((c >> 5u16) & 0x7Fu16) as u32) << 4u32) | ((c & 0x0Fu16) as u32) == count
        }) by (bit_vector);
    }
    code
}

// ---------------------------------------------------------------------------
// Message payloads
// ---------------------------------------------------------------------------

/// Fully parsed DF17 message payload.
#[derive(Debug, Clone, PartialEq)]
pub enum DecodedMessage {
    Identity { icao24: u32, callsign: String, category: u8 },
    AirbornePosition {
        icao24: u32,
        /// Barometric altitude, feet.
        altitude_ft: i32,
        /// True when this frame carries the odd-parity CPR variant.
        odd: bool,
        /// 17-bit CPR latitude count (fraction = count / 2^17).
        lat_cpr: u32,
        /// 17-bit CPR longitude count (fraction = count / 2^17).
        lon_cpr: u32,
        surveillance_status: u8,
    },
    SurfacePosition { icao24: u32, odd: bool, lat_cpr: u32, lon_cpr: u32 },
    Velocity {
        icao24: u32,
        subtype: u8,
        /// Ground-speed vector (east, north) in knots, subtypes 1 and 2.
        ground_vector_kt: Option<(i32, i32)>,
        /// Airspeed in knots, subtypes 3 and 4.
        airspeed_kt: Option<u32>,
        /// Magnetic heading as a count of 360/1024 degrees, subtypes 3 and 4.
        heading_raw: Option<u32>,
        vertical_rate_fpm: Option<i32>,
    },
    AircraftStatus { icao24: u32, emergency_state: u8 },
}

/// Mathematical value of a decoded message: the callsign as characters.
pub enum DecodedModel {
    Identity { icao24: u32, callsign: Seq<char>, category: u8 },
    AirbornePosition {
        icao24: u32,
        altitude_ft: i32,
        odd: bool,
        lat_cpr: u32,
        lon_cpr: u32,
        surveillance_status: u8,
    },
    SurfacePosition { icao24: u32, odd: bool, lat_cpr: u32, lon_cpr: u32 },
    Velocity {
        icao24: u32,
        subtype: u8,
        ground_vector_kt: Option<(i32, i32)>,
        airspeed_kt: Option<u32>,
        heading_raw: Option<u32>,
        vertical_rate_fpm: Option<i32>,
    },
    AircraftStatus { icao24: u32, emergency_state: u8 },
}

impl View for DecodedMessage {
    type V = DecodedModel;

    open spec fn view(&self) -> DecodedModel {
        match self {
            DecodedMessage::Identity { icao24, callsign, category } => DecodedModel::Identity {
                icao24: *icao24,
                callsign: callsign@,
                category: *category,
            },
            DecodedMessage::AirbornePosition {
                icao24,
                altitude_ft,
                odd,
                lat_cpr,
                lon_cpr,
                surveillance_status,
            } => DecodedModel::AirbornePosition {
                icao24: *icao24,
                altitude_ft: *altitude_ft,
                odd: *odd,
                lat_cpr: *lat_cpr,
                lon_cpr: *lon_cpr,
                surveillance_status: *surveillance_status,
            },
            DecodedMessage::SurfacePosition { icao24, odd, lat_cpr, lon_cpr } =>
                DecodedModel::SurfacePosition {
                icao24: *icao24,
                odd: *odd,
                lat_cpr: *lat_cpr,
                lon_cpr: *lon_cpr,
            },
            DecodedMessage::Velocity {
                icao24,
                subtype,
                ground_vector_kt,
                airspeed_kt,
                heading_raw,
                vertical_rate_fpm,
            } => DecodedModel::Velocity {
                icao24: *icao24,
                subtype: *subtype,
                ground_vector_kt: *ground_vector_kt,
                airspeed_kt: *airspeed_kt,
                heading_raw: *heading_raw,
                vertical_rate_fpm: *vertical_rate_fpm,
            },
            DecodedMessage::AircraftStatus { icao24, emergency_state } =>
                DecodedModel::AircraftStatus { icao24: *icao24, emergency_state: *emergency_state },
        }
    }
}

/// Decoder outcome including repair bookkeeping for diagnostics.
#[derive(Debug, Clone)]
pub struct DecodeResult {
    pub message: DecodedMessage,
    pub repaired_bit: Option<usize>,
}

pub open spec fn opt_usize_nat(o: Option<usize>) -> Option<nat> {
    match o {
        Some(v) => Some(v as nat),
        None => None,
    }
}

// ---------------------------------------------------------------------------
// Identity
// ---------------------------------------------------------------------------

/// 6-bit callsign alphabet (ICAO Annex 10 Vol IV): 1-26 'A'-'Z', 32 '_',
/// 48-57 '0'-'9', every other slot '#'.
pub open spec fn callsign_symbol(idx: nat) -> u8 {
    if 1 <= idx && idx <= 26 {
        (64 + idx) as u8
    } else if idx == 32 {
        95u8
    } else if 48 <= idx && idx <= 57 {
        idx as u8
    } else {
        35u8
    }
}

fn callsign_symbol_of(idx: u64) -> (b: u8)
    ensures
        b == callsign_symbol(idx as nat),
{
    if 1 <= idx && idx <= 26 {
        (64 + idx) as u8
    } else if idx == 32 {
        95u8
    } else if 48 <= idx && idx <= 57 {
        idx as u8
    } else {
        35u8
    }
}

pub open spec fn is_callsign_pad(c: char) -> bool {
    c == '#' || c == '_' || c == ' '
}

/// Drops trailing '#', '_' and ' ' characters.
pub open spec fn trim_callsign_pad(s: Seq<char>) -> Seq<char>
    decreases s.len(),
{
    if s.len() > 0 && is_callsign_pad(s.last()) {
        trim_callsign_pad(s.drop_last())
    } else {
        s
    }
}

/// The eight callsign characters carried in ME bits 8..56.
pub open spec fn raw_callsign(bits: Seq<u8>) -> Seq<char> {
    Seq::new(8, |i: int| callsign_symbol(bits_value(bits, 40 + 6 * i, 6)) as char)
}

proof fn lemma_trim_pad_prefix(s: Seq<char>, k: int)
    requires
        0 <= k <= s.len(),
        forall|j: int| k <= j < s.len() ==> is_callsign_pad(#[trigger] s[j]),
        k == 0 || !is_callsign_pad(s[k - 1]),
    ensures
        trim_callsign_pad(s) == s.subrange(0, k),
    decreases s.len() - k,
{
    if k < s.len() {
        assert(s.drop_last() =~= s.subrange(0, s.len() - 1));
        lemma_trim_pad_prefix(s.drop_last(), k);
        assert(s.drop_last().subrange(0, k) =~= s.subrange(0, k));
    } else {
        assert(s.subrange(0, k) =~= s);
    }
}

fn decode_identity(bits: &[u8], icao24: u32, tc: u8) -> (m: DecodedMessage)
    requires
        1 <= tc <= 4,
    ensures
        m@ == (DecodedModel::Identity {
            icao24,
            callsign: trim_callsign_pad(raw_callsign(bits@)),
            category: (tc as nat * 8 + bits_value(bits@, 37, 3)) as u8,
        }),
{
    let ca = field(bits, 37, 3);
    proof {
        lemma_bits_value_bound(bits@, 37, 3);
        lemma2_to64();
    }
    let category = (tc as u64 * 8 + ca) as u8;
    let mut chars: Vec<char> = Vec::new();
    let mut i: usize = 0;
    while i < 8
        invariant
            i <= 8,
            chars@ == raw_callsign(bits@).subrange(0, i as int),
        decreases 8 - i,
    {
        let idx = field(bits, 40 + i * 6, 6);
        let sym = callsign_symbol_of(idx);
        chars.push(sym as char);
        assert(chars@ =~= raw_callsign(bits@).subrange(0, i + 1));
        i += 1;
    }
    assert(chars@ =~= raw_callsign(bits@));
    let mut end: usize = 8;
    while end > 0 && (chars[end - 1] == '#' || chars[end - 1] == '_' || chars[end - 1] == ' ')
        invariant
            end <= 8,
            chars@.len() == 8,
            forall|j: int| end <= j < 8 ==> is_callsign_pad(#[trigger] chars@[j]),
        decreases end,
    {
        end -= 1;
    }
    proof {
        lemma_trim_pad_prefix(chars@, end as int);
    }
    let callsign = string_from_chars(chars.as_slice(), 0, end);
    DecodedMessage::Identity { icao24, callsign, category }
}

// ---------------------------------------------------------------------------
// Position, velocity, status
// ---------------------------------------------------------------------------

pub open spec fn spec_airborne_position(bits: Seq<u8>, icao24: u32) -> DecodedModel {
    DecodedModel::AirbornePosition {
        icao24,
        altitude_ft: spec_altitude_ft(bits_value(bits, 40, 12) as u16) as i32,
        odd: frame_bit(bits, 53) == 1,
        lat_cpr: bits_value(bits, 54, 17) as u32,
        lon_cpr: bits_value(bits, 71, 17) as u32,
        surveillance_status: bits_value(bits, 37, 2) as u8,
    }
}

fn decode_airborne_position(bits: &[u8], icao24: u32) -> (m: DecodedMessage)
    ensures
        m@ == spec_airborne_position(bits@, icao24),
{
    proof {
        lemma_bits_value_bound(bits@, 37, 2);
        lemma_bits_value_bound(bits@, 40, 12);
        lemma_bits_value_bound(bits@, 54, 17);
        lemma_bits_value_bound(bits@, 71, 17);
        lemma2_to64();
    }
    let surveillance_status = field(bits, 37, 2) as u8;
    let alt_field = field(bits, 40, 12) as u16;
    let odd = bit_at(bits, 53) == 1;
    let lat_cpr = field(bits, 54, 17) as u32;
    let lon_cpr = field(bits, 71, 17) as u32;
    let altitude_ft = match decode_altitude(alt_field) {
        Some(a) => a,
        None => 0,
    };
    DecodedMessage::AirbornePosition {
        icao24,
        altitude_ft,
        odd,
        lat_cpr,
        lon_cpr,
        surveillance_status,
    }
}

/// Vertical rate (ME bits 37-46): SIGN at frame bit 68, 9-bit RATE at
/// 69..78 in 64 ft/min steps offset by one; a zero RATE means "not
/// available".
pub open spec fn spec_vertical_rate(bits: Seq<u8>) -> Option<i32> {
    let raw = bits_value(bits, 69, 9);
    if raw == 0 {
        None
    } else if frame_bit(bits, 68) == 1 {
        Some((-(raw - 1) * 64) as i32)
    } else {
        Some(((raw - 1) * 64) as i32)
    }
}

/// Signed velocity component from a direction bit and an offset-by-one
/// magnitude.
pub open spec fn signed_component(dir: u8, raw: nat) -> i32 {
    if dir == 1 {
        (-(raw - 1)) as i32
    } else {
        (raw - 1) as i32
    }
}

/// Airborne velocity (TC 19). Subtypes 1/2: EW sign at ME bit 14 (frame
/// bit 45) with EW velocity at ME 15-24, NS sign at ME 25 with NS velocity
/// at ME 26-35. Subtypes 3/4: heading status at ME 14 with heading at ME
/// 15-24, airspeed at ME 26-35.
pub open spec fn spec_velocity(bits: Seq<u8>, icao24: u32) -> Option<DecodedModel> {
    let subtype = bits_value(bits, 37, 3);
    let vr = spec_vertical_rate(bits);
    if subtype == 1 || subtype == 2 {
        let ew_raw = bits_value(bits, 46, 10);
        let ns_raw = bits_value(bits, 57, 10);
        Some(
            DecodedModel::Velocity {
                icao24,
                subtype: subtype as u8,
                ground_vector_kt: if ew_raw == 0 && ns_raw == 0 {
                    None
                } else {
                    Some(
                        (
                            signed_component(frame_bit(bits, 45), ew_raw),
                            signed_component(frame_bit(bits, 56), ns_raw),
                        ),
                    )
                },
                airspeed_kt: None,
                heading_raw: None,
                vertical_rate_fpm: vr,
            },
        )
    } else if subtype == 3 || subtype == 4 {
        let spd_raw = bits_value(bits, 57, 10);
        Some(
            DecodedModel::Velocity {
                icao24,
                subtype: subtype as u8,
                ground_vector_kt: None,
                airspeed_kt: if spd_raw > 0 {
                    Some((spd_raw - 1) as u32)
                } else {
                    None
                },
                heading_raw: if frame_bit(bits, 45) == 1 {
                    Some(bits_value(bits, 46, 10) as u32)
                } else {
                    None
                },
                vertical_rate_fpm: vr,
            },
        )
    } else {
        None
    }
}

fn component(dir: u8, raw: u64) -> (v: i32)
    requires
        raw < 1024,
    ensures
        v == signed_component(dir, raw as nat),
{
    let m = raw as i32 - 1;
    if dir == 1 {
        -m
    } else {
        m
    }
}

fn decode_velocity(bits: &[u8], icao24: u32) -> (m: Option<DecodedMessage>)
    ensures
        m matches Some(msg) ==> spec_velocity(bits@, icao24) == Some(msg@),
        m is None ==> spec_velocity(bits@, icao24) is None,
{
    proof {
        lemma_bits_value_bound(bits@, 37, 3);
        lemma_bits_value_bound(bits@, 69, 9);
        lemma_bits_value_bound(bits@, 46, 10);
        lemma_bits_value_bound(bits@, 57, 10);
        lemma2_to64();
    }
    let subtype = field(bits, 37, 3) as u8;
    let vr_raw = field(bits, 69, 9) as i32;
    let vertical_rate_fpm = if vr_raw == 0 {
        None
    } else if bit_at(bits, 68) == 1 {
        Some(-(vr_raw - 1) * 64)
    } else {
        Some((vr_raw - 1) * 64)
    };
    if subtype == 1 || subtype == 2 {
        let ew_dir = bit_at(bits, 45);
        let ew_raw = field(bits, 46, 10);
        let ns_dir = bit_at(bits, 56);
        let ns_raw = field(bits, 57, 10);
        let ground_vector_kt = if ew_raw == 0 && ns_raw == 0 {
            None
        } else {
            Some((component(ew_dir, ew_raw), component(ns_dir, ns_raw)))
        };
        Some(
            DecodedMessage::Velocity {
                icao24,
                subtype,
                ground_vector_kt,
                airspeed_kt: None,
                heading_raw: None,
                vertical_rate_fpm,
            },
        )
    } else if subtype == 3 || subtype == 4 {
        let hdg_status = bit_at(bits, 45);
        let hdg_raw = field(bits, 46, 10) as u32;
        let spd_raw = field(bits, 57, 10) as u32;
        Some(
            DecodedMessage::Velocity {
                icao24,
                subtype,
                ground_vector_kt: None,
                airspeed_kt: if spd_raw > 0 {
                    Some(spd_raw - 1)
                } else {
                    None
                },
                heading_raw: if hdg_status == 1 {
                    Some(hdg_raw)
                } else {
                    None
                },
                vertical_rate_fpm,
            },
        )
    } else {
        None
    }
}

/// Payload decode of an (already parity-checked) DF17 frame, dispatched on
/// the ME type code.
pub open spec fn spec_decode_me(bits: Seq<u8>) -> Option<DecodedModel> {
    let icao24 = icao_field(bits) as u32;
    let tc = bits_value(bits, 32, 5);
    if 1 <= tc && tc <= 4 {
        Some(
            DecodedModel::Identity {
                icao24,
                callsign: trim_callsign_pad(raw_callsign(bits)),
                category: (tc * 8 + bits_value(bits, 37, 3)) as u8,
            },
        )
    } else if (9 <= tc && tc <= 18) || (20 <= tc && tc <= 22) {
        Some(spec_airborne_position(bits, icao24))
    } else if tc == 19 {
        spec_velocity(bits, icao24)
    } else if tc == 28 {
        Some(
            DecodedModel::AircraftStatus {
                icao24,
                emergency_state: bits_value(bits, 40, 3) as u8,
            },
        )
    } else {
        None
    }
}

fn decode_me(bits: &[u8]) -> (m: Option<DecodedMessage>)
    ensures
        m matches Some(msg) ==> spec_decode_me(bits@) == Some(msg@),
        m is None ==> spec_decode_me(bits@) is None,
{
    proof {
        lemma_bits_value_bound(bits@, 8, 24);
        lemma_bits_value_bound(bits@, 32, 5);
        lemma_bits_value_bound(bits@, 40, 3);
        lemma2_to64();
    }
    let icao24 = field(bits, 8, 24) as u32;
    let tc = field(bits, 32, 5) as u8;
    if 1 <= tc && tc <= 4 {
        Some(decode_identity(bits, icao24, tc))
    } else if (9 <= tc && tc <= 18) || (20 <= tc && tc <= 22) {
        Some(decode_airborne_position(bits, icao24))
    } else if tc == 19 {
        decode_velocity(bits, icao24)
    } else if tc == 28 {
        let emergency_state = field(bits, 40, 3) as u8;
        Some(DecodedMessage::AircraftStatus { icao24, emergency_state })
    } else {
        None
    }
}

// ---------------------------------------------------------------------------
// Frame decode
// ---------------------------------------------------------------------------

/// What `decode_frame` yields: DF17 frames whose parity fails are repaired
/// at the lowest working bit (14-byte frames only) or rejected; DF11
/// all-call replies with valid parity report an identity without callsign.
pub open spec fn spec_decode_frame(raw: Seq<u8>) -> Option<(DecodedModel, Option<nat>)> {
    if !(raw.len() == 7 || raw.len() == 14) {
        None
    } else if bits_value(raw, 0, 5) == 17 {
        let rem = spec_crc24(raw);
        if rem == icao_field(raw) || rem == 0 {
            match spec_decode_me(raw) {
                Some(m) => Some((m, None)),
                None => None,
            }
        } else {
            match spec_repair(raw) {
                Some(p) => match spec_decode_me(flip_bit(raw, p as int)) {
                    Some(m) => Some((m, Some(p))),
                    None => None,
                },
                None => None,
            }
        }
    } else if bits_value(raw, 0, 5) == 11 && (spec_crc24(raw) == 0 || spec_crc24(raw)
        == icao_field(raw)) {
        Some(
            (
                DecodedModel::Identity {
                    icao24: icao_field(raw) as u32,
                    callsign: Seq::empty(),
                    category: bits_value(raw, 5, 3) as u8,
                },
                None,
            ),
        )
    } else {
        None
    }
}

/// Decodes one raw Mode S frame (7 or 14 bytes).
pub fn decode_frame(raw: &[u8]) -> (r: Option<DecodeResult>)
    ensures
        r matches Some(res) ==> spec_decode_frame(raw@) == Some(
            (res.message@, opt_usize_nat(res.repaired_bit)),
        ),
        r is None ==> spec_decode_frame(raw@) is None,
{
    if !(raw.len() == 7 || raw.len() == 14) {
        return None;
    }
    proof {
        lemma_bits_value_bound(raw@, 0, 5);
        lemma_bits_value_bound(raw@, 5, 3);
        lemma_bits_value_bound(raw@, 8, 24);
        lemma2_to64();
    }
    let df = field(raw, 0, 5) as u8;
    if df == 17 {
        let icao_candidate = field(raw, 8, 24) as u32;
        let rem = crc25(raw);
        if rem != icao_candidate && rem != 0 {
            match try_single_bit_repair(raw) {
                Some((fixed, pos)) => {
                    match decode_me(fixed.as_slice()) {
                        Some(message) => {
                            return Some(DecodeResult { message, repaired_bit: Some(pos) });
                        },
                        None => {
                            return None;
                        },
                    }
                },
                None => {
                    return None;
                },
            }
        }
        match decode_me(raw) {
            Some(message) => {
                return Some(DecodeResult { message, repaired_bit: None });
            },
            None => {
                return None;
            },
        }
    }
    if df == 11 {
        let icao24 = field(raw, 8, 24) as u32;
        let ca = field(raw, 5, 3) as u8;
        let rem = crc25(raw);
        if rem == 0 || rem == icao24 {
            let message = DecodedMessage::Identity { icao24, callsign: String::new(), category: ca };
            return Some(DecodeResult { message, repaired_bit: None });
        }
    }
    None
}

// ---------------------------------------------------------------------------
// Synthesis helpers
// ---------------------------------------------------------------------------

/// Uppercase hexadecimal digit.
pub open spec fn hex_digit(n: u8) -> char {
    if n < 10 {
        ((48 + n) as u8) as char
    } else {
        ((55 + n) as u8) as char
    }
}

/// Canonical uppercase-hex wire form: two digits per byte, high nibble first.
pub open spec fn hex_string(bytes: Seq<u8>) -> Seq<char>
    decreases bytes.len(),
{
    if bytes.len() == 0 {
        Seq::empty()
    } else {
        hex_string(bytes.drop_last()).push(hex_digit(bytes.last() >> 4u8)).push(
            hex_digit(bytes.last() & 0x0Fu8),
        )
    }
}

fn hex_digit_of(n: u8) -> (c: char)
    requires
        n < 16,
    ensures
        c == hex_digit(n),
{
    if n < 10 {
        (48 + n) as char
    } else {
        (55 + n) as char
    }
}

/// Serialises a frame to the canonical uppercase-hex wire form.
pub fn frame_to_hex(frame: &[u8]) -> (s: String)
    ensures
        s@ == hex_string(frame@),
{
    let mut s = String::new();
    let mut i: usize = 0;
    while i < frame.len()
        invariant
            i <= frame@.len(),
            s@ == hex_string(frame@.subrange(0, i as int)),
        decreases frame.len() - i,
    {
        let b = frame[i];
        assert(b >> 4u8 < 16u8) by (bit_vector);
        assert(b & 0x0Fu8 < 16u8) by (bit_vector);
        push_char(&mut s, hex_digit_of(b >> 4u8));
        push_char(&mut s, hex_digit_of(b & 0x0Fu8));
        proof {
            let pre = frame@.subrange(0, i + 1);
            assert(pre.drop_last() =~= frame@.subrange(0, i as int));
            assert(pre.last() == b);
        }
        i += 1;
    }
    assert(frame@.subrange(0, frame@.len() as int) =~= frame@);
    s
}

/// Reverse lookup of the 6-bit callsign alphabet; space and underscore share
/// slot 32, anything outside the alphabet maps to slot 0.
pub open spec fn spec_callsign_index(c: u8) -> u64 {
    if c == 32 || c == 95 {
        32
    } else if 65 <= c && c <= 90 {
        (c - 64) as u64
    } else if 48 <= c && c <= 57 {
        c as u64
    } else {
        0
    }
}

/// Reverse lookup of the 6-bit callsign table.
pub fn char_to_callsign_index(c: u8) -> (idx: Option<u64>)
    ensures
        idx == Some(spec_callsign_index(c)),
{
    if c == 32 || c == 95 {
        Some(32)
    } else if 65 <= c && c <= 90 {
        Some((c - 65 + 1) as u64)
    } else if 48 <= c && c <= 57 {
        Some((c - 48 + 48) as u64)
    } else {
        Some(0)
    }
}

/// The 14-byte frame that `append_df17_parity` produces: the 11 payload
/// bytes followed by the 24-bit address parity (payload CRC xor ICAO).
pub open spec fn with_df17_parity(frame: Seq<u8>, icao24: u32) -> Seq<u8> {
    let parity = spec_crc24(frame + seq![0u8, 0u8, 0u8]) ^ icao24;
    frame + seq![(parity >> 16u32) as u8, (parity >> 8u32) as u8, parity as u8]
}

/// Appends the DF17 parity block (ICAO-address parity) and returns 14 bytes.
pub fn append_df17_parity(frame_no_parity: Vec<u8>, icao24: u32) -> (frame: Vec<u8>)
    requires
        frame_no_parity@.len() == 11,
    ensures
        frame@ == with_df17_parity(frame_no_parity@, icao24),
{
    let ghost payload = frame_no_parity@;
    let mut frame = frame_no_parity;
    frame.push(0);
    frame.push(0);
    frame.push(0);
    assert(frame@ =~= payload + seq![0u8, 0u8, 0u8]);
    let parity = crc25(frame.as_slice()) ^ icao24;
    let n = frame.len();
    frame[n - 3] = (parity >> 16u32) as u8;
    frame[n - 2] = (parity >> 8u32) as u8;
    frame[n - 1] = parity as u8;
    assert(frame@ =~= with_df17_parity(payload, icao24));
    frame
}

/// Number-of-latitude-zones table indexed by whole degrees of |latitude|
/// (index 86 and above: one zone).
pub open spec fn nl_table(deg: nat) -> usize {
    let t = seq![
        59usize, 59, 59, 58, 58, 57, 57, 56, 56, 55, 55, 54, 53, 53, 52, 51, 51, 50, 49, 48, 47,
        46, 45, 44, 43, 42, 41, 40, 39, 38, 37, 36, 35, 34, 33, 32, 31, 30, 29, 28, 27, 26, 25,
        24, 23, 22, 21, 20, 19, 18, 17, 16, 15, 14, 13, 12, 11, 10, 9, 8, 7, 6, 5, 4, 3, 2, 2,
        1, 1, 1, 1, 1, 1, 1, 1, 1, 1, 1, 1, 1, 1, 1, 1, 1, 1, 1, 1,
    ];
    if deg < 87 {
        t[deg as int]
    } else {
        1
    }
}

/// CPR number of latitude zones for a latitude whose magnitude has
/// `whole_degrees` as its integer part.
pub fn nl_zones_for_degrees(whole_degrees: u64) -> (nl: usize)
    ensures
        nl == nl_table(whole_degrees as nat),
{
    let table: [usize; 87] = [
        59, 59, 59, 58, 58, 57, 57, 56, 56, 55, 55, 54, 53, 53, 52, 51, 51, 50, 49, 48, 47, 46,
        45, 44, 43, 42, 41, 40, 39, 38, 37, 36, 35, 34, 33, 32, 31, 30, 29, 28, 27, 26, 25, 24,
        23, 22, 21, 20, 19, 18, 17, 16, 15, 14, 13, 12, 11, 10, 9, 8, 7, 6, 5, 4, 3, 2, 2, 1, 1,
        1, 1, 1, 1, 1, 1, 1, 1, 1, 1, 1, 1, 1, 1, 1, 1, 1, 1,
    ];
    if whole_degrees < 87 {
        let nl = table[whole_degrees as usize];
        assert(table@ =~= seq![
            59usize, 59, 59, 58, 58, 57, 57, 56, 56, 55, 55, 54, 53, 53, 52, 51, 51, 50, 49, 48,
            47, 46, 45, 44, 43, 42, 41, 40, 39, 38, 37, 36, 35, 34, 33, 32, 31, 30, 29, 28, 27,
            26, 25, 24, 23, 22, 21, 20, 19, 18, 17, 16, 15, 14, 13, 12, 11, 10, 9, 8, 7, 6, 5, 4,
            3, 2, 2, 1, 1, 1, 1, 1, 1, 1, 1, 1, 1, 1, 1, 1, 1, 1, 1, 1, 1, 1, 1,
        ]);
        nl
    } else {
        1
    }
}

} // verus!
