//! Properties of DF17 frames: the appended address parity makes the CRC-24
//! remainder equal the ICAO address; identity, status, position and velocity
//! frames built by the synthesis path decode back to what was encoded; and a
//! single bit error outside the DF and address fields is repaired.

use vstd::prelude::*;
use crate::mode_s::{
    bits_value, callsign_symbol, crc24_run, crc24_step, first_repair, flip_bit, frame_bit,
    icao_field, raw_callsign, repairs_at, signed_component, spec_altitude_ft, spec_callsign_index,
    spec_crc24, spec_decode_frame, spec_decode_me, spec_repair, trim_callsign_pad,
    with_df17_parity, DecodedModel,
};
use crate::synth::{
    df17_frame_spec, df17_payload, flag, identity_me, offset_clamped, pack_callsign,
    padded_callsign, position_me, status_me, velocity_me,
};

verus! {

// ---------------------------------------------------------------------------
// CRC register algebra
// ---------------------------------------------------------------------------

proof fn lemma_step_bound(reg: u32, bit: u8)
    ensures
        crc24_step(reg, bit) < 0x100_0000u32,
{
    assert(({
        let msb = (reg >> 23u32) & 1u32;
        let shifted = ((reg << 1u32) | (bit as u32)) & 0xFF_FFFFu32;
        if msb == 1 {
            shifted ^ 0xFF_F409u32
        } else {
            shifted
        }
    }) < 0x100_0000u32) by (bit_vector);
}

proof fn lemma_run_bound(f: Seq<u8>, n: nat)
    ensures
        crc24_run(f, n) < 0x100_0000u32,
    decreases n,
{
    if n > 0 {
        lemma_step_bound(crc24_run(f, (n - 1) as nat), frame_bit(f, n - 1));
    }
}

/// The register step is linear over GF(2) in (register, input bit).
proof fn lemma_step_linear(a: u32, b: u32, x: u8, y: u8)
    requires
        x <= 1,
        y <= 1,
    ensures
        crc24_step(a ^ b, x ^ y) == crc24_step(a, x) ^ crc24_step(b, y),
{
    assert(x <= 1u8 && y <= 1u8 ==> ({
        let r = a ^ b;
        let msb = (r >> 23u32) & 1u32;
        let shifted = ((r << 1u32) | ((x ^ y) as u32)) & 0xFF_FFFFu32;
        if msb == 1 {
            shifted ^ 0xFF_F409u32
        } else {
            shifted
        }
    }) == ({
        let msb = (a >> 23u32) & 1u32;
        let shifted = ((a << 1u32) | (x as u32)) & 0xFF_FFFFu32;
        if msb == 1 {
            shifted ^ 0xFF_F409u32
        } else {
            shifted
        }
    }) ^ ({
        let msb = (b >> 23u32) & 1u32;
        let shifted = ((b << 1u32) | (y as u32)) & 0xFF_FFFFu32;
        if msb == 1 {
            shifted ^ 0xFF_F409u32
        } else {
            shifted
        }
    })) by (bit_vector);
}

/// The register only depends on the bits shifted in so far.
proof fn lemma_run_prefix(f1: Seq<u8>, f2: Seq<u8>, n: nat)
    requires
        forall|pos: int| 0 <= pos < n ==> frame_bit(f1, pos) == frame_bit(f2, pos),
    ensures
        crc24_run(f1, n) == crc24_run(f2, n),
    decreases n,
{
    if n > 0 {
        lemma_run_prefix(f1, f2, (n - 1) as nat);
        assert(frame_bit(f1, n - 1) == frame_bit(f2, n - 1));
    }
}

proof fn lemma_frame_bit_le_1(f: Seq<u8>, pos: int)
    ensures
        frame_bit(f, pos) <= 1,
{
    if 0 <= pos && pos / 8 < f.len() {
        let b = f[pos / 8];
        let s = (7 - pos % 8) as u8;
        assert((b >> s) & 1u8 <= 1u8) by (bit_vector);
    }
}

/// The masks of the field widths the frame layouts use.
pub proof fn lemma_field_masks()
    by (bit_vector)
    ensures
        ((1u64 << 1u64) - 1) as u64 == 1u64,
        ((1u64 << 2u64) - 1) as u64 == 3u64,
        ((1u64 << 3u64) - 1) as u64 == 7u64,
        ((1u64 << 4u64) - 1) as u64 == 15u64,
        ((1u64 << 5u64) - 1) as u64 == 31u64,
        ((1u64 << 6u64) - 1) as u64 == 63u64,
        ((1u64 << 8u64) - 1) as u64 == 255u64,
        ((1u64 << 9u64) - 1) as u64 == 511u64,
        ((1u64 << 10u64) - 1) as u64 == 1023u64,
        ((1u64 << 12u64) - 1) as u64 == 4095u64,
        ((1u64 << 17u64) - 1) as u64 == 0x1FFFFu64,
        ((1u64 << 24u64) - 1) as u64 == 0xFFFFFFu64,
{
}

/// One byte, widened, spells itself as a one-byte word.
pub proof fn lemma_byte_word(b: u8)
    by (bit_vector)
    ensures
        ((b as u64) >> 0u64) as u8 == b,
        (b as u64) >> 5u64 == ((b >> 5u8) as u64),
        (b as u64) >> 3u64 == ((b >> 3u8) as u64),
        (b as u64) & 7u64 == ((b & 7u8) as u64),
        ((b as u64) >> 6u64) & 3u64 == (((b >> 6u8) & 3u8) as u64),
        ((b as u64) >> 4u64) & 3u64 == (((b >> 4u8) & 3u8) as u64),
        ((b as u64) >> 5u64) & 7u64 == ((b >> 5u8) as u64),
        ((b as u64) >> 3u64) & 31u64 == ((b >> 3u8) as u64),
        ((b as u64) >> 0u64) & 7u64 == ((b & 7u8) as u64),
{
}

/// A field inside one byte reads as that byte shifted and masked.
proof fn lemma_byte_field(f: Seq<u8>, a: int, i: nat, len: nat)
    requires
        0 <= a < f.len(),
        i + len <= 8,
    ensures
        bits_value(f, 8 * a + i, len) == ((((f[a] as u64) >> ((8 - i - len) as u64)) & (((1u64
            << (len as u64)) - 1) as u64)) as nat),
{
    lemma_byte_word(f[a]);
    assert(spells_word(f, a, 1, f[a] as u64)) by {
        assert(f[a + 0] == f[a]);
    }
    lemma_word_field(f, a, 1, f[a] as u64, i, len);
}

/// Bit `r` (MSB-first) of the byte holding bits `s .. s + 8` of `w`.
proof fn lemma_byte_bit(w: u64, s: u64, r: u64)
    requires
        s <= 56,
        r < 8,
    ensures
        ((((w >> s) as u8) >> ((7 - r) as u8)) & 1u8) as u64 == (w >> (s + 7 - r) as u64) & 1u64,
{
    assert(s <= 56u64 && r < 8u64 ==> ((((w >> s) as u8) >> ((7u64 - r) as u8)) & 1u8) as u64 == (w
        >> ((s + 7u64 - r) as u64)) & 1u64) by (bit_vector);
}

// ---------------------------------------------------------------------------
// Fields of byte-aligned big-endian words
// ---------------------------------------------------------------------------

/// Bytes `a .. a + k` of `f` spell the low `8k` bits of `w`, big-endian.
pub open spec fn spells_word(f: Seq<u8>, a: int, k: nat, w: u64) -> bool {
    &&& 1 <= k <= 8
    &&& 0 <= a
    &&& a + k <= f.len()
    &&& forall|j: int| 0 <= j < k ==> #[trigger] f[a + j] == (w >> ((8 * (k - 1 - j)) as u64)) as u8
}

proof fn lemma_word_bit(f: Seq<u8>, a: int, k: nat, w: u64, i: nat)
    requires
        spells_word(f, a, k, w),
        i < 8 * k,
    ensures
        frame_bit(f, 8 * a + i) as u64 == (w >> ((8 * k - 1 - i) as u64)) & 1u64,
{
    let j = (i / 8) as int;
    let r = (i % 8) as int;
    assert(8 * a + i == 8 * (a + j) + r);
    assert((8 * a + i) / 8 == a + j);
    assert((8 * a + i) % 8 == r);
    assert(0 <= j < k);
    assert(f[a + j] == (w >> ((8 * (k - 1 - j)) as u64)) as u8);
    lemma_byte_bit(w, (8 * (k - 1 - j)) as u64, r as u64);
    assert((8 * (k - 1 - j)) + 7 - r == 8 * k - 1 - i);
}

proof fn lemma_mask_step(w: u64, s: u64, l: u64)
    requires
        1 <= l <= 63,
        s + l <= 64,
    ensures
        2 * ((w >> (s + 1) as u64) & (((1u64 << (l - 1) as u64) - 1) as u64)) + ((w >> s) & 1u64)
            == (w >> s) & (((1u64 << l) - 1) as u64),
{
    assert(1u64 <= l && l <= 63u64 && s + l <= 64u64 ==> 2u64 * ((w >> ((s + 1u64) as u64)) & (((
    1u64 << ((l - 1u64) as u64)) - 1u64) as u64)) + ((w >> s) & 1u64) == (w >> s) & (((1u64 << l)
        - 1u64) as u64)) by (bit_vector);
}

/// A field inside a byte-aligned big-endian word reads as the shifted and
/// masked word.
pub proof fn lemma_word_field(f: Seq<u8>, a: int, k: nat, w: u64, i: nat, len: nat)
    requires
        spells_word(f, a, k, w),
        i + len <= 8 * k,
        len <= 63,
    ensures
        bits_value(f, 8 * a + i, len) == ((w >> ((8 * k - i - len) as u64)) & (((1u64 << (len
            as u64)) - 1) as u64)) as nat,
    decreases len,
{
    if len == 0 {
        let s = (8 * k - i) as u64;
        assert((w >> s) & (((1u64 << 0u64) - 1u64) as u64) == 0u64) by (bit_vector);
    } else {
        lemma_word_field(f, a, k, w, i, (len - 1) as nat);
        lemma_word_bit(f, a, k, w, (i + len - 1) as nat);
        let s = (8 * k - i - len) as u64;
        lemma_mask_step(w, s, len as u64);
        assert(8 * a + i + len - 1 == 8 * a + (i + len - 1));
        assert((8 * k - 1 - (i + len - 1)) as u64 == s);
        assert((8 * k - i - (len - 1)) as u64 == (s + 1) as u64);
    }
}

// ---------------------------------------------------------------------------
// Address parity
// ---------------------------------------------------------------------------

proof fn lemma_parity_tail(payload: Seq<u8>, icao24: u32, k: nat)
    requires
        payload.len() == 11,
        spec_crc24(payload + seq![0u8, 0u8, 0u8]) ^ icao24 < 0x100_0000u32,
        k <= 24,
    ensures
        ({
            let f1 = payload + seq![0u8, 0u8, 0u8];
            let f2 = with_df17_parity(payload, icao24);
            let parity = spec_crc24(f1) ^ icao24;
            crc24_run(f2, 88 + k) == crc24_run(f1, 88 + k) ^ (parity >> ((24 - k) as u32))
        }),
    decreases k,
{
    let f1 = payload + seq![0u8, 0u8, 0u8];
    let f2 = with_df17_parity(payload, icao24);
    let parity = spec_crc24(f1) ^ icao24;
    assert(f1.len() == 14 && f2.len() == 14);
    if k == 0 {
        assert forall|pos: int| 0 <= pos < 88 implies frame_bit(f1, pos) == frame_bit(f2, pos) by {
            assert(pos / 8 < 11);
            assert(f1[pos / 8] == payload[pos / 8]);
            assert(f2[pos / 8] == payload[pos / 8]);
        }
        lemma_run_prefix(f1, f2, 88);
        let a = crc24_run(f1, 88);
        assert(parity >> 24u32 == 0u32) by (bit_vector)
            requires
                parity < 0x100_0000u32,
        ;
        assert(a ^ 0u32 == a) by (bit_vector);
    } else {
        let kp = (k - 1) as nat;
        lemma_parity_tail(payload, icao24, kp);
        let pos = (88 + kp) as int;
        let j = (kp / 8) as int;
        let r = (kp % 8) as int;
        assert(pos / 8 == 11 + j && pos % 8 == r);
        assert(frame_bit(f1, pos) == 0u8) by {
            assert(f1[11 + j] == 0u8);
            let sh = (7 - r) as u8;
            assert((0u8 >> sh) & 1u8 == 0u8) by (bit_vector);
        }
        let byte = f2[11 + j];
        let p = parity as u64;
        assert(byte == (p >> ((8 * (2 - j)) as u64)) as u8) by {
            if j == 0 {
                assert((parity >> 16u32) as u8 == (p >> 16u64) as u8) by (bit_vector)
                    requires
                        p == parity as u64,
                ;
            } else if j == 1 {
                assert((parity >> 8u32) as u8 == (p >> 8u64) as u8) by (bit_vector)
                    requires
                        p == parity as u64,
                ;
            } else {
                assert(parity as u8 == (p >> 0u64) as u8) by (bit_vector)
                    requires
                        p == parity as u64,
                ;
            }
        }
        lemma_byte_bit(p, (8 * (2 - j)) as u64, r as u64);
        let b2 = frame_bit(f2, pos);
        let kk = kp as u32;
        assert(8 * (2 - j) + 7 - r == 23 - kp);
        assert(b2 as u64 == (p >> ((23u32 - kk) as u64)) & 1u64);
        assert(b2 == ((parity >> (23u32 - kk) as u32) & 1u32) as u8) by (bit_vector)
            requires
                b2 as u64 == (p >> ((23u32 - kk) as u64)) & 1u64,
                p == parity as u64,
                kk < 24u32,
        ;
        let a = crc24_run(f1, pos as nat);
        let q = parity >> ((24 - kp) as u32);
        lemma_frame_bit_le_1(f2, pos);
        lemma_step_linear(a, q, 0u8, b2);
        assert(0u8 ^ b2 == b2) by (bit_vector);
        assert(crc24_step(q, b2) == parity >> ((23u32 - kk) as u32)) by (bit_vector)
            requires
                q == parity >> ((24u32 - kk) as u32),
                b2 == ((parity >> (23u32 - kk) as u32) & 1u32) as u8,
                parity < 0x100_0000u32,
                kk < 24u32,
        ;
        assert(crc24_run(f2, (pos + 1) as nat) == crc24_step(crc24_run(f2, pos as nat), b2));
        assert(crc24_run(f1, (pos + 1) as nat) == crc24_step(crc24_run(f1, pos as nat), 0u8));
        assert(pos + 1 == 88 + k);
        assert((24 - k) as u32 == (23u32 - kk) as u32);
    }
}

/// A DF17 frame completed by `append_df17_parity` leaves a CRC-24 remainder
/// equal to the ICAO address it was built for.
pub proof fn parity_restores_icao_remainder(payload: Seq<u8>, icao24: u32)
    requires
        payload.len() == 11,
        icao24 < 0x100_0000,
    ensures
        spec_crc24(with_df17_parity(payload, icao24)) == icao24,
{
    let f1 = payload + seq![0u8, 0u8, 0u8];
    let c = spec_crc24(f1);
    lemma_run_bound(f1, 112);
    assert(f1.len() * 8 == 112);
    assert(c ^ icao24 < 0x100_0000u32) by (bit_vector)
        requires
            c < 0x100_0000u32,
            icao24 < 0x100_0000u32,
    ;
    lemma_parity_tail(payload, icao24, 24);
    let parity = c ^ icao24;
    assert(parity >> 0u32 == parity) by (bit_vector);
    assert(c ^ (c ^ icao24) == icao24) by (bit_vector);
    assert(with_df17_parity(payload, icao24).len() * 8 == 112);
}

// ---------------------------------------------------------------------------
// Round trips through the decoder
// ---------------------------------------------------------------------------

/// The callsign an identity frame built from `callsign` decodes to: each
/// padded byte mapped through the 6-bit alphabet and back, trailing padding
/// dropped.
pub open spec fn expected_callsign(callsign: Seq<u8>) -> Seq<char> {
    trim_callsign_pad(
        Seq::new(
            8,
            |i: int|
                callsign_symbol(spec_callsign_index(padded_callsign(callsign)[i]) as nat) as char,
        ),
    )
}

proof fn lemma_df17_frame_words(me: u64, icao24: u32)
    requires
        icao24 < 0x100_0000,
    ensures
        ({
            let f = df17_frame_spec(me, icao24);
            &&& f.len() == 14
            &&& spells_word(f, 0, 1, 0x8Du64)
            &&& spells_word(f, 1, 3, icao24 as u64)
            &&& spells_word(f, 4, 7, me)
        }),
{
    let f = df17_frame_spec(me, icao24);
    let payload = df17_payload(me, icao24);
    assert(f.len() == 14);
    assert forall|j: int| 0 <= j < 11 implies f[j] == payload[j] by {}
    assert(f[0] == (0x8Du64 >> 0u64) as u8) by {
        assert(0x8Du8 == (0x8Du64 >> 0u64) as u8) by (bit_vector);
    }
    let w = icao24 as u64;
    assert((icao24 >> 16u32) as u8 == (w >> 16u64) as u8 && (icao24 >> 8u32) as u8 == (w
        >> 8u64) as u8 && icao24 as u8 == (w >> 0u64) as u8) by (bit_vector)
        requires
            w == icao24 as u64,
    ;
    assert forall|j: int| 0 <= j < 3 implies #[trigger] f[1 + j] == (w >> ((8 * (3 - 1 - j))
        as u64)) as u8 by {
        if j == 0 {
        } else if j == 1 {
        } else {
        }
    }
    assert(me as u8 == (me >> 0u64) as u8) by (bit_vector);
    assert forall|j: int| 0 <= j < 7 implies #[trigger] f[4 + j] == (me >> ((8 * (7 - 1 - j))
        as u64)) as u8 by {
        if j == 0 {
        } else if j == 1 {
        } else if j == 2 {
        } else if j == 3 {
        } else if j == 4 {
        } else if j == 5 {
        } else {
        }
    }
    assert(forall|j: int| 0 <= j < 1 ==> #[trigger] f[0 + j] == (0x8Du64 >> ((8 * (1 - 1 - j))
        as u64)) as u8);
}

/// Header facts shared by every synthesised DF17 frame: DF 17, the ICAO
/// address, and a parity that passes without repair.
proof fn lemma_df17_header(me: u64, icao24: u32)
    requires
        icao24 < 0x100_0000,
    ensures
        ({
            let f = df17_frame_spec(me, icao24);
            &&& f.len() == 14
            &&& bits_value(f, 0, 5) == 17
            &&& icao_field(f) == icao24
            &&& spec_crc24(f) == icao24
        }),
{
    let f = df17_frame_spec(me, icao24);
    lemma_df17_frame_words(me, icao24);
    lemma_word_field(f, 0, 1, 0x8Du64, 0, 5);
    assert((0x8Du64 >> 3u64) & (((1u64 << 5u64) - 1) as u64) == 17u64) by (bit_vector);
    lemma_word_field(f, 1, 3, icao24 as u64, 0, 24);
    let w = icao24 as u64;
    assert((w >> 0u64) & (((1u64 << 24u64) - 1) as u64) == w) by (bit_vector)
        requires
            w < 0x100_0000u64,
    ;
    parity_restores_icao_remainder(df17_payload(me, icao24), icao24);
}

/// An identity frame from the synthesis path decodes, without repair, to
/// the ICAO address, the round-tripped callsign and category 34 (TC 4,
/// category 2).
pub proof fn identity_frame_roundtrip(icao24: u32, callsign: Seq<u8>)
    requires
        icao24 < 0x100_0000,
    ensures
        spec_decode_frame(df17_frame_spec(identity_me(4, 2, callsign), icao24)) == Some(
            (
                DecodedModel::Identity {
                    icao24,
                    callsign: expected_callsign(callsign),
                    category: 34u8,
                },
                None::<nat>,
            ),
        ),
{
    let me = identity_me(4, 2, callsign);
    let f = df17_frame_spec(me, icao24);
    let p = padded_callsign(callsign);
    lemma_df17_header(me, icao24);
    lemma_df17_frame_words(me, icao24);
    reveal_with_fuel(pack_callsign, 9);
    let c0 = spec_callsign_index(p[0]);
    let c1 = spec_callsign_index(p[1]);
    let c2 = spec_callsign_index(p[2]);
    let c3 = spec_callsign_index(p[3]);
    let c4 = spec_callsign_index(p[4]);
    let c5 = spec_callsign_index(p[5]);
    let c6 = spec_callsign_index(p[6]);
    let c7 = spec_callsign_index(p[7]);
    assert(c0 < 64 && c1 < 64 && c2 < 64 && c3 < 64 && c4 < 64 && c5 < 64 && c6 < 64 && c7 < 64);
    assert(me == (4u64 << 51u64) | ((2u64 & 7u64) << 48u64) | (((((((((0u64 | (c0 << 42u64)) | (c1
        << 36u64)) | (c2 << 30u64)) | (c3 << 24u64)) | (c4 << 18u64)) | (c5 << 12u64)) | (c6
        << 6u64)) | (c7 << 0u64))));
    assert({
        &&& (me >> 51u64) & 31u64 == 4u64
        &&& (me >> 48u64) & 7u64 == 2u64
        &&& (me >> 42u64) & 63u64 == c0
        &&& (me >> 36u64) & 63u64 == c1
        &&& (me >> 30u64) & 63u64 == c2
        &&& (me >> 24u64) & 63u64 == c3
        &&& (me >> 18u64) & 63u64 == c4
        &&& (me >> 12u64) & 63u64 == c5
        &&& (me >> 6u64) & 63u64 == c6
        &&& (me >> 0u64) & 63u64 == c7
    }) by (bit_vector)
        requires
            c0 < 64u64 && c1 < 64u64 && c2 < 64u64 && c3 < 64u64 && c4 < 64u64 && c5 < 64u64 && c6
                < 64u64 && c7 < 64u64,
            me == (4u64 << 51u64) | ((2u64 & 7u64) << 48u64) | (((((((((0u64 | (c0 << 42u64)) | (c1
                << 36u64)) | (c2 << 30u64)) | (c3 << 24u64)) | (c4 << 18u64)) | (c5 << 12u64)) | (
            c6 << 6u64)) | (c7 << 0u64))),
    ;
    lemma_field_masks();
    lemma_word_field(f, 4, 7, me, 0, 5);
    lemma_word_field(f, 4, 7, me, 5, 3);
    assert(bits_value(f, 32, 5) == 4);
    assert(bits_value(f, 37, 3) == 2);
    let cs = Seq::new(
        8,
        |i: int| callsign_symbol(spec_callsign_index(p[i]) as nat) as char,
    );
    assert forall|i: int| 0 <= i < 8 implies #[trigger] raw_callsign(f)[i] == cs[i] by {
        lemma_word_field(f, 4, 7, me, (8 + 6 * i) as nat, 6);
        assert(8 * 4 + (8 + 6 * i) == 40 + 6 * i);
        assert((56 - (8 + 6 * i) - 6) as u64 == (42 - 6 * i) as u64);
        if i == 0 {
        } else if i == 1 {
        } else if i == 2 {
        } else if i == 3 {
        } else if i == 4 {
        } else if i == 5 {
        } else if i == 6 {
        } else {
        }
    }
    assert(raw_callsign(f) =~= cs);
}

/// An aircraft-status frame from the synthesis path decodes, without
/// repair, to the ICAO address and the low three bits of the emergency
/// state.
pub proof fn status_frame_roundtrip(icao24: u32, emergency_state: u64)
    requires
        icao24 < 0x100_0000,
    ensures
        spec_decode_frame(df17_frame_spec(status_me(emergency_state), icao24)) == Some(
            (
                DecodedModel::AircraftStatus {
                    icao24,
                    emergency_state: (emergency_state & 7u64) as u8,
                },
                None::<nat>,
            ),
        ),
{
    let me = status_me(emergency_state);
    let f = df17_frame_spec(me, icao24);
    lemma_df17_header(me, icao24);
    lemma_df17_frame_words(me, icao24);
    let e = emergency_state;
    assert((me >> 51u64) & 31u64 == 28u64 && (me >> 45u64) & 7u64 == e & 7u64) by (bit_vector)
        requires
            me == (28u64 << 51u64) | (1u64 << 48u64) | ((e & 7u64) << 45u64),
    ;
    lemma_field_masks();
    lemma_word_field(f, 4, 7, me, 0, 5);
    lemma_word_field(f, 4, 7, me, 8, 3);
    assert(bits_value(f, 32, 5) == 28);
    assert(bits_value(f, 40, 3) == (e & 7u64));
}

/// A position frame from the synthesis path decodes, without repair, to
/// the address, the altitude its code stands for, the CPR format bit and
/// the 17-bit CPR counts.
pub proof fn position_frame_roundtrip(
    icao24: u32,
    alt_code: u16,
    odd: bool,
    lat_cpr: u64,
    lon_cpr: u64,
)
    requires
        icao24 < 0x100_0000,
        alt_code < 4096,
    ensures
        spec_decode_frame(df17_frame_spec(position_me(alt_code, odd, lat_cpr, lon_cpr), icao24))
            == Some(
            (
                DecodedModel::AirbornePosition {
                    icao24,
                    altitude_ft: spec_altitude_ft(alt_code) as i32,
                    odd,
                    lat_cpr: (lat_cpr & 0x1FFFFu64) as u32,
                    lon_cpr: (lon_cpr & 0x1FFFFu64) as u32,
                    surveillance_status: 0,
                },
                None::<nat>,
            ),
        ),
{
    let me = position_me(alt_code, odd, lat_cpr, lon_cpr);
    let f = df17_frame_spec(me, icao24);
    lemma_df17_header(me, icao24);
    lemma_df17_frame_words(me, icao24);
    let a = alt_code as u64;
    let o = flag(odd);
    let la = lat_cpr;
    let lo = lon_cpr;
    assert((me >> 51u64) & 31u64 == 11u64 && (me >> 49u64) & 3u64 == 0u64 && (me >> 36u64)
        & 4095u64 == a && (me >> 34u64) & 1u64 == o && (me >> 17u64) & 0x1FFFFu64 == la
        & 0x1FFFFu64 && (me >> 0u64) & 0x1FFFFu64 == lo & 0x1FFFFu64) by (bit_vector)
        requires
            me == (11u64 << 51u64) | (a << 36u64) | (o << 34u64) | ((la & 0x1FFFFu64) << 17u64) | (lo
                & 0x1FFFFu64),
            a < 4096,
            o <= 1,
    ;
    lemma_field_masks();
    lemma_word_field(f, 4, 7, me, 0, 5);
    lemma_word_field(f, 4, 7, me, 5, 2);
    lemma_word_field(f, 4, 7, me, 8, 12);
    lemma_word_bit(f, 4, 7, me, 21);
    lemma_word_field(f, 4, 7, me, 22, 17);
    lemma_word_field(f, 4, 7, me, 39, 17);
    assert(bits_value(f, 32, 5) == 11);
    assert(bits_value(f, 40, 12) == alt_code);
}

/// Vertical rate, ft/min, that a sign flag and transmitted magnitude stand
/// for (none when the magnitude is 0).
pub open spec fn expected_vertical_rate(down: bool, raw: u64) -> Option<i32> {
    if raw == 0 {
        None
    } else if down {
        Some((-(raw - 1) * 64) as i32)
    } else {
        Some(((raw - 1) * 64) as i32)
    }
}

/// A velocity frame from the synthesis path decodes, without repair, to a
/// subtype-1 ground vector made of the signed transmitted magnitudes less
/// one, and the matching vertical rate.
pub proof fn velocity_frame_roundtrip(
    icao24: u32,
    west: bool,
    ew_kt: i64,
    south: bool,
    ns_kt: i64,
    down: bool,
    vr_units: i64,
)
    requires
        icao24 < 0x100_0000,
    ensures
        spec_decode_frame(
            df17_frame_spec(velocity_me(west, ew_kt, south, ns_kt, down, vr_units), icao24),
        ) == Some(
            (
                DecodedModel::Velocity {
                    icao24,
                    subtype: 1,
                    ground_vector_kt: Some(
                        (
                            signed_component(
                                flag(west) as u8,
                                offset_clamped(ew_kt, 1, 1023) as nat,
                            ),
                            signed_component(
                                flag(south) as u8,
                                offset_clamped(ns_kt, 1, 1023) as nat,
                            ),
                        ),
                    ),
                    airspeed_kt: None,
                    heading_raw: None,
                    vertical_rate_fpm: expected_vertical_rate(
                        down,
                        offset_clamped(vr_units, 0, 511),
                    ),
                },
                None::<nat>,
            ),
        ),
{
    let me = velocity_me(west, ew_kt, south, ns_kt, down, vr_units);
    let f = df17_frame_spec(me, icao24);
    lemma_df17_header(me, icao24);
    lemma_df17_frame_words(me, icao24);
    let w = flag(west);
    let s = flag(south);
    let d = flag(down);
    let e = offset_clamped(ew_kt, 1, 1023);
    let n = offset_clamped(ns_kt, 1, 1023);
    let v = offset_clamped(vr_units, 0, 511);
    assert((me >> 51u64) & 31u64 == 19u64 && (me >> 48u64) & 7u64 == 1u64 && (me >> 42u64) & 1u64
        == w && (me >> 32u64) & 1023u64 == e && (me >> 31u64) & 1u64 == s && (me >> 21u64)
        & 1023u64 == n && (me >> 19u64) & 1u64 == d && (me >> 10u64) & 511u64 == v)
        by (bit_vector)
        requires
            me == (19u64 << 51u64) | (1u64 << 48u64) | (w << 42u64) | (e << 32u64) | (s << 31u64)
                | (n << 21u64) | (d << 19u64) | (v << 10u64),
            w <= 1,
            s <= 1,
            d <= 1,
            1 <= e <= 1023,
            1 <= n <= 1023,
            v <= 511,
    ;
    lemma_field_masks();
    lemma_word_field(f, 4, 7, me, 0, 5);
    lemma_word_field(f, 4, 7, me, 5, 3);
    lemma_word_bit(f, 4, 7, me, 13);
    lemma_word_field(f, 4, 7, me, 14, 10);
    lemma_word_bit(f, 4, 7, me, 24);
    lemma_word_field(f, 4, 7, me, 25, 10);
    lemma_word_bit(f, 4, 7, me, 36);
    lemma_word_field(f, 4, 7, me, 37, 9);
    assert(bits_value(f, 32, 5) == 19);
    assert(bits_value(f, 37, 3) == 1);
}

// ---------------------------------------------------------------------------
// Single-bit repair
// ---------------------------------------------------------------------------

/// The register after a single 1 bit followed by `k` zero bits.
pub open spec fn zero_steps(k: nat) -> u32
    decreases k,
{
    if k == 0 {
        1
    } else {
        crc24_step(zero_steps((k - 1) as nat), 0u8)
    }
}

/// CRC-24 syndrome of a single bit error at `q` in a 112-bit frame.
pub open spec fn syndrome(q: int) -> u32 {
    spec_crc24(flip_bit(Seq::new(14, |i: int| 0u8), q))
}

/// The register values after a 1 bit and up to 111 zero bits.
proof fn lemma_register_chain()
    by (bit_vector)
    ensures
        crc24_step(0u32, 0u8) == 0u32,
        crc24_step(0u32, 1u8) == 1u32,
        crc24_step(0x1u32, 0u8) == 0x2u32,
        crc24_step(0x2u32, 0u8) == 0x4u32,
        crc24_step(0x4u32, 0u8) == 0x8u32,
        crc24_step(0x8u32, 0u8) == 0x10u32,
        crc24_step(0x10u32, 0u8) == 0x20u32,
        crc24_step(0x20u32, 0u8) == 0x40u32,
        crc24_step(0x40u32, 0u8) == 0x80u32,
        crc24_step(0x80u32, 0u8) == 0x100u32,
        crc24_step(0x100u32, 0u8) == 0x200u32,
        crc24_step(0x200u32, 0u8) == 0x400u32,
        crc24_step(0x400u32, 0u8) == 0x800u32,
        crc24_step(0x800u32, 0u8) == 0x1000u32,
        crc24_step(0x1000u32, 0u8) == 0x2000u32,
        crc24_step(0x2000u32, 0u8) == 0x4000u32,
        crc24_step(0x4000u32, 0u8) == 0x8000u32,
        crc24_step(0x8000u32, 0u8) == 0x10000u32,
        crc24_step(0x10000u32, 0u8) == 0x20000u32,
        crc24_step(0x20000u32, 0u8) == 0x40000u32,
        crc24_step(0x40000u32, 0u8) == 0x80000u32,
        crc24_step(0x80000u32, 0u8) == 0x100000u32,
        crc24_step(0x100000u32, 0u8) == 0x200000u32,
        crc24_step(0x200000u32, 0u8) == 0x400000u32,
        crc24_step(0x400000u32, 0u8) == 0x800000u32,
        crc24_step(0x800000u32, 0u8) == 0xfff409u32,
        crc24_step(0xfff409u32, 0u8) == 0x1c1bu32,
        crc24_step(0x1c1bu32, 0u8) == 0x3836u32,
        crc24_step(0x3836u32, 0u8) == 0x706cu32,
        crc24_step(0x706cu32, 0u8) == 0xe0d8u32,
        crc24_step(0xe0d8u32, 0u8) == 0x1c1b0u32,
        crc24_step(0x1c1b0u32, 0u8) == 0x38360u32,
        crc24_step(0x38360u32, 0u8) == 0x706c0u32,
        crc24_step(0x706c0u32, 0u8) == 0xe0d80u32,
        crc24_step(0xe0d80u32, 0u8) == 0x1c1b00u32,
        crc24_step(0x1c1b00u32, 0u8) == 0x383600u32,
        crc24_step(0x383600u32, 0u8) == 0x706c00u32,
        crc24_step(0x706c00u32, 0u8) == 0xe0d800u32,
        crc24_step(0xe0d800u32, 0u8) == 0x3e4409u32,
        crc24_step(0x3e4409u32, 0u8) == 0x7c8812u32,
        crc24_step(0x7c8812u32, 0u8) == 0xf91024u32,
        crc24_step(0xf91024u32, 0u8) == 0xdd441u32,
        crc24_step(0xdd441u32, 0u8) == 0x1ba882u32,
        crc24_step(0x1ba882u32, 0u8) == 0x375104u32,
        crc24_step(0x375104u32, 0u8) == 0x6ea208u32,
        crc24_step(0x6ea208u32, 0u8) == 0xdd4410u32,
        crc24_step(0xdd4410u32, 0u8) == 0x457c29u32,
        crc24_step(0x457c29u32, 0u8) == 0x8af852u32,
        crc24_step(0x8af852u32, 0u8) == 0xea04adu32,
        crc24_step(0xea04adu32, 0u8) == 0x2bfd53u32,
        crc24_step(0x2bfd53u32, 0u8) == 0x57faa6u32,
        crc24_step(0x57faa6u32, 0u8) == 0xaff54cu32,
        crc24_step(0xaff54cu32, 0u8) == 0xa01e91u32,
        crc24_step(0xa01e91u32, 0u8) == 0xbfc92bu32,
        crc24_step(0xbfc92bu32, 0u8) == 0x80665fu32,
        crc24_step(0x80665fu32, 0u8) == 0xff38b7u32,
        crc24_step(0xff38b7u32, 0u8) == 0x18567u32,
        crc24_step(0x18567u32, 0u8) == 0x30aceu32,
        crc24_step(0x30aceu32, 0u8) == 0x6159cu32,
        crc24_step(0x6159cu32, 0u8) == 0xc2b38u32,
        crc24_step(0xc2b38u32, 0u8) == 0x185670u32,
        crc24_step(0x185670u32, 0u8) == 0x30ace0u32,
        crc24_step(0x30ace0u32, 0u8) == 0x6159c0u32,
        crc24_step(0x6159c0u32, 0u8) == 0xc2b380u32,
        crc24_step(0xc2b380u32, 0u8) == 0x7a9309u32,
        crc24_step(0x7a9309u32, 0u8) == 0xf52612u32,
        crc24_step(0xf52612u32, 0u8) == 0x15b82du32,
        crc24_step(0x15b82du32, 0u8) == 0x2b705au32,
        crc24_step(0x2b705au32, 0u8) == 0x56e0b4u32,
        crc24_step(0x56e0b4u32, 0u8) == 0xadc168u32,
        crc24_step(0xadc168u32, 0u8) == 0xa476d9u32,
        crc24_step(0xa476d9u32, 0u8) == 0xb719bbu32,
        crc24_step(0xb719bbu32, 0u8) == 0x91c77fu32,
        crc24_step(0x91c77fu32, 0u8) == 0xdc7af7u32,
        crc24_step(0xdc7af7u32, 0u8) == 0x4701e7u32,
        crc24_step(0x4701e7u32, 0u8) == 0x8e03ceu32,
        crc24_step(0x8e03ceu32, 0u8) == 0xe3f395u32,
        crc24_step(0xe3f395u32, 0u8) == 0x381323u32,
        crc24_step(0x381323u32, 0u8) == 0x702646u32,
        crc24_step(0x702646u32, 0u8) == 0xe04c8cu32,
        crc24_step(0xe04c8cu32, 0u8) == 0x3f6d11u32,
        crc24_step(0x3f6d11u32, 0u8) == 0x7eda22u32,
        crc24_step(0x7eda22u32, 0u8) == 0xfdb444u32,
        crc24_step(0xfdb444u32, 0u8) == 0x49c81u32,
        crc24_step(0x49c81u32, 0u8) == 0x93902u32,
        crc24_step(0x93902u32, 0u8) == 0x127204u32,
        crc24_step(0x127204u32, 0u8) == 0x24e408u32,
        crc24_step(0x24e408u32, 0u8) == 0x49c810u32,
        crc24_step(0x49c810u32, 0u8) == 0x939020u32,
        crc24_step(0x939020u32, 0u8) == 0xd8d449u32,
        crc24_step(0xd8d449u32, 0u8) == 0x4e5c9bu32,
        crc24_step(0x4e5c9bu32, 0u8) == 0x9cb936u32,
        crc24_step(0x9cb936u32, 0u8) == 0xc68665u32,
        crc24_step(0xc68665u32, 0u8) == 0x72f8c3u32,
        crc24_step(0x72f8c3u32, 0u8) == 0xe5f186u32,
        crc24_step(0xe5f186u32, 0u8) == 0x341705u32,
        crc24_step(0x341705u32, 0u8) == 0x682e0au32,
        crc24_step(0x682e0au32, 0u8) == 0xd05c14u32,
        crc24_step(0xd05c14u32, 0u8) == 0x5f4c21u32,
        crc24_step(0x5f4c21u32, 0u8) == 0xbe9842u32,
        crc24_step(0xbe9842u32, 0u8) == 0x82c48du32,
        crc24_step(0x82c48du32, 0u8) == 0xfa7d13u32,
        crc24_step(0xfa7d13u32, 0u8) == 0xb0e2fu32,
        crc24_step(0xb0e2fu32, 0u8) == 0x161c5eu32,
        crc24_step(0x161c5eu32, 0u8) == 0x2c38bcu32,
        crc24_step(0x2c38bcu32, 0u8) == 0x587178u32,
        crc24_step(0x587178u32, 0u8) == 0xb0e2f0u32,
        crc24_step(0xb0e2f0u32, 0u8) == 0x9e31e9u32,
        crc24_step(0x9e31e9u32, 0u8) == 0xc397dbu32,
        crc24_step(0xc397dbu32, 0u8) == 0x78dbbfu32,
        crc24_step(0x78dbbfu32, 0u8) == 0xf1b77eu32,
        crc24_step(0xf1b77eu32, 0u8) == 0x1c9af5u32,
        crc24_step(0x1c9af5u32, 0u8) == 0x3935eau32,
{
}

proof fn lemma_step_zero_injective(a: u32, b: u32)
    by (bit_vector)
    requires
        a < 0x100_0000u32,
        b < 0x100_0000u32,
        crc24_step(a, 0u8) == crc24_step(b, 0u8),
    ensures
        a == b,
{
}

/// Bit and xor facts behind flipping one frame bit.
proof fn lemma_flip_facts(a: u32, c: u32, d: u32, b: u8, r: u8, r2: u8)
    by (bit_vector)
    requires
        r < 8u8,
        r2 < 8u8,
    ensures
        r2 != r ==> ((b ^ (0x80u8 >> r)) >> ((7u8 - r2) as u8)) & 1u8 == (b >> ((7u8 - r2) as u8)) & 1u8,
        ((b ^ (0x80u8 >> r)) >> ((7u8 - r) as u8)) & 1u8 == ((b >> ((7u8 - r) as u8)) & 1u8) ^ 1u8,
        (0u8 >> ((7u8 - r2) as u8)) & 1u8 == 0u8,
        (b ^ (0x80u8 >> r)) ^ (0x80u8 >> r) == b,
        b ^ 0u8 == b,
        0u8 ^ b == b,
        a ^ 0u32 == a,
        a ^ c == a ==> c == 0u32,
        (a ^ c) ^ d == a ==> c == d,
        (a ^ c) ^ d == 0u32 ==> a == c ^ d,
        a ^ c == 0u32 ==> a == c,
        c ^ d == d ^ c,
{
}

/// A 1 bit is not followed back to the register value 1 within 111 zero
/// bits.
pub open spec fn not_one_upto(k: nat) -> bool
    decreases k,
{
    k == 0 || (zero_steps(k) != 1 && not_one_upto((k - 1) as nat))
}

proof fn lemma_not_one(k: nat, m: nat)
    requires
        not_one_upto(k),
        1 <= m <= k,
    ensures
        zero_steps(m) != 1,
    decreases k,
{
    if m < k {
        lemma_not_one((k - 1) as nat, m);
    }
}

proof fn lemma_zero_steps_order()
    ensures
        forall|m: nat| 1 <= m <= 111 ==> #[trigger] zero_steps(m) != 1,
{
    lemma_register_chain();
    assert(zero_steps(0) == 1u32 && not_one_upto(0));
    assert(zero_steps(1) == 0x2u32 && not_one_upto(1));
    assert(zero_steps(2) == 0x4u32 && not_one_upto(2));
    assert(zero_steps(3) == 0x8u32 && not_one_upto(3));
    assert(zero_steps(4) == 0x10u32 && not_one_upto(4));
    assert(zero_steps(5) == 0x20u32 && not_one_upto(5));
    assert(zero_steps(6) == 0x40u32 && not_one_upto(6));
    assert(zero_steps(7) == 0x80u32 && not_one_upto(7));
    assert(zero_steps(8) == 0x100u32 && not_one_upto(8));
    assert(zero_steps(9) == 0x200u32 && not_one_upto(9));
    assert(zero_steps(10) == 0x400u32 && not_one_upto(10));
    assert(zero_steps(11) == 0x800u32 && not_one_upto(11));
    assert(zero_steps(12) == 0x1000u32 && not_one_upto(12));
    assert(zero_steps(13) == 0x2000u32 && not_one_upto(13));
    assert(zero_steps(14) == 0x4000u32 && not_one_upto(14));
    assert(zero_steps(15) == 0x8000u32 && not_one_upto(15));
    assert(zero_steps(16) == 0x10000u32 && not_one_upto(16));
    assert(zero_steps(17) == 0x20000u32 && not_one_upto(17));
    assert(zero_steps(18) == 0x40000u32 && not_one_upto(18));
    assert(zero_steps(19) == 0x80000u32 && not_one_upto(19));
    assert(zero_steps(20) == 0x100000u32 && not_one_upto(20));
    assert(zero_steps(21) == 0x200000u32 && not_one_upto(21));
    assert(zero_steps(22) == 0x400000u32 && not_one_upto(22));
    assert(zero_steps(23) == 0x800000u32 && not_one_upto(23));
    assert(zero_steps(24) == 0xfff409u32 && not_one_upto(24));
    assert(zero_steps(25) == 0x1c1bu32 && not_one_upto(25));
    assert(zero_steps(26) == 0x3836u32 && not_one_upto(26));
    assert(zero_steps(27) == 0x706cu32 && not_one_upto(27));
    assert(zero_steps(28) == 0xe0d8u32 && not_one_upto(28));
    assert(zero_steps(29) == 0x1c1b0u32 && not_one_upto(29));
    assert(zero_steps(30) == 0x38360u32 && not_one_upto(30));
    assert(zero_steps(31) == 0x706c0u32 && not_one_upto(31));
    assert(zero_steps(32) == 0xe0d80u32 && not_one_upto(32));
    assert(zero_steps(33) == 0x1c1b00u32 && not_one_upto(33));
    assert(zero_steps(34) == 0x383600u32 && not_one_upto(34));
    assert(zero_steps(35) == 0x706c00u32 && not_one_upto(35));
    assert(zero_steps(36) == 0xe0d800u32 && not_one_upto(36));
    assert(zero_steps(37) == 0x3e4409u32 && not_one_upto(37));
    assert(zero_steps(38) == 0x7c8812u32 && not_one_upto(38));
    assert(zero_steps(39) == 0xf91024u32 && not_one_upto(39));
    assert(zero_steps(40) == 0xdd441u32 && not_one_upto(40));
    assert(zero_steps(41) == 0x1ba882u32 && not_one_upto(41));
    assert(zero_steps(42) == 0x375104u32 && not_one_upto(42));
    assert(zero_steps(43) == 0x6ea208u32 && not_one_upto(43));
    assert(zero_steps(44) == 0xdd4410u32 && not_one_upto(44));
    assert(zero_steps(45) == 0x457c29u32 && not_one_upto(45));
    assert(zero_steps(46) == 0x8af852u32 && not_one_upto(46));
    assert(zero_steps(47) == 0xea04adu32 && not_one_upto(47));
    assert(zero_steps(48) == 0x2bfd53u32 && not_one_upto(48));
    assert(zero_steps(49) == 0x57faa6u32 && not_one_upto(49));
    assert(zero_steps(50) == 0xaff54cu32 && not_one_upto(50));
    assert(zero_steps(51) == 0xa01e91u32 && not_one_upto(51));
    assert(zero_steps(52) == 0xbfc92bu32 && not_one_upto(52));
    assert(zero_steps(53) == 0x80665fu32 && not_one_upto(53));
    assert(zero_steps(54) == 0xff38b7u32 && not_one_upto(54));
    assert(zero_steps(55) == 0x18567u32 && not_one_upto(55));
    assert(zero_steps(56) == 0x30aceu32 && not_one_upto(56));
    assert(zero_steps(57) == 0x6159cu32 && not_one_upto(57));
    assert(zero_steps(58) == 0xc2b38u32 && not_one_upto(58));
    assert(zero_steps(59) == 0x185670u32 && not_one_upto(59));
    assert(zero_steps(60) == 0x30ace0u32 && not_one_upto(60));
    assert(zero_steps(61) == 0x6159c0u32 && not_one_upto(61));
    assert(zero_steps(62) == 0xc2b380u32 && not_one_upto(62));
    assert(zero_steps(63) == 0x7a9309u32 && not_one_upto(63));
    assert(zero_steps(64) == 0xf52612u32 && not_one_upto(64));
    assert(zero_steps(65) == 0x15b82du32 && not_one_upto(65));
    assert(zero_steps(66) == 0x2b705au32 && not_one_upto(66));
    assert(zero_steps(67) == 0x56e0b4u32 && not_one_upto(67));
    assert(zero_steps(68) == 0xadc168u32 && not_one_upto(68));
    assert(zero_steps(69) == 0xa476d9u32 && not_one_upto(69));
    assert(zero_steps(70) == 0xb719bbu32 && not_one_upto(70));
    assert(zero_steps(71) == 0x91c77fu32 && not_one_upto(71));
    assert(zero_steps(72) == 0xdc7af7u32 && not_one_upto(72));
    assert(zero_steps(73) == 0x4701e7u32 && not_one_upto(73));
    assert(zero_steps(74) == 0x8e03ceu32 && not_one_upto(74));
    assert(zero_steps(75) == 0xe3f395u32 && not_one_upto(75));
    assert(zero_steps(76) == 0x381323u32 && not_one_upto(76));
    assert(zero_steps(77) == 0x702646u32 && not_one_upto(77));
    assert(zero_steps(78) == 0xe04c8cu32 && not_one_upto(78));
    assert(zero_steps(79) == 0x3f6d11u32 && not_one_upto(79));
    assert(zero_steps(80) == 0x7eda22u32 && not_one_upto(80));
    assert(zero_steps(81) == 0xfdb444u32 && not_one_upto(81));
    assert(zero_steps(82) == 0x49c81u32 && not_one_upto(82));
    assert(zero_steps(83) == 0x93902u32 && not_one_upto(83));
    assert(zero_steps(84) == 0x127204u32 && not_one_upto(84));
    assert(zero_steps(85) == 0x24e408u32 && not_one_upto(85));
    assert(zero_steps(86) == 0x49c810u32 && not_one_upto(86));
    assert(zero_steps(87) == 0x939020u32 && not_one_upto(87));
    assert(zero_steps(88) == 0xd8d449u32 && not_one_upto(88));
    assert(zero_steps(89) == 0x4e5c9bu32 && not_one_upto(89));
    assert(zero_steps(90) == 0x9cb936u32 && not_one_upto(90));
    assert(zero_steps(91) == 0xc68665u32 && not_one_upto(91));
    assert(zero_steps(92) == 0x72f8c3u32 && not_one_upto(92));
    assert(zero_steps(93) == 0xe5f186u32 && not_one_upto(93));
    assert(zero_steps(94) == 0x341705u32 && not_one_upto(94));
    assert(zero_steps(95) == 0x682e0au32 && not_one_upto(95));
    assert(zero_steps(96) == 0xd05c14u32 && not_one_upto(96));
    assert(zero_steps(97) == 0x5f4c21u32 && not_one_upto(97));
    assert(zero_steps(98) == 0xbe9842u32 && not_one_upto(98));
    assert(zero_steps(99) == 0x82c48du32 && not_one_upto(99));
    assert(zero_steps(100) == 0xfa7d13u32 && not_one_upto(100));
    assert(zero_steps(101) == 0xb0e2fu32 && not_one_upto(101));
    assert(zero_steps(102) == 0x161c5eu32 && not_one_upto(102));
    assert(zero_steps(103) == 0x2c38bcu32 && not_one_upto(103));
    assert(zero_steps(104) == 0x587178u32 && not_one_upto(104));
    assert(zero_steps(105) == 0xb0e2f0u32 && not_one_upto(105));
    assert(zero_steps(106) == 0x9e31e9u32 && not_one_upto(106));
    assert(zero_steps(107) == 0xc397dbu32 && not_one_upto(107));
    assert(zero_steps(108) == 0x78dbbfu32 && not_one_upto(108));
    assert(zero_steps(109) == 0xf1b77eu32 && not_one_upto(109));
    assert(zero_steps(110) == 0x1c9af5u32 && not_one_upto(110));
    assert(zero_steps(111) == 0x3935eau32 && not_one_upto(111));
    assert forall|m: nat| 1 <= m <= 111 implies #[trigger] zero_steps(m) != 1 by {
        lemma_not_one(111, m);
    }
}

proof fn lemma_zero_steps_bound(k: nat)
    ensures
        zero_steps(k) < 0x100_0000u32,
{
    if k > 0 {
        lemma_step_bound(zero_steps((k - 1) as nat), 0u8);
    }
}

proof fn lemma_zero_steps_nonzero(k: nat)
    ensures
        zero_steps(k) != 0,
    decreases k,
{
    if k > 0 {
        lemma_zero_steps_nonzero((k - 1) as nat);
        lemma_register_chain();
        lemma_zero_steps_bound((k - 1) as nat);
        if zero_steps(k) == 0 {
            lemma_step_zero_injective(zero_steps((k - 1) as nat), 0u32);
        }
    }
}

proof fn lemma_zero_steps_distinct(i: nat, j: nat)
    requires
        i < j <= 111,
    ensures
        zero_steps(i) != zero_steps(j),
    decreases i,
{
    lemma_zero_steps_order();
    if i == 0 {
        assert(zero_steps(j) != 1);
    } else {
        lemma_zero_steps_distinct((i - 1) as nat, (j - 1) as nat);
        lemma_zero_steps_bound((i - 1) as nat);
        lemma_zero_steps_bound((j - 1) as nat);
        if zero_steps(i) == zero_steps(j) {
            lemma_step_zero_injective(zero_steps((i - 1) as nat), zero_steps((j - 1) as nat));
        }
    }
}

/// Flipping bit `q` changes bit `q` and no other.
proof fn lemma_flip_bit_at(f: Seq<u8>, q: int, pos: int)
    requires
        0 <= q < 8 * f.len(),
        0 <= pos < 8 * f.len(),
    ensures
        frame_bit(flip_bit(f, q), pos) == if pos == q {
            frame_bit(f, pos) ^ 1u8
        } else {
            frame_bit(f, pos)
        },
        flip_bit(f, q).len() == f.len(),
{
    let g = flip_bit(f, q);
    let r = (q % 8) as u8;
    let r2 = (pos % 8) as u8;
    lemma_flip_facts(0, 0, 0, f[q / 8], r, r2);
    assert((7 - pos % 8) as u8 == (7u8 - r2) as u8);
    assert((7 - q % 8) as u8 == (7u8 - r) as u8);
    if pos / 8 != q / 8 {
        assert(g[pos / 8] == f[pos / 8]);
    } else if pos != q {
        assert(r2 != r);
    }
}

proof fn lemma_flip_twice(f: Seq<u8>, q: int)
    requires
        0 <= q < 8 * f.len(),
    ensures
        flip_bit(flip_bit(f, q), q) == f,
{
    let r = (q % 8) as u8;
    lemma_flip_facts(0, 0, 0, f[q / 8], r, 0);
    assert(flip_bit(flip_bit(f, q), q) =~= f);
}

/// The register of a frame with bit `q` flipped is the frame's register
/// xor that of the single-bit frame.
proof fn lemma_run_flip(f: Seq<u8>, q: int, n: nat)
    requires
        f.len() == 14,
        0 <= q < 112,
        n <= 112,
    ensures
        crc24_run(flip_bit(f, q), n) == crc24_run(f, n) ^ crc24_run(
            flip_bit(Seq::new(14, |i: int| 0u8), q),
            n,
        ),
    decreases n,
{
    let z = Seq::new(14, |i: int| 0u8);
    let u = flip_bit(z, q);
    let g = flip_bit(f, q);
    if n == 0 {
        lemma_flip_facts(0u32, 0, 0, 0, 0, 0);
    } else {
        lemma_run_flip(f, q, (n - 1) as nat);
        let pos = n - 1;
        lemma_flip_bit_at(f, q, pos);
        lemma_flip_bit_at(z, q, pos);
        let bf = frame_bit(f, pos);
        let ub = frame_bit(u, pos);
        lemma_frame_bit_le_1(f, pos);
        lemma_frame_bit_le_1(u, pos);
        lemma_flip_facts(0, 0, 0, bf, 0, (7 - pos % 8) as u8);
        assert(frame_bit(z, pos) == 0u8) by {
            lemma_flip_facts(0, 0, 0, 0, 0, (pos % 8) as u8);
            assert((7 - pos % 8) as u8 == (7u8 - ((pos % 8) as u8)) as u8);
        }
        assert(frame_bit(g, pos) == bf ^ ub) by {
            if pos == q {
                lemma_flip_facts(0, 0, 0, 1u8, 0, 0);
            }
        }
        lemma_step_linear(crc24_run(f, (n - 1) as nat), crc24_run(u, (n - 1) as nat), bf, ub);
    }
}

/// A field that does not cover bit `q` reads the same after flipping it.
proof fn lemma_flip_outside_field(f: Seq<u8>, q: int, start: int, len: nat)
    requires
        0 <= q < 8 * f.len(),
        0 <= start,
        start + len <= 8 * f.len(),
        q < start || q >= start + len,
    ensures
        bits_value(flip_bit(f, q), start, len) == bits_value(f, start, len),
    decreases len,
{
    if len > 0 {
        lemma_flip_outside_field(f, q, start, (len - 1) as nat);
        lemma_flip_bit_at(f, q, start + len - 1);
    }
}

/// A single-bit frame's register: zero before the bit, then the chain.
proof fn lemma_unit_run(q: int, n: nat)
    requires
        0 <= q < 112,
        n <= 112,
    ensures
        crc24_run(flip_bit(Seq::new(14, |i: int| 0u8), q), n) == if n <= q {
            0u32
        } else {
            zero_steps((n - q - 1) as nat)
        },
    decreases n,
{
    let z = Seq::new(14, |i: int| 0u8);
    if n > 0 {
        lemma_unit_run(q, (n - 1) as nat);
        let pos = n - 1;
        lemma_flip_bit_at(z, q, pos);
        assert(frame_bit(z, pos) == 0u8) by {
            lemma_flip_facts(0, 0, 0, 0, 0, (pos % 8) as u8);
            assert((7 - pos % 8) as u8 == (7u8 - ((pos % 8) as u8)) as u8);
        }
        lemma_register_chain();
        lemma_flip_facts(0, 0, 0, 1u8, 0, 0);
    }
}

proof fn lemma_syndrome(q: int)
    requires
        0 <= q < 112,
    ensures
        syndrome(q) == zero_steps((111 - q) as nat),
        syndrome(q) != 0,
{
    lemma_unit_run(q, 112);
    lemma_zero_steps_nonzero((111 - q) as nat);
}

proof fn lemma_first_repair_at(f: Seq<u8>, q: int, from: int)
    requires
        f.len() == 14,
        spec_crc24(f) == icao_field(f),
        5 <= q < 8 || 32 <= q < 112,
        forall|p: int| 0 <= p < q ==> spec_crc24(f) != #[trigger] syndrome(p) ^ syndrome(q),
        0 <= from <= q,
    ensures
        first_repair(flip_bit(f, q), from as nat) == Some(q as nat),
    decreases q - from,
{
    let g = flip_bit(f, q);
    lemma_flip_bit_at(f, q, 0);
    lemma_flip_outside_field(f, q, 8, 24);
    let c = spec_crc24(f);
    let sq = syndrome(q);
    lemma_run_flip(f, q, 112);
    assert(spec_crc24(g) == c ^ sq);
    if from == q {
        lemma_flip_twice(f, q);
        assert(repairs_at(g, q));
    } else {
        lemma_first_repair_at(f, q, from + 1);
        let p = from;
        let sp = syndrome(p);
        lemma_run_flip(g, p, 112);
        assert(spec_crc24(flip_bit(g, p)) == (c ^ sq) ^ sp);
        lemma_syndrome(p);
        lemma_syndrome(q);
        lemma_zero_steps_distinct((111 - q) as nat, (111 - p) as nat);
        lemma_flip_facts(c, sq, sp, 0, 0, 0);
        assert(c != sp ^ sq);
        assert(!repairs_at(g, p));
    }
}

/// Single-bit repair: a DF17 frame with address parity that suffers one
/// bit error outside its DF and address fields decodes to the message it
/// carried, repaired at that bit. The inputs left out are those where the
/// address equals the error's syndrome, or the combined syndrome of the
/// error and an earlier bit: there the even-parity reading decides first.
pub proof fn single_bit_error_repaired(f: Seq<u8>, q: int)
    requires
        f.len() == 14,
        bits_value(f, 0, 5) == 17,
        spec_crc24(f) == icao_field(f),
        5 <= q < 8 || 32 <= q < 112,
        spec_crc24(f) != syndrome(q),
        forall|p: int| 0 <= p < q ==> spec_crc24(f) != #[trigger] syndrome(p) ^ syndrome(q),
    ensures
        spec_decode_frame(f) == match spec_decode_me(f) {
            Some(m) => Some((m, None::<nat>)),
            None => None::<(DecodedModel, Option<nat>)>,
        },
        spec_decode_frame(flip_bit(f, q)) == match spec_decode_me(f) {
            Some(m) => Some((m, Some(q as nat))),
            None => None::<(DecodedModel, Option<nat>)>,
        },
{
    let g = flip_bit(f, q);
    lemma_flip_bit_at(f, q, 0);
    lemma_flip_outside_field(f, q, 0, 5);
    lemma_flip_outside_field(f, q, 8, 24);
    let c = spec_crc24(f);
    let sq = syndrome(q);
    lemma_run_flip(f, q, 112);
    assert(spec_crc24(g) == c ^ sq);
    lemma_syndrome(q);
    lemma_flip_facts(c, sq, 0, 0, 0, 0);
    assert(spec_crc24(g) != icao_field(g));
    assert(spec_crc24(g) != 0);
    lemma_first_repair_at(f, q, 0);
    assert(spec_repair(g) == Some(q as nat));
    lemma_flip_twice(f, q);
}

/// An aircraft-status (TC 28) extended squitter whose parity checks
/// reports the emergency state carried in the top three bits of its sixth
/// byte (ME bits 9-11), whatever its subtype bits hold, for the address in
/// bytes 2-4.
pub proof fn status_emergency_from_me_bits(raw: Seq<u8>)
    requires
        raw.len() == 14,
        raw[0] >> 3u8 == 17u8,
        raw[4] >> 3u8 == 28u8,
        spec_crc24(raw) == icao_field(raw) || spec_crc24(raw) == 0,
    ensures
        spec_decode_frame(raw) == Some(
            (
                DecodedModel::AircraftStatus {
                    icao24: icao_field(raw) as u32,
                    emergency_state: raw[5] >> 5u8,
                },
                None::<nat>,
            ),
        ),
{
    lemma_field_masks();
    lemma_byte_field(raw, 0, 0, 5);
    lemma_byte_word(raw[0]);
    lemma_byte_field(raw, 4, 0, 5);
    lemma_byte_word(raw[4]);
    lemma_byte_field(raw, 5, 0, 3);
    lemma_byte_word(raw[5]);
    assert(bits_value(raw, 0, 5) == 17);
    assert(bits_value(raw, 32, 5) == 28);
    assert(bits_value(raw, 40, 3) == (raw[5] >> 5u8) as nat);
}

/// A 56-bit all-call reply (DF11) whose CRC-24 remainder is zero or equals
/// its address decodes to an identity with that address, no callsign and
/// the capability bits of its first byte as category.
pub proof fn all_call_reply_decodes(raw: Seq<u8>)
    requires
        raw.len() == 7,
        raw[0] >> 3u8 == 11u8,
        spec_crc24(raw) == 0 || spec_crc24(raw) == icao_field(raw),
    ensures
        spec_decode_frame(raw) == Some(
            (
                DecodedModel::Identity {
                    icao24: icao_field(raw) as u32,
                    callsign: Seq::empty(),
                    category: raw[0] & 7u8,
                },
                None::<nat>,
            ),
        ),
{
    lemma_field_masks();
    lemma_byte_field(raw, 0, 0, 5);
    lemma_byte_field(raw, 0, 5, 3);
    lemma_byte_word(raw[0]);
    assert(bits_value(raw, 0, 5) == 11);
    assert(bits_value(raw, 5, 3) == (raw[0] & 7u8) as nat);
}

} // verus!
