//! Frame synthesis for the bench traffic generator: a deterministic
//! xorshift64* stream and wire-exact DF17 identity / aircraft-status frames
//! built through the production parity path.

use vstd::prelude::*;
use vstd::string::StringSliceAdditionalSpecFns;
use crate::mode_s::{append_df17_parity, char_to_callsign_index, spec_callsign_index, with_df17_parity};

verus! {

// ---------------------------------------------------------------------------
// Deterministic random stream
// ---------------------------------------------------------------------------

/// Deterministic xorshift64* stream, stable across platforms.
#[derive(Debug, Clone)]
pub struct Rng(u64);

impl View for Rng {
    type V = u64;

    closed spec fn view(&self) -> u64 {
        self.0
    }
}

/// One xorshift64 state transition (shifts 12, 25, 27).
pub open spec fn xorshift_next(x: u64) -> u64 {
    let a = x ^ (x >> 12u64);
    let b = a ^ (a << 25u64);
    b ^ (b >> 27u64)
}

/// Output scrambling multiplier of xorshift64*.
pub open spec fn xorshift_star_output(state: u64) -> u64 {
    ((state as nat * 0x2545_F491_4F6C_DD1Dnat) % 0x1_0000_0000_0000_0000nat) as u64
}

impl Rng {
    /// Seeds the stream; a zero seed (the one fixed point of xorshift) is
    /// replaced by one.
    pub fn new(seed: u64) -> (r: Self)
        ensures
            r@ == (if seed == 0 {
                1u64
            } else {
                seed
            }),
    {
        Rng(if seed == 0 {
            1
        } else {
            seed
        })
    }

    /// Advances the state and returns the scrambled output.
    pub fn next_u64(&mut self) -> (out: u64)
        ensures
            final(self)@ == xorshift_next(old(self)@),
            out == xorshift_star_output(xorshift_next(old(self)@)),
    {
        let mut x = self.0;
        x = x ^ (x >> 12u64);
        x = x ^ (x << 25u64);
        x = x ^ (x >> 27u64);
        self.0 = x;
        x.wrapping_mul(0x2545_F491_4F6C_DD1D)
    }
}

/// State of a generator seeded with `seed` after `n` draws.
pub open spec fn state_after(seed: u64, n: nat) -> u64
    decreases n,
{
    if n == 0 {
        if seed == 0 {
            1u64
        } else {
            seed
        }
    } else {
        xorshift_next(state_after(seed, (n - 1) as nat))
    }
}

/// Each xorshift step `x ^ (x >> k)` / `x ^ (x << k)` is invertible, so it
/// maps a non-zero word to a non-zero word.
proof fn lemma_xorshift_steps_nonzero(x: u64, a: u64, b: u64)
    by (bit_vector)
    ensures
        x != 0 ==> x ^ (x >> 12u64) != 0,
        a != 0 ==> a ^ (a << 25u64) != 0,
        b != 0 ==> b ^ (b >> 27u64) != 0,
{
}

/// The output multiplier is odd, hence invertible modulo 2^64: a non-zero
/// state never scrambles to zero.
proof fn lemma_output_nonzero(st: u64)
    requires
        st != 0,
    ensures
        xorshift_star_output(st) != 0,
{
    let s = st as int;
    let mm: int = 0x2545_F491_4F6C_DD1D;
    let m: int = 0x1_0000_0000_0000_0000;
    let inv: int = 0x5907_1d96_d81e_cd35;
    let kk: int = 934034299265436267;
    assert(mm * inv == kk * m + 1);
    let p = (s * mm) % m;
    if p == 0 {
        let q = (s * mm) / m;
        assert(s * mm == q * m) by {
            vstd::arithmetic::div_mod::lemma_fundamental_div_mod(s * mm, m);
        }
        assert(s * mm * inv == q * m * inv) by (nonlinear_arith)
            requires
                s * mm == q * m,
        ;
        assert(s * (mm * inv) == s * (kk * m + 1));
        assert(s * mm * inv == s * (mm * inv)) by (nonlinear_arith);
        assert(s * (kk * m + 1) == s * kk * m + s) by (nonlinear_arith);
        assert(q * m * inv == (q * inv) * m) by (nonlinear_arith);
        let t = q * inv - s * kk;
        assert(s == t * m) by (nonlinear_arith)
            requires
                s * kk * m + s == (q * inv) * m,
                t == q * inv - s * kk,
        ;
        assert(false) by (nonlinear_arith)
            requires
                s == t * m,
                0 < s < m,
                m > 0,
        ;
    }
}

/// A seeded generator never reaches the all-zero state and never returns
/// zero: every state from the seed on is non-zero and the `n`-th draw
/// (n >= 1), `xorshift_star_output(state_after(seed, n))`, is non-zero.
/// Seeds 0 and 1 give the same stream.
pub proof fn seeded_stream_never_zero(seed: u64, n: nat)
    ensures
        state_after(seed, n) != 0,
        n >= 1 ==> xorshift_star_output(state_after(seed, n)) != 0,
        state_after(0, n) == state_after(1, n),
    decreases n,
{
    if n > 0 {
        seeded_stream_never_zero(seed, (n - 1) as nat);
        let x = state_after(seed, (n - 1) as nat);
        let a = x ^ (x >> 12u64);
        let b = a ^ (a << 25u64);
        lemma_xorshift_steps_nonzero(x, a, b);
        lemma_output_nonzero(state_after(seed, n));
    }
}

// ---------------------------------------------------------------------------
// ME words
// ---------------------------------------------------------------------------

/// Callsign bytes cut or space-padded to exactly eight characters.
pub open spec fn padded_callsign(bytes: Seq<u8>) -> Seq<u8> {
    Seq::new(8, |i: int| if i < bytes.len() { bytes[i] } else { 32u8 })
}

/// The 48 character bits of an identification ME word for the first `k`
/// padded characters.
pub open spec fn pack_callsign(p: Seq<u8>, k: nat) -> u64
    decreases k,
{
    if k == 0 {
        0
    } else {
        pack_callsign(p, (k - 1) as nat) | (spec_callsign_index(p[k - 1]) << ((42 - 6 * (k - 1))
            as u64))
    }
}

/// ME word for TC 1-4 identification: TC[0..5] CAT[5..8] then eight 6-bit
/// characters.
pub open spec fn identity_me(tc: u64, category: u64, callsign: Seq<u8>) -> u64 {
    let t = if tc < 4 {
        tc
    } else {
        4u64
    };
    (t << 51u64) | ((category & 7u64) << 48u64) | pack_callsign(padded_callsign(callsign), 8)
}

/// ME word for TC 1-4 identification.
pub fn build_identity_me(tc: u64, category: u64, callsign: &str) -> (me: u64)
    ensures
        me == identity_me(tc, category, callsign.spec_bytes()),
{
    let bytes = callsign.as_bytes();
    let ghost p = padded_callsign(bytes@);
    let t = if tc < 4 {
        tc
    } else {
        4u64
    };
    let mut chars: u64 = 0;
    let mut i: usize = 0;
    while i < 8
        invariant
            i <= 8,
            p == padded_callsign(bytes@),
            chars == pack_callsign(p, i as nat),
        decreases 8 - i,
    {
        let b = if i < bytes.len() {
            bytes[i]
        } else {
            32u8
        };
        assert(b == p[i as int]);
        let idx = match char_to_callsign_index(b) {
            Some(v) => v,
            None => 0,
        };
        chars = chars | (idx << ((42 - 6 * i) as u64));
        i += 1;
    }
    (t << 51u64) | ((category & 7u64) << 48u64) | chars
}

/// ME word for TC 28 subtype 1 aircraft status (emergency states 0-7).
pub open spec fn status_me(emergency_state: u64) -> u64 {
    (28u64 << 51u64) | (1u64 << 48u64) | ((emergency_state & 7u64) << 45u64)
}

/// ME word for TC 28 subtype 1 aircraft status (emergency states 0-7).
pub fn build_status_me(emergency_state: u64) -> (me: u64)
    ensures
        me == status_me(emergency_state),
{
    (28u64 << 51u64) | (1u64 << 48u64) | ((emergency_state & 7u64) << 45u64)
}

pub open spec fn flag(b: bool) -> u64 {
    if b {
        1
    } else {
        0
    }
}

/// ME word for TC 11 airborne position (barometric) from its quantised
/// fields: the 12-bit altitude code, the CPR format bit, and the CPR
/// latitude and longitude counts (kept to 17 bits).
pub open spec fn position_me(alt_code: u16, odd: bool, lat_cpr: u64, lon_cpr: u64) -> u64 {
    (11u64 << 51u64) | ((alt_code as u64) << 36u64) | (flag(odd) << 34u64) | ((lat_cpr & 0x1FFFFu64)
        << 17u64) | (lon_cpr & 0x1FFFFu64)
}

/// ME word for TC 11 airborne position from its quantised fields.
pub fn pack_position_me(alt_code: u16, odd: bool, lat_cpr: u64, lon_cpr: u64) -> (me: u64)
    ensures
        me == position_me(alt_code, odd, lat_cpr, lon_cpr),
{
    let odd_bit: u64 = if odd {
        1
    } else {
        0
    };
    (11u64 << 51u64) | ((alt_code as u64) << 36u64) | (odd_bit << 34u64) | ((lat_cpr & 0x1FFFFu64)
        << 17u64) | (lon_cpr & 0x1FFFFu64)
}

/// A velocity magnitude as transmitted: one more than the rounded value,
/// kept within `lo..=hi`.
pub open spec fn offset_clamped(rounded: i64, lo: int, hi: int) -> u64 {
    let v = rounded + 1;
    if v < lo {
        lo as u64
    } else if v > hi {
        hi as u64
    } else {
        v as u64
    }
}

/// ME word for TC 19 subtype 1 (ground speed) velocity from the sign flags
/// and rounded magnitudes of the east-west and north-south components (kt)
/// and of the vertical rate (64 ft/min units).
pub open spec fn velocity_me(
    west: bool,
    ew_kt: i64,
    south: bool,
    ns_kt: i64,
    down: bool,
    vr_units: i64,
) -> u64 {
    (19u64 << 51u64) | (1u64 << 48u64) | (flag(west) << 42u64) | (offset_clamped(ew_kt, 1, 1023)
        << 32u64) | (flag(south) << 31u64) | (offset_clamped(ns_kt, 1, 1023) << 21u64) | (flag(
        down,
    ) << 19u64) | (offset_clamped(vr_units, 0, 511) << 10u64)
}

fn offset_clamp(rounded: i64, lo: i64, hi: i64) -> (v: u64)
    requires
        rounded < i64::MAX,
        0 <= lo <= hi,
    ensures
        v == offset_clamped(rounded, lo as int, hi as int),
{
    let v = rounded + 1;
    if v < lo {
        lo as u64
    } else if v > hi {
        hi as u64
    } else {
        v as u64
    }
}

/// ME word for TC 19 subtype 1 velocity from its signs and rounded
/// magnitudes.
pub fn pack_velocity_me(
    west: bool,
    ew_kt: i64,
    south: bool,
    ns_kt: i64,
    down: bool,
    vr_units: i64,
) -> (me: u64)
    requires
        ew_kt < i64::MAX,
        ns_kt < i64::MAX,
        vr_units < i64::MAX,
    ensures
        me == velocity_me(west, ew_kt, south, ns_kt, down, vr_units),
{
    let ew_raw = offset_clamp(ew_kt, 1, 1023);
    let ns_raw = offset_clamp(ns_kt, 1, 1023);
    let vr_raw = offset_clamp(vr_units, 0, 511);
    let w: u64 = if west {
        1
    } else {
        0
    };
    let s: u64 = if south {
        1
    } else {
        0
    };
    let d: u64 = if down {
        1
    } else {
        0
    };
    (19u64 << 51u64) | (1u64 << 48u64) | (w << 42u64) | (ew_raw << 32u64) | (s << 31u64) | (ns_raw
        << 21u64) | (d << 19u64) | (vr_raw << 10u64)
}

/// TC 11 airborne-position frame from quantised fields.
pub fn encode_position_frame(icao24: u32, alt_code: u16, odd: bool, lat_cpr: u64, lon_cpr: u64) -> (frame: Vec<u8>)
    ensures
        frame@ == df17_frame_spec(position_me(alt_code, odd, lat_cpr, lon_cpr), icao24),
{
    df17_frame(pack_position_me(alt_code, odd, lat_cpr, lon_cpr), icao24)
}

/// TC 19 velocity frame from signs and rounded magnitudes.
pub fn encode_velocity_frame(
    icao24: u32,
    west: bool,
    ew_kt: i64,
    south: bool,
    ns_kt: i64,
    down: bool,
    vr_units: i64,
) -> (frame: Vec<u8>)
    requires
        ew_kt < i64::MAX,
        ns_kt < i64::MAX,
        vr_units < i64::MAX,
    ensures
        frame@ == df17_frame_spec(velocity_me(west, ew_kt, south, ns_kt, down, vr_units), icao24),
{
    df17_frame(pack_velocity_me(west, ew_kt, south, ns_kt, down, vr_units), icao24)
}

// ---------------------------------------------------------------------------
// DF17 frames
// ---------------------------------------------------------------------------

/// The 11 payload bytes of a DF17 frame: DF=17/CA=5 header byte, the
/// 24-bit ICAO address, then the low 56 bits of the ME word, all big-endian.
pub open spec fn df17_payload(me: u64, icao24: u32) -> Seq<u8> {
    seq![
        0x8Du8,
        (icao24 >> 16u32) as u8,
        (icao24 >> 8u32) as u8,
        icao24 as u8,
        (me >> 48u64) as u8,
        (me >> 40u64) as u8,
        (me >> 32u64) as u8,
        (me >> 24u64) as u8,
        (me >> 16u64) as u8,
        (me >> 8u64) as u8,
        me as u8,
    ]
}

/// Complete DF17 frame for an ME word, with address parity.
pub open spec fn df17_frame_spec(me: u64, icao24: u32) -> Seq<u8> {
    with_df17_parity(df17_payload(me, icao24), icao24)
}

/// Builds a complete DF17 frame carrying `me` from `icao24`.
pub fn df17_frame(me: u64, icao24: u32) -> (frame: Vec<u8>)
    ensures
        frame@ == df17_frame_spec(me, icao24),
{
    let mut payload: Vec<u8> = Vec::new();
    payload.push(0x8D);
    payload.push((icao24 >> 16u32) as u8);
    payload.push((icao24 >> 8u32) as u8);
    payload.push(icao24 as u8);
    payload.push((me >> 48u64) as u8);
    payload.push((me >> 40u64) as u8);
    payload.push((me >> 32u64) as u8);
    payload.push((me >> 24u64) as u8);
    payload.push((me >> 16u64) as u8);
    payload.push((me >> 8u64) as u8);
    payload.push(me as u8);
    assert(payload@ =~= df17_payload(me, icao24));
    append_df17_parity(payload, icao24)
}

/// TC 4 / category 2 identification frame for `callsign`.
pub fn encode_identity_frame(icao24: u32, callsign: &str) -> (frame: Vec<u8>)
    ensures
        frame@ == df17_frame_spec(identity_me(4, 2, callsign.spec_bytes()), icao24),
{
    df17_frame(build_identity_me(4, 2, callsign), icao24)
}

/// TC 28 aircraft-status frame carrying `emergency_state`.
pub fn encode_status_frame(icao24: u32, emergency_state: u64) -> (frame: Vec<u8>)
    ensures
        frame@ == df17_frame_spec(status_me(emergency_state), icao24),
{
    df17_frame(build_status_me(emergency_state), icao24)
}

} // verus!
