//! VHF ACARS frame decoder for 131.550 MHz.
//!
//! Consumes demodulated byte streams and extracts uplink/downlink messages:
//! tail number, flight id, label, block sequence, message text and BCS
//! integrity. Weather-bearing messages are classified into D-ATIS and
//! METAR/SPECI reports.
//!
//! Frame grammar: `SOH MODE TAIL ACK LABEL BID [STX FLIGHT CR TEXT] ETX BCS`
//! where BCS is the big-endian CRC-16/CCITT-FALSE of `SOH..ETX`.

use vstd::prelude::*;
use vstd::utf8::encode_utf8;
use vstd::string::StringSliceAdditionalSpecFns;
use crate::text::{
    chars_of, char_is_numeric, contains_seq, find_chars, find_seq, is_numeric_char, lossy_chars,
    matches_at, starts_with, string_from_chars, to_uppercase, trim_ws, trimmed_string,
    bytes_as_chars, all_ascii, is_unicode_whitespace,
    upper_text, decode_lossy,
};

verus! {

pub const SOH: u8 = 0x01;
pub const STX: u8 = 0x02;
pub const ETX: u8 = 0x03;
pub const ETB: u8 = 0x17;
pub const BEL: u8 = 0x07;
pub const DLE: u8 = 0x10;

// ---------------------------------------------------------------------------
// CRC-16/CCITT-FALSE
// ---------------------------------------------------------------------------

/// Eight register shifts with the generator 0x1021 applied whenever the top
/// bit falls out.
pub open spec fn crc16_shift(crc: u16, k: nat) -> u16
    decreases k,
{
    if k == 0 {
        crc
    } else {
        let prev = crc16_shift(crc, (k - 1) as nat);
        if prev & 0x8000 != 0 {
            ((prev << 1u16) ^ 0x1021u16) as u16
        } else {
            (prev << 1u16) as u16
        }
    }
}

/// CRC-16/CCITT-FALSE (poly 0x1021, init 0xFFFF, no reflection, no final
/// xor) over the first `n` bytes of `data`.
pub open spec fn crc16_prefix(data: Seq<u8>, n: nat) -> u16
    decreases n,
{
    if n == 0 {
        0xFFFFu16
    } else {
        let prev = crc16_prefix(data, (n - 1) as nat);
        crc16_shift((prev ^ ((data[n - 1] as u16) << 8u16)) as u16, 8)
    }
}

pub open spec fn spec_crc16(data: Seq<u8>) -> u16 {
    crc16_prefix(data, data.len())
}

/// Register facts behind the zero-residue law: a value confined to the low
/// byte shifts out nothing for eight steps, and feeding the register its own
/// big-endian bytes clears it.
proof fn lemma_crc16_register_bits(x: u16, j: u16, c: u16)
    by (bit_vector)
    ensures
        (x & 0xFF00u16 == 0 && j < 8) ==> ((x << j) & 0x8000u16 == 0 && ((x << j) << 1u16) == x
            << ((j + 1) as u16)),
        c ^ ((((c >> 8u16) as u8) as u16) << 8u16) == c & 0xFFu16,
        (c & 0xFFu16) & 0xFF00u16 == 0,
        ((c & 0xFFu16) << 8u16) ^ (((c as u8) as u16) << 8u16) == 0,
        0u16 & 0x8000u16 == 0,
        (0u16 << 1u16) == 0u16,
        (x << 0u16) == x,
{
}

proof fn lemma_crc16_shift_low_byte(x: u16, k: nat)
    requires
        x & 0xFF00u16 == 0,
        k <= 8,
    ensures
        crc16_shift(x, k) == x << (k as u16),
    decreases k,
{
    if k == 0 {
        lemma_crc16_register_bits(x, 0, 0);
    } else {
        lemma_crc16_shift_low_byte(x, (k - 1) as nat);
        lemma_crc16_register_bits(x, (k - 1) as u16, 0);
        assert(((k - 1) as u16 + 1) as u16 == k as u16);
    }
}

proof fn lemma_crc16_shift_zero(k: nat)
    ensures
        crc16_shift(0u16, k) == 0u16,
    decreases k,
{
    lemma_crc16_register_bits(0, 0, 0);
    if k > 0 {
        lemma_crc16_shift_zero((k - 1) as nat);
    }
}

proof fn lemma_crc16_prefix_extend(data: Seq<u8>, more: Seq<u8>, n: nat)
    requires
        n <= data.len(),
    ensures
        crc16_prefix(data + more, n) == crc16_prefix(data, n),
    decreases n,
{
    if n > 0 {
        lemma_crc16_prefix_extend(data, more, (n - 1) as nat);
        assert((data + more)[n - 1] == data[n - 1]);
    }
}

/// The block check starts from the all-ones register (the CRC of no bytes
/// is 0xFFFF), and appending a block's CRC to it, high byte first, leaves a
/// zero remainder.
pub proof fn crc16_zero_residue(data: Seq<u8>)
    ensures
        spec_crc16(Seq::<u8>::empty()) == 0xFFFFu16,
        spec_crc16(data + seq![(spec_crc16(data) >> 8u16) as u8, spec_crc16(data) as u8]) == 0u16,
{
    let c = spec_crc16(data);
    let hi = (c >> 8u16) as u8;
    let lo = c as u8;
    let d = data + seq![hi, lo];
    let n = data.len();
    assert(d.len() == n + 2);
    lemma_crc16_prefix_extend(data, seq![hi, lo], n);
    assert(crc16_prefix(d, n) == c);
    assert(d[n as int] == hi && d[n as int + 1] == lo);
    lemma_crc16_register_bits(0, 0, c);
    let low = c & 0xFFu16;
    assert((c ^ ((hi as u16) << 8u16)) as u16 == low);
    lemma_crc16_shift_low_byte(low, 8);
    let r1 = crc16_prefix(d, n + 1);
    assert(r1 == low << 8u16);
    assert((r1 ^ ((lo as u16) << 8u16)) as u16 == 0u16);
    lemma_crc16_shift_zero(8);
    assert(crc16_prefix(d, n + 2) == 0u16);
}

/// CRC-16/CCITT-FALSE used for the ACARS block check sequence.
pub fn crc16_ccitt(data: &[u8]) -> (crc: u16)
    ensures
        crc == spec_crc16(data@),
{
    let mut crc: u16 = 0xFFFF;
    let mut i: usize = 0;
    while i < data.len()
        invariant
            i <= data.len(),
            crc == crc16_prefix(data@, i as nat),
        decreases data.len() - i,
    {
        crc = crc ^ ((data[i] as u16) << 8u16);
        let ghost start = crc;
        let mut k: usize = 0;
        while k < 8
            invariant
                k <= 8,
                crc == crc16_shift(start, k as nat),
            decreases 8 - k,
        {
            crc = if crc & 0x8000 != 0 {
                (crc << 1u16) ^ 0x1021
            } else {
                crc << 1u16
            };
            k += 1;
        }
        i += 1;
    }
    crc
}

// ---------------------------------------------------------------------------
// Messages
// ---------------------------------------------------------------------------

#[derive(Debug, Clone, PartialEq)]
pub struct AcarsMessage {
    pub mode: char,
    pub aircraft_tail: String,
    pub ack: char,
    pub label: String,
    pub block_id: char,
    /// True when the message came from an aircraft (downlink): its payload
    /// opens with the flight id ended by CR/LF. Uplinks carry no such line.
    pub downlink: bool,
    pub flight_id: String,
    pub text: String,
    pub crc_valid: bool,
    /// Milliseconds since UNIX epoch of reception.
    pub received_ms: u64,
}

/// Mathematical value of a message: its strings as character sequences.
pub struct AcarsModel {
    pub mode: char,
    pub aircraft_tail: Seq<char>,
    pub ack: char,
    pub label: Seq<char>,
    pub block_id: char,
    pub downlink: bool,
    pub flight_id: Seq<char>,
    pub text: Seq<char>,
    pub crc_valid: bool,
    pub received_ms: u64,
}

impl View for AcarsMessage {
    type V = AcarsModel;

    open spec fn view(&self) -> AcarsModel {
        AcarsModel {
            mode: self.mode,
            aircraft_tail: self.aircraft_tail@,
            ack: self.ack,
            label: self.label@,
            block_id: self.block_id,
            downlink: self.downlink,
            flight_id: self.flight_id@,
            text: self.text@,
            crc_valid: self.crc_valid,
            received_ms: self.received_ms,
        }
    }
}

// ---------------------------------------------------------------------------
// Byte classes and searches
// ---------------------------------------------------------------------------

pub open spec fn is_ascii_graphic(b: u8) -> bool {
    0x21 <= b && b <= 0x7E
}

pub open spec fn is_ascii_alphanumeric(b: u8) -> bool {
    (0x30 <= b && b <= 0x39) || (0x41 <= b && b <= 0x5A) || (0x61 <= b && b <= 0x7A)
}

/// Bytes kept in the tail (registration) field.
pub open spec fn is_tail_byte(b: u8) -> bool {
    is_ascii_alphanumeric(b) || b == 0x2E
}

pub open spec fn is_terminator(b: u8) -> bool {
    b == ETX || b == ETB
}

pub open spec fn is_line_break(b: u8) -> bool {
    b == 0x0D || b == 0x0A
}

/// First index at or after `from` holding `target`.
pub open spec fn first_byte(s: Seq<u8>, from: int, target: u8) -> Option<int>
    decreases s.len() - from,
{
    if from < 0 || from >= s.len() {
        None
    } else if s[from] == target {
        Some(from)
    } else {
        first_byte(s, from + 1, target)
    }
}

/// First index at or after `from` holding a frame terminator (ETX or ETB).
pub open spec fn first_terminator(s: Seq<u8>, from: int) -> Option<int>
    decreases s.len() - from,
{
    if from < 0 || from >= s.len() {
        None
    } else if is_terminator(s[from]) {
        Some(from)
    } else {
        first_terminator(s, from + 1)
    }
}

/// First index at or after `from` holding CR or LF.
pub open spec fn first_line_break(s: Seq<u8>, from: int) -> Option<int>
    decreases s.len() - from,
{
    if from < 0 || from >= s.len() {
        None
    } else if is_line_break(s[from]) {
        Some(from)
    } else {
        first_line_break(s, from + 1)
    }
}

fn find_byte(s: &[u8], from: usize, target: u8) -> (r: Option<usize>)
    ensures
        r matches Some(i) ==> first_byte(s@, from as int, target) == Some(i as int),
        r is None ==> first_byte(s@, from as int, target) is None,
{
    let mut i = from;
    while i < s.len()
        invariant
            from <= i,
            first_byte(s@, from as int, target) == first_byte(s@, i as int, target),
        decreases s.len() - i,
    {
        if s[i] == target {
            return Some(i);
        }
        i += 1;
    }
    None
}

fn locate_terminator(s: &[u8], from: usize) -> (r: Option<usize>)
    ensures
        r matches Some(i) ==> first_terminator(s@, from as int) == Some(i as int),
        r is None ==> first_terminator(s@, from as int) is None,
{
    let mut i = from;
    while i < s.len()
        invariant
            from <= i,
            first_terminator(s@, from as int) == first_terminator(s@, i as int),
        decreases s.len() - i,
    {
        if s[i] == ETX || s[i] == ETB {
            return Some(i);
        }
        i += 1;
    }
    None
}

fn find_line_break(s: &[u8]) -> (r: Option<usize>)
    ensures
        r matches Some(i) ==> first_line_break(s@, 0) == Some(i as int),
        r is None ==> first_line_break(s@, 0) is None,
{
    let mut i: usize = 0;
    while i < s.len()
        invariant
            first_line_break(s@, 0) == first_line_break(s@, i as int),
        decreases s.len() - i,
    {
        if s[i] == 0x0D || s[i] == 0x0A {
            return Some(i);
        }
        i += 1;
    }
    None
}

/// End of the tail field: the first index from 2 holding a non-graphic
/// byte, capped at 10.
pub open spec fn addr_end_from(frame: Seq<u8>, i: int) -> int
    decreases 10 - i,
{
    if i >= 10 || i >= frame.len() || !is_ascii_graphic(frame[i]) {
        i
    } else {
        addr_end_from(frame, i + 1)
    }
}

pub open spec fn addr_end(frame: Seq<u8>) -> int {
    addr_end_from(frame, 2)
}

/// Tail bytes in order (alphanumerics and '.').
pub open spec fn keep_tail_bytes(s: Seq<u8>) -> Seq<u8>
    decreases s.len(),
{
    if s.len() == 0 {
        s
    } else if is_tail_byte(s.last()) {
        keep_tail_bytes(s.drop_last()).push(s.last())
    } else {
        keep_tail_bytes(s.drop_last())
    }
}

/// Label characters with DEL, U+0081, U+0082 and '@' shown as '-'.
pub open spec fn relabel_char(c: char) -> char {
    if c == '\u{7F}' || c == '\u{81}' || c == '\u{82}' || c == '@' {
        '-'
    } else {
        c
    }
}

pub open spec fn relabel(s: Seq<char>) -> Seq<char> {
    Seq::new(s.len(), |i: int| relabel_char(s[i]))
}

/// Printable bytes (graphic, space, LF, CR) pass through; anything else is
/// shown as a middle dot.
pub open spec fn sanitize_char(b: u8) -> char {
    if is_ascii_graphic(b) || b == 0x20 || b == 0x0A || b == 0x0D {
        b as char
    } else {
        '\u{B7}'
    }
}

/// Sanitised characters with carriage returns removed.
pub open spec fn sanitize_chars(raw: Seq<u8>) -> Seq<char>
    decreases raw.len(),
{
    if raw.len() == 0 {
        Seq::empty()
    } else if raw.last() == 0x0D {
        sanitize_chars(raw.drop_last())
    } else {
        sanitize_chars(raw.drop_last()).push(sanitize_char(raw.last()))
    }
}

/// Message text: sanitised, CRs removed, whitespace-trimmed.
pub open spec fn spec_sanitize_text(raw: Seq<u8>) -> Seq<char> {
    trim_ws(sanitize_chars(raw))
}

fn sanitize_text(raw: &[u8]) -> (s: String)
    ensures
        s@ == spec_sanitize_text(raw@),
{
    let mut cs: Vec<char> = Vec::new();
    let mut i: usize = 0;
    while i < raw.len()
        invariant
            i <= raw@.len(),
            cs@ == sanitize_chars(raw@.subrange(0, i as int)),
        decreases raw.len() - i,
    {
        let b = raw[i];
        let pre = Ghost(raw@.subrange(0, i + 1));
        assert(pre@.drop_last() =~= raw@.subrange(0, i as int));
        if b != 0x0D {
            let c = if (0x21 <= b && b <= 0x7E) || b == 0x20 || b == 0x0A || b == 0x0D {
                b as char
            } else {
                '\u{B7}'
            };
            cs.push(c);
        }
        i += 1;
    }
    assert(raw@.subrange(0, raw@.len() as int) =~= raw@);
    trimmed_string(cs.as_slice())
}

// ---------------------------------------------------------------------------
// Frame parsing
// ---------------------------------------------------------------------------

/// Direction, flight id and text carried between STX and the terminator.
/// A downlink (a message from an aircraft) opens its payload with the
/// flight id ended by CR/LF; a payload without a line break is read as an
/// uplink (such as a ground station's D-ATIS broadcast). A downlink whose
/// encoder left out the CR cannot be told apart from one by its bytes; in
/// either case the first 4 bytes are read as a fixed field.
pub open spec fn spec_payload_fields(payload: Seq<u8>) -> (bool, Seq<char>, Seq<char>) {
    match first_line_break(payload, 0) {
        Some(cr) => (
            true,
            trim_ws(decode_lossy(payload.subrange(0, cr))),
            spec_sanitize_text(payload.subrange(cr + 1, payload.len() as int)),
        ),
        None => {
            let k = if payload.len() < 4 {
                payload.len() as int
            } else {
                4
            };
            (
                false,
                trim_ws(decode_lossy(payload.subrange(0, k))),
                spec_sanitize_text(payload.subrange(k, payload.len() as int)),
            )
        },
    }
}

/// The decoder's reading of the addressing part of a frame succeeds.
pub open spec fn header_parses(frame: Seq<u8>) -> bool {
    &&& frame.len() >= 12
    &&& frame[0] == SOH
    &&& keep_tail_bytes(frame.subrange(2, addr_end(frame))).len() > 0
    &&& addr_end(frame) + 4 < frame.len()
}

/// A frame whose header parses and whose first STX lies inside the block
/// check sequence: the decoder cannot slice a payload out of it.
pub open spec fn frame_unparseable(frame: Seq<u8>) -> bool {
    &&& header_parses(frame)
    &&& first_byte(frame, 0, STX) matches Some(stx)
    &&& stx >= frame.len() - 2
}

/// What `parse_frame` yields for one SOH-delimited frame.
pub open spec fn spec_parse_frame(frame: Seq<u8>, now_ms: u64) -> Option<AcarsModel> {
    if !header_parses(frame) {
        None
    } else {
        let body_end = frame.len() - 2;
        let ae = addr_end(frame);
        let after = ae + 1;
        let (downlink, flight_id, text) = match first_byte(frame, 0, STX) {
            Some(stx) => spec_payload_fields(frame.subrange(stx + 1, body_end - 1)),
            None => (false, Seq::empty(), Seq::empty()),
        };
        Some(
            AcarsModel {
                mode: frame[1] as char,
                aircraft_tail: decode_lossy(keep_tail_bytes(frame.subrange(2, ae))),
                ack: frame[ae] as char,
                label: trim_ws(relabel(decode_lossy(frame.subrange(after, after + 2)))),
                block_id: frame[after + 2] as char,
                downlink,
                flight_id,
                text,
                crc_valid: (frame[body_end] as nat) * 256 + (frame[body_end + 1] as nat)
                    == spec_crc16(frame.subrange(0, body_end)) as nat,
                received_ms: now_ms,
            },
        )
    }
}

fn slice_copy(s: &[u8], from: usize, to: usize) -> (v: Vec<u8>)
    requires
        from <= to <= s@.len(),
    ensures
        v@ == s@.subrange(from as int, to as int),
{
    let mut v: Vec<u8> = Vec::new();
    let mut i = from;
    while i < to
        invariant
            from <= i <= to <= s@.len(),
            v@ == s@.subrange(from as int, i as int),
        decreases to - i,
    {
        v.push(s[i]);
        assert(v@ =~= s@.subrange(from as int, i + 1));
        i += 1;
    }
    v
}

fn find_addr_end(frame: &[u8]) -> (ae: usize)
    requires
        frame@.len() >= 12,
    ensures
        ae as int == addr_end(frame@),
        2 <= ae <= 10,
{
    let mut i: usize = 2;
    while i < 10 && 0x21 <= frame[i] && frame[i] <= 0x7E
        invariant
            2 <= i <= 10,
            frame@.len() >= 12,
            addr_end_from(frame@, 2) == addr_end_from(frame@, i as int),
        decreases 10 - i,
    {
        i += 1;
    }
    i
}

fn tail_bytes(frame: &[u8], ae: usize) -> (v: Vec<u8>)
    requires
        2 <= ae <= frame@.len(),
    ensures
        v@ == keep_tail_bytes(frame@.subrange(2, ae as int)),
{
    let mut v: Vec<u8> = Vec::new();
    let mut i: usize = 2;
    while i < ae
        invariant
            2 <= i <= ae <= frame@.len(),
            v@ == keep_tail_bytes(frame@.subrange(2, i as int)),
        decreases ae - i,
    {
        let b = frame[i];
        assert(frame@.subrange(2, i + 1).drop_last() =~= frame@.subrange(2, i as int));
        if (0x30 <= b && b <= 0x39) || (0x41 <= b && b <= 0x5A) || (0x61 <= b && b <= 0x7A) || b
            == 0x2E {
            v.push(b);
        }
        i += 1;
    }
    v
}

fn relabel_chars(cs: Vec<char>) -> (r: Vec<char>)
    ensures
        r@ == relabel(cs@),
{
    let mut r: Vec<char> = Vec::new();
    let mut i: usize = 0;
    while i < cs.len()
        invariant
            i <= cs@.len(),
            r@ == relabel(cs@.subrange(0, i as int)),
        decreases cs.len() - i,
    {
        let c = cs[i];
        let d = if c == '\u{7F}' || c == '\u{81}' || c == '\u{82}' || c == '@' {
            '-'
        } else {
            c
        };
        r.push(d);
        assert(r@ =~= relabel(cs@.subrange(0, i + 1)));
        i += 1;
    }
    assert(cs@.subrange(0, cs@.len() as int) =~= cs@);
    r
}

proof fn lemma_first_line_break_bounds(s: Seq<u8>, from: int)
    ensures
        first_line_break(s, from) matches Some(i) ==> from <= i < s.len(),
    decreases s.len() - from,
{
    if 0 <= from < s.len() && !is_line_break(s[from]) {
        lemma_first_line_break_bounds(s, from + 1);
    }
}

fn payload_fields(payload: &[u8]) -> (r: (bool, String, String))
    ensures
        (r.0, r.1@, r.2@) == spec_payload_fields(payload@),
{
    proof {
        lemma_first_line_break_bounds(payload@, 0);
    }
    match find_line_break(payload) {
        Some(cr) => {
            assert(cr < payload@.len());
            let head = slice_copy(payload, 0, cr);
            let n = payload.len();
            let tail = slice_copy(payload, cr + 1, n);
            let flight = trimmed_string(lossy_chars(head.as_slice()).as_slice());
            let text = sanitize_text(tail.as_slice());
            (true, flight, text)
        },
        None => {
            let k = if payload.len() < 4 {
                payload.len()
            } else {
                4
            };
            let head = slice_copy(payload, 0, k);
            let tail = slice_copy(payload, k, payload.len());
            let flight = trimmed_string(lossy_chars(head.as_slice()).as_slice());
            let text = sanitize_text(tail.as_slice());
            (false, flight, text)
        },
    }
}

fn parse_frame(frame: &[u8], now_ms: u64) -> (r: Option<AcarsMessage>)
    requires
        !frame_unparseable(frame@),
        frame@.len() >= 3 ==> is_terminator(frame@[frame@.len() - 3]),
    ensures
        r matches Some(m) ==> spec_parse_frame(frame@, now_ms) == Some(m@),
        r is None ==> spec_parse_frame(frame@, now_ms) is None,
{
    if frame.len() < 12 || frame[0] != SOH {
        return None;
    }
    let body_end = frame.len() - 2;
    let body = slice_copy(frame, 0, body_end);
    let stored_crc = (frame[body_end] as u16) * 256 + (frame[body_end + 1] as u16);
    let computed = crc16_ccitt(body.as_slice());

    let mode = frame[1] as char;
    let ae = find_addr_end(frame);
    let addr_bytes = tail_bytes(frame, ae);
    if addr_bytes.len() == 0 {
        return None;
    }
    let after_addr = ae + 1;
    if after_addr + 3 >= frame.len() {
        return None;
    }
    let label_bytes = slice_copy(frame, after_addr, after_addr + 2);
    let label_chars = relabel_chars(lossy_chars(label_bytes.as_slice()));
    let label = trimmed_string(label_chars.as_slice());
    let block_id = frame[after_addr + 2] as char;

    proof {
        lemma_first_byte_bounds(frame@, 0, STX);
    }
    let (downlink, flight_id, text) = match find_byte(frame, 0, STX) {
        Some(stx) => {
            assert(stx + 1 <= body_end - 1);
            let payload = slice_copy(frame, stx + 1, body_end - 1);
            payload_fields(payload.as_slice())
        },
        None => (false, String::new(), String::new()),
    };
    let tail_chars = lossy_chars(addr_bytes.as_slice());
    let aircraft_tail = string_from_chars(tail_chars.as_slice(), 0, tail_chars.len());
    assert(tail_chars@.subrange(0, tail_chars@.len() as int) =~= tail_chars@);
    Some(
        AcarsMessage {
            mode,
            aircraft_tail,
            ack: frame[ae] as char,
            label,
            block_id,
            downlink,
            flight_id,
            text,
            crc_valid: stored_crc == computed,
            received_ms: now_ms,
        },
    )
}

// ---------------------------------------------------------------------------
// Stream scanning
// ---------------------------------------------------------------------------

/// Messages found from `cursor` on: each SOH opens a frame running to the
/// first ETX/ETB plus the two BCS bytes; frames that do not parse are
/// skipped, and scanning stops at the first frame that is cut short.
pub open spec fn stream_messages(buf: Seq<u8>, cursor: int, now_ms: u64) -> Seq<AcarsModel>
    decreases buf.len() - cursor,
{
    if cursor < 0 || cursor > buf.len() {
        Seq::empty()
    } else {
        match first_byte(buf, cursor, SOH) {
            None => Seq::empty(),
            Some(start) => match first_terminator(buf, start) {
                Some(t) => if t + 3 <= buf.len() && t + 3 > cursor {
                    let rest = stream_messages(buf, t + 3, now_ms);
                    match spec_parse_frame(buf.subrange(start, t + 3), now_ms) {
                        Some(m) => seq![m] + rest,
                        None => rest,
                    }
                } else {
                    Seq::empty()
                },
                None => Seq::empty(),
            },
        }
    }
}

/// Every frame the scanner would cut out of `buf` from `cursor` on can be
/// decoded without slicing past its body.
pub open spec fn stream_decodable(buf: Seq<u8>, cursor: int) -> bool
    decreases buf.len() - cursor,
{
    if cursor < 0 || cursor > buf.len() {
        true
    } else {
        match first_byte(buf, cursor, SOH) {
            None => true,
            Some(start) => match first_terminator(buf, start) {
                Some(t) => if t + 3 <= buf.len() && t + 3 > cursor {
                    !frame_unparseable(buf.subrange(start, t + 3)) && stream_decodable(buf, t + 3)
                } else {
                    true
                },
                None => true,
            },
        }
    }
}

proof fn lemma_first_byte_bounds(s: Seq<u8>, from: int, target: u8)
    ensures
        first_byte(s, from, target) matches Some(i) ==> from <= i < s.len() && s[i] == target,
    decreases s.len() - from,
{
    if 0 <= from < s.len() && s[from] != target {
        lemma_first_byte_bounds(s, from + 1, target);
    }
}

proof fn lemma_first_terminator_bounds(s: Seq<u8>, from: int)
    ensures
        first_terminator(s, from) matches Some(i) ==> from <= i < s.len() && is_terminator(s[i]),
    decreases s.len() - from,
{
    if 0 <= from < s.len() && !is_terminator(s[from]) {
        lemma_first_terminator_bounds(s, from + 1);
    }
}

fn frame_is_unparseable(frame: &[u8]) -> (b: bool)
    ensures
        b == frame_unparseable(frame@),
{
    if frame.len() < 12 || frame[0] != SOH {
        return false;
    }
    let ae = find_addr_end(frame);
    let tail = tail_bytes(frame, ae);
    if tail.len() == 0 || ae + 4 >= frame.len() {
        return false;
    }
    proof {
        lemma_first_byte_bounds(frame@, 0, STX);
    }
    match find_byte(frame, 0, STX) {
        Some(stx) => stx >= frame.len() - 2,
        None => false,
    }
}

/// Whether every frame `parse_stream` would cut out of `buffer` can be
/// decoded (none has its first STX inside the block check sequence).
pub fn stream_is_decodable(buffer: &[u8]) -> (b: bool)
    ensures
        b == stream_decodable(buffer@, 0),
{
    let mut cursor: usize = 0;
    loop
        invariant
            cursor <= buffer@.len(),
            stream_decodable(buffer@, 0) == stream_decodable(buffer@, cursor as int),
        decreases buffer@.len() - cursor,
    {
        proof {
            lemma_first_byte_bounds(buffer@, cursor as int, SOH);
        }
        let found = find_byte(buffer, cursor, SOH);
        if found.is_none() {
            return true;
        }
        let start = found.unwrap();
        proof {
            lemma_first_terminator_bounds(buffer@, start as int);
        }
        let term = locate_terminator(buffer, start);
        if term.is_none() {
            return true;
        }
        let t = term.unwrap();
        if buffer.len() < 3 || t > buffer.len() - 3 {
            return true;
        }
        let end = t + 3;
        let frame = slice_copy(buffer, start, end);
        if frame_is_unparseable(frame.as_slice()) {
            return false;
        }
        cursor = end;
    }
}

pub open spec fn views(msgs: Seq<AcarsMessage>) -> Seq<AcarsModel> {
    msgs.map_values(|m: AcarsMessage| m@)
}

/// Scans a demodulated byte buffer and yields every complete ACARS frame
/// found between SOH markers, tolerating inter-frame noise.
pub fn parse_stream(buffer: &[u8], now_ms: u64) -> (msgs: Vec<AcarsMessage>)
    requires
        stream_decodable(buffer@, 0),
    ensures
        views(msgs@) == stream_messages(buffer@, 0, now_ms),
{
    let mut messages: Vec<AcarsMessage> = Vec::new();
    let mut cursor: usize = 0;
    loop
        invariant
            cursor <= buffer@.len(),
            stream_decodable(buffer@, cursor as int),
            stream_messages(buffer@, 0, now_ms) == views(messages@) + stream_messages(
                buffer@,
                cursor as int,
                now_ms,
            ),
        ensures
            views(messages@) == stream_messages(buffer@, 0, now_ms),
        decreases buffer@.len() - cursor,
    {
        proof {
            lemma_first_byte_bounds(buffer@, cursor as int, SOH);
        }
        let found = find_byte(buffer, cursor, SOH);
        if found.is_none() {
            assert(stream_messages(buffer@, cursor as int, now_ms) =~= Seq::<AcarsModel>::empty());
            assert(views(messages@) + Seq::<AcarsModel>::empty() =~= views(messages@));
            break;
        }
        let start = found.unwrap();
        proof {
            lemma_first_terminator_bounds(buffer@, start as int);
        }
        let term = locate_terminator(buffer, start);
        if term.is_none() {
            assert(stream_messages(buffer@, cursor as int, now_ms) =~= Seq::<AcarsModel>::empty());
            assert(views(messages@) + Seq::<AcarsModel>::empty() =~= views(messages@));
            break;
        }
        let t = term.unwrap();
        if buffer.len() < 3 || t > buffer.len() - 3 {
            assert(stream_messages(buffer@, cursor as int, now_ms) =~= Seq::<AcarsModel>::empty());
            assert(views(messages@) + Seq::<AcarsModel>::empty() =~= views(messages@));
            break;
        }
        let end = t + 3;
        let frame = slice_copy(buffer, start, end);
        assert(frame@[frame@.len() - 3] == buffer@[t as int]);
        let ghost before = views(messages@);
        let ghost rest = stream_messages(buffer@, end as int, now_ms);
        match parse_frame(frame.as_slice(), now_ms) {
            Some(msg) => {
                messages.push(msg);
                proof {
                    assert(views(messages@) =~= before.push(msg@));
                    assert(before + (seq![msg@] + rest) =~= before.push(msg@) + rest);
                }
            },
            None => {},
        }
        cursor = end;
    }
    messages
}

// ---------------------------------------------------------------------------
// Weather classification
// ---------------------------------------------------------------------------

/// Classification applied by `classify_weather`.
#[derive(Debug, Clone, PartialEq)]
pub enum WeatherProduct {
    Metar(String),
    Speci(String),
    Datis { station: Option<char>, info_letter: char, body: String },
    Other,
}

pub enum WeatherModel {
    Metar(Seq<char>),
    Speci(Seq<char>),
    Datis { station: Option<char>, info_letter: char, body: Seq<char> },
    Other,
}

impl View for WeatherProduct {
    type V = WeatherModel;

    open spec fn view(&self) -> WeatherModel {
        match self {
            WeatherProduct::Metar(t) => WeatherModel::Metar(t@),
            WeatherProduct::Speci(t) => WeatherModel::Speci(t@),
            WeatherProduct::Datis { station, info_letter, body } => WeatherModel::Datis {
                station: *station,
                info_letter: *info_letter,
                body: body@,
            },
            WeatherProduct::Other => WeatherModel::Other,
        }
    }
}

pub open spec fn word_speci() -> Seq<char> {
    seq!['S', 'P', 'E', 'C', 'I']
}

pub open spec fn word_metar() -> Seq<char> {
    seq!['M', 'E', 'T', 'A', 'R']
}

pub open spec fn word_atis() -> Seq<char> {
    seq!['A', 'T', 'I', 'S']
}

pub open spec fn word_sa() -> Seq<char> {
    seq!['S', 'A', ' ']
}

pub open spec fn word_saxxx() -> Seq<char> {
    seq!['S', 'A', 'X', 'X', 'X']
}

pub open spec fn word_info() -> Seq<char> {
    seq!['I', 'N', 'F', 'O', ' ']
}

pub open spec fn word_information() -> Seq<char> {
    seq!['I', 'N', 'F', 'O', 'R', 'M', 'A', 'T', 'I', 'O', 'N', ' ']
}

/// Labels that carry D-ATIS: A7, A6, A5, AT, or any label containing 'A'.
pub open spec fn is_datis_label(label: Seq<char>) -> bool {
    label == seq!['A', '7'] || label == seq!['A', '6'] || label == seq!['A', '5'] || label
        == seq!['A', 'T'] || label.contains('A')
}

/// Number of characters for which `char::is_numeric` holds.
pub open spec fn count_numeric(s: Seq<char>) -> nat
    decreases s.len(),
{
    if s.len() == 0 {
        0
    } else {
        count_numeric(s.drop_last()) + if is_numeric_char(s.last()) {
            1nat
        } else {
            0nat
        }
    }
}

/// "DNKN INFO B 1256Z ..." style openings: more than 20 bytes with at
/// least four numeric characters.
pub open spec fn looks_like_datis(upper: Seq<char>) -> bool {
    encode_utf8(upper).len() > 20 && count_numeric(upper) >= 4
}

pub open spec fn is_ascii_uppercase_char(c: char) -> bool {
    'A' <= c && c <= 'Z'
}

/// The uppercase letter right after the first `kw`, if there is one.
pub open spec fn letter_after(text: Seq<char>, kw: Seq<char>) -> Option<char> {
    match find_seq(text, kw) {
        Some(at) => if at + kw.len() < text.len() && is_ascii_uppercase_char(
            text[at + kw.len()],
        ) {
            Some(text[at + kw.len()])
        } else {
            None
        },
        None => None,
    }
}

/// ATIS information letter following "INFO " or "INFORMATION ", else '?'.
pub open spec fn info_letter(upper: Seq<char>) -> char {
    match letter_after(upper, word_info()) {
        Some(c) => c,
        None => match letter_after(upper, word_information()) {
            Some(c) => c,
            None => '?',
        },
    }
}

/// `text` with every leading "SA " removed.
pub open spec fn strip_sa(text: Seq<char>) -> Seq<char>
    decreases text.len(),
{
    if text.len() >= 3 && starts_with(text, word_sa()) {
        strip_sa(text.subrange(3, text.len() as int))
    } else {
        text
    }
}

/// Weather product carried by a message.
pub open spec fn spec_classify(msg: AcarsModel) -> WeatherModel {
    let text = msg.text;
    let upper = upper_text(text);
    if starts_with(upper, word_speci()) {
        WeatherModel::Speci(text)
    } else if starts_with(upper, word_metar()) {
        WeatherModel::Metar(text)
    } else if is_datis_label(msg.label) && (contains_seq(upper, word_atis()) || looks_like_datis(
        upper,
    )) {
        WeatherModel::Datis {
            station: if text.len() > 0 {
                Some(text[0])
            } else {
                None
            },
            info_letter: info_letter(upper),
            body: text,
        }
    } else if starts_with(upper, word_sa()) || starts_with(upper, word_saxxx()) {
        WeatherModel::Metar(strip_sa(text))
    } else {
        WeatherModel::Other
    }
}

fn count_numeric_chars(cs: &[char]) -> (n: usize)
    ensures
        n == count_numeric(cs@),
{
    let mut n: usize = 0;
    let mut i: usize = 0;
    while i < cs.len()
        invariant
            i <= cs@.len(),
            n == count_numeric(cs@.subrange(0, i as int)),
            n <= i,
        decreases cs.len() - i,
    {
        assert(cs@.subrange(0, i + 1).drop_last() =~= cs@.subrange(0, i as int));
        if char_is_numeric(cs[i]) {
            n += 1;
        }
        i += 1;
    }
    assert(cs@.subrange(0, cs@.len() as int) =~= cs@);
    n
}

fn letter_after_keyword(text: &[char], kw: &[char]) -> (r: Option<char>)
    ensures
        r == letter_after(text@, kw@),
{
    match find_chars(text, kw) {
        Some(at) => {
            if at < text.len() && kw.len() < text.len() - at {
                let c = text[at + kw.len()];
                if 'A' <= c && c <= 'Z' {
                    return Some(c);
                }
            }
            None
        },
        None => None,
    }
}

fn contains_char(cs: &[char], c: char) -> (b: bool)
    ensures
        b == cs@.contains(c),
{
    let mut i: usize = 0;
    while i < cs.len()
        invariant
            i <= cs@.len(),
            forall|j: int| 0 <= j < i ==> cs@[j] != c,
        decreases cs.len() - i,
    {
        if cs[i] == c {
            assert(cs@[i as int] == c);
            return true;
        }
        i += 1;
    }
    false
}

fn strip_sa_prefix(text: &[char]) -> (r: String)
    ensures
        r@ == strip_sa(text@),
{
    let sa = vec!['S', 'A', ' '];
    assert(sa@ =~= word_sa());
    let mut k: usize = 0;
    assert(text@.subrange(0, text@.len() as int) =~= text@);
    while k <= text.len() && text.len() - k >= 3 && matches_at(text, sa.as_slice(), k)
        invariant
            k <= text@.len(),
            strip_sa(text@) == strip_sa(text@.subrange(k as int, text@.len() as int)),
            sa@ == word_sa(),
        decreases text.len() - k,
    {
        proof {
            let rest = text@.subrange(k as int, text@.len() as int);
            assert(rest.subrange(0, 3) =~= text@.subrange(k as int, k + 3));
            assert(starts_with(rest, word_sa()));
            assert(rest.subrange(3, rest.len() as int) =~= text@.subrange(k + 3, text@.len() as int));
        }
        k += 3;
    }
    proof {
        let rest = text@.subrange(k as int, text@.len() as int);
        if rest.len() >= 3 && starts_with(rest, word_sa()) {
            assert(rest.subrange(0, 3) =~= text@.subrange(k as int, k + 3));
            assert(false);
        }
    }
    string_from_chars(text, k, text.len())
}

fn is_datis_label_chars(label: &[char]) -> (b: bool)
    ensures
        b == is_datis_label(label@),
{
    let two = label.len() == 2;
    let listed = two && label[0] == 'A' && (label[1] == '7' || label[1] == '6' || label[1] == '5'
        || label[1] == 'T');
    let has_a = contains_char(label, 'A');
    proof {
        if listed {
            assert(label@.contains('A')) by {
                assert(label@[0] == 'A');
            }
        }
        if is_datis_label(label@) {
            assert(label@.contains('A')) by {
                if label@ == seq!['A', '7'] || label@ == seq!['A', '6'] || label@ == seq!['A', '5']
                    || label@ == seq!['A', 'T'] {
                    assert(label@[0] == 'A');
                }
            }
        }
    }
    listed || has_a
}

fn datis_signals(upper: &[char], upper_str: &str) -> (b: bool)
    requires
        upper@ == upper_str@,
    ensures
        b == (contains_seq(upper@, word_atis()) || looks_like_datis(upper@)),
{
    let atis = vec!['A', 'T', 'I', 'S'];
    assert(atis@ =~= word_atis());
    let has_atis = match find_chars(upper, atis.as_slice()) {
        Some(_) => true,
        None => false,
    };
    if has_atis {
        return true;
    }
    upper_str.as_bytes().len() > 20 && count_numeric_chars(upper) >= 4
}

fn info_letter_of(upper: &[char]) -> (c: char)
    ensures
        c == info_letter(upper@),
{
    let info = vec!['I', 'N', 'F', 'O', ' '];
    let information = vec!['I', 'N', 'F', 'O', 'R', 'M', 'A', 'T', 'I', 'O', 'N', ' '];
    assert(info@ =~= word_info());
    assert(information@ =~= word_information());
    match letter_after_keyword(upper, info.as_slice()) {
        Some(c) => c,
        None => match letter_after_keyword(upper, information.as_slice()) {
            Some(c) => c,
            None => '?',
        },
    }
}

fn sa_report(upper: &[char]) -> (b: bool)
    ensures
        b == (starts_with(upper@, word_sa()) || starts_with(upper@, word_saxxx())),
{
    let sa = vec!['S', 'A', ' '];
    let saxxx = vec!['S', 'A', 'X', 'X', 'X'];
    assert(sa@ =~= word_sa());
    assert(saxxx@ =~= word_saxxx());
    matches_at(upper, sa.as_slice(), 0) || matches_at(upper, saxxx.as_slice(), 0)
}

/// Routes a decoded message into a weather product when applicable.
pub fn classify_weather(msg: &AcarsMessage) -> (p: WeatherProduct)
    ensures
        p@ == spec_classify(msg@),
{
    let text = chars_of(msg.text.as_str());
    let upper_string = to_uppercase(msg.text.as_str());
    let upper = chars_of(upper_string.as_str());
    let speci = vec!['S', 'P', 'E', 'C', 'I'];
    let metar = vec!['M', 'E', 'T', 'A', 'R'];
    assert(speci@ =~= word_speci());
    assert(metar@ =~= word_metar());
    if matches_at(upper.as_slice(), speci.as_slice(), 0) {
        return WeatherProduct::Speci(msg.text.clone());
    }
    if matches_at(upper.as_slice(), metar.as_slice(), 0) {
        return WeatherProduct::Metar(msg.text.clone());
    }
    let label = chars_of(msg.label.as_str());
    if is_datis_label_chars(label.as_slice()) && datis_signals(
        upper.as_slice(),
        upper_string.as_str(),
    ) {
        let station = if text.len() > 0 {
            Some(text[0])
        } else {
            None
        };
        let info_letter = info_letter_of(upper.as_slice());
        return WeatherProduct::Datis { station, info_letter, body: msg.text.clone() };
    }
    if sa_report(upper.as_slice()) {
        return WeatherProduct::Metar(strip_sa_prefix(text.as_slice()));
    }
    WeatherProduct::Other
}

// ---------------------------------------------------------------------------
// Frame synthesis
// ---------------------------------------------------------------------------

/// Low byte of a character's scalar value.
pub open spec fn char_byte(c: char) -> u8 {
    (c as u32) as u8
}

/// `SOH..ETX` block of a synthesised frame.
pub open spec fn synth_body(
    mode: char,
    tail: Seq<u8>,
    ack: char,
    label: Seq<u8>,
    block_id: char,
    flight: Seq<u8>,
    text: Seq<u8>,
) -> Seq<u8> {
    let head = seq![SOH, char_byte(mode)] + tail + seq![char_byte(ack)] + label + seq![
        char_byte(block_id),
    ];
    let payload = if flight.len() > 0 || text.len() > 0 {
        seq![STX] + flight + (if flight.len() > 0 && text.len() > 0 {
            seq![0x0Du8]
        } else {
            Seq::<u8>::empty()
        }) + text
    } else {
        Seq::<u8>::empty()
    };
    head + payload + seq![ETX]
}

/// A complete frame: the block followed by its big-endian CRC-16.
pub open spec fn synth_frame(body: Seq<u8>) -> Seq<u8> {
    let crc = spec_crc16(body);
    body + seq![(crc >> 8u16) as u8, crc as u8]
}

fn push_bytes(v: &mut Vec<u8>, s: &str)
    ensures
        final(v)@ == old(v)@ + s.spec_bytes(),
{
    let b = s.as_bytes();
    let mut i: usize = 0;
    while i < b.len()
        invariant
            i <= b@.len(),
            b@ == s.spec_bytes(),
            v@ == old(v)@ + b@.subrange(0, i as int),
        decreases b.len() - i,
    {
        v.push(b[i]);
        assert(v@ =~= old(v)@ + b@.subrange(0, i + 1));
        i += 1;
    }
    assert(b@.subrange(0, b@.len() as int) =~= b@);
}

/// Builds a wire-format ACARS frame (SOH..ETX + BCS) matching the parser's
/// expectations.
pub fn synthesize_frame(
    mode: char,
    tail: &str,
    ack: char,
    label: &str,
    block_id: char,
    flight: &str,
    text: &str,
) -> (frame: Vec<u8>)
    ensures
        frame@ == synth_frame(
            synth_body(
                mode,
                tail.spec_bytes(),
                ack,
                label.spec_bytes(),
                block_id,
                flight.spec_bytes(),
                text.spec_bytes(),
            ),
        ),
{
    let mut body: Vec<u8> = Vec::new();
    body.push(SOH);
    body.push((mode as u32) as u8);
    push_bytes(&mut body, tail);
    body.push((ack as u32) as u8);
    push_bytes(&mut body, label);
    body.push((block_id as u32) as u8);
    let ghost head = body@;
    let fb = flight.as_bytes();
    let tb = text.as_bytes();
    if fb.len() > 0 || tb.len() > 0 {
        body.push(STX);
        push_bytes(&mut body, flight);
        if fb.len() > 0 && tb.len() > 0 {
            body.push(0x0D);
        }
        push_bytes(&mut body, text);
    }
    body.push(ETX);
    assert(body@ =~= synth_body(
        mode,
        tail.spec_bytes(),
        ack,
        label.spec_bytes(),
        block_id,
        flight.spec_bytes(),
        text.spec_bytes(),
    ));
    let ghost b = body@;
    let crc = crc16_ccitt(body.as_slice());
    body.push((crc >> 8u16) as u8);
    body.push(crc as u8);
    assert(body@ =~= synth_frame(b));
    body
}

// ---------------------------------------------------------------------------
// Laws
// ---------------------------------------------------------------------------

/// A synthesised frame carries a block check sequence that verifies: if it
/// decodes at all, it decodes with `crc_valid` set.
pub proof fn synthesized_frames_check(body: Seq<u8>, now_ms: u64)
    ensures
        spec_parse_frame(synth_frame(body), now_ms) matches Some(m) ==> m.crc_valid,
{
    let f = synth_frame(body);
    let crc = spec_crc16(body);
    if header_parses(f) {
        let n = f.len();
        assert(f.subrange(0, n - 2) =~= body);
        assert(f[n - 2] == (crc >> 8u16) as u8);
        assert(f[n - 1] == crc as u8);
        assert(((crc >> 8u16) as u8) as nat * 256 + (crc as u8) as nat == crc as nat) by (bit_vector);
    }
}

proof fn lemma_first_byte_agree(f: Seq<u8>, g: Seq<u8>, from: int, k: int, t: u8)
    requires
        0 <= from,
        k <= f.len(),
        k <= g.len(),
        forall|i: int| 0 <= i < k ==> f[i] == g[i],
    ensures
        forall|i: int| first_byte(f, from, t) == Some(i) && i < k ==> first_byte(g, from, t) == Some(i),
        (first_byte(f, from, t) is None || first_byte(f, from, t)->0 >= k) ==> (
        first_byte(g, from, t) is None || first_byte(g, from, t)->0 >= k),
    decreases f.len() - from,
{
    lemma_first_byte_bounds(f, from, t);
    lemma_first_byte_bounds(g, from, t);
    if from < f.len() && from < k {
        if f[from] != t {
            lemma_first_byte_agree(f, g, from + 1, k, t);
        }
    } else if from >= k {
    } else {
    }
}

proof fn lemma_addr_end_agree(f: Seq<u8>, g: Seq<u8>, i: int)
    requires
        f.len() >= 12,
        g.len() == f.len(),
        forall|j: int| 0 <= j < f.len() - 2 ==> f[j] == g[j],
        2 <= i <= 10,
    ensures
        addr_end_from(f, i) == addr_end_from(g, i),
        2 <= addr_end_from(f, i) <= 10,
    decreases 10 - i,
{
    if i < 10 {
        lemma_addr_end_agree(f, g, i + 1);
    }
}

/// A corrupted block check sequence is flagged, never fatal: two frames
/// that differ only in their two BCS bytes decode alike except for
/// `crc_valid`, provided every header field lies before the BCS, the
/// frame's terminator stands right before the BCS (as in every frame the
/// scanner cuts out), and neither frame has its first STX inside the BCS.
pub proof fn bcs_corruption_only_flags(f: Seq<u8>, g: Seq<u8>, now_ms: u64)
    requires
        f.len() == g.len(),
        f.len() >= 2,
        forall|i: int| 0 <= i < f.len() - 2 ==> f[i] == g[i],
        !frame_unparseable(f),
        !frame_unparseable(g),
        f.len() >= 3 ==> is_terminator(f[f.len() - 3]),
        f.len() >= 12 ==> addr_end(f) + 4 <= f.len() - 2,
    ensures
        spec_parse_frame(f, now_ms) is Some <==> spec_parse_frame(g, now_ms) is Some,
        spec_parse_frame(f, now_ms) matches Some(mf) ==> spec_parse_frame(g, now_ms) matches Some(
            mg,
        ) && mg == (AcarsModel { crc_valid: mg.crc_valid, ..mf }),
{
    let n = f.len();
    if n >= 12 {
        lemma_addr_end_agree(f, g, 2);
        let ae = addr_end(f);
        assert(addr_end(g) == ae);
        assert(f.subrange(2, ae) =~= g.subrange(2, ae));
        assert(f[0] == g[0]);
        assert(header_parses(f) == header_parses(g));
        if header_parses(f) {
            let body_end = n - 2;
            lemma_first_byte_agree(f, g, 0, body_end, STX);
            lemma_first_byte_agree(g, f, 0, body_end, STX);
            lemma_first_byte_bounds(f, 0, STX);
            lemma_first_byte_bounds(g, 0, STX);
            assert(first_byte(f, 0, STX) == first_byte(g, 0, STX));
            let after = ae + 1;
            assert(f.subrange(after, after + 2) =~= g.subrange(after, after + 2));
            if let Some(stx) = first_byte(f, 0, STX) {
                assert(f.subrange(stx + 1, body_end - 1) =~= g.subrange(stx + 1, body_end - 1));
            }
            assert(f[1] == g[1]);
            assert(f[ae] == g[ae]);
            assert(f[after + 2] == g[after + 2]);
        }
    } else {
        assert(!header_parses(f) && !header_parses(g));
    }
}

proof fn lemma_first_terminator_at(s: Seq<u8>, from: int, k: int)
    requires
        0 <= from <= k < s.len(),
        forall|j: int| from <= j < k ==> !is_terminator(#[trigger] s[j]),
        is_terminator(s[k]),
    ensures
        first_terminator(s, from) == Some(k),
    decreases k - from,
{
    if from < k {
        lemma_first_terminator_at(s, from + 1, k);
    }
}

proof fn lemma_first_byte_at(s: Seq<u8>, from: int, k: int, t: u8)
    requires
        0 <= from <= k < s.len(),
        forall|j: int| from <= j < k ==> #[trigger] s[j] != t,
        s[k] == t,
    ensures
        first_byte(s, from, t) == Some(k),
    decreases k - from,
{
    if from < k {
        lemma_first_byte_at(s, from + 1, k, t);
    }
}

proof fn lemma_first_line_break_at(s: Seq<u8>, from: int, k: int)
    requires
        0 <= from <= k < s.len(),
        forall|j: int| from <= j < k ==> !is_line_break(#[trigger] s[j]),
        is_line_break(s[k]),
    ensures
        first_line_break(s, from) == Some(k),
    decreases k - from,
{
    if from < k {
        lemma_first_line_break_at(s, from + 1, k);
    }
}

proof fn lemma_addr_end_at(f: Seq<u8>, i: int, e: int)
    requires
        2 <= i <= e <= 10,
        e < f.len(),
        forall|j: int| i <= j < e ==> is_ascii_graphic(#[trigger] f[j]),
        e == 10 || !is_ascii_graphic(f[e]),
    ensures
        addr_end_from(f, i) == e,
    decreases e - i,
{
    if i < e {
        lemma_addr_end_at(f, i + 1, e);
    }
}

/// Neither a frame terminator nor STX.
pub open spec fn plain_byte(b: u8) -> bool {
    b != STX && !is_terminator(b)
}

/// Fields of a downlink (`STX FLIGHT CR TEXT`) that the frame grammar can
/// carry unambiguously: a 1 to 8 byte graphic tail with a registration
/// character in it, a non-graphic acknowledgement, a two-byte label, a
/// flight id without line breaks, non-empty flight id and text, and no
/// framing byte in any field.
pub open spec fn downlink_fields_ok(
    mode: char,
    tail: Seq<u8>,
    ack: char,
    label: Seq<u8>,
    block_id: char,
    flight: Seq<u8>,
    text: Seq<u8>,
) -> bool {
    &&& 1 <= tail.len() <= 8
    &&& forall|i: int| 0 <= i < tail.len() ==> is_ascii_graphic(#[trigger] tail[i])
    &&& keep_tail_bytes(tail).len() > 0
    &&& !is_ascii_graphic(char_byte(ack))
    &&& label.len() == 2
    &&& flight.len() > 0
    &&& text.len() > 0
    &&& forall|i: int| 0 <= i < flight.len() ==> !is_line_break(#[trigger] flight[i])
    &&& plain_byte(char_byte(mode))
    &&& plain_byte(char_byte(ack))
    &&& plain_byte(char_byte(block_id))
    &&& forall|i: int| 0 <= i < label.len() ==> plain_byte(#[trigger] label[i])
    &&& forall|i: int| 0 <= i < flight.len() ==> !is_terminator(#[trigger] flight[i])
    &&& forall|i: int| 0 <= i < text.len() ==> !is_terminator(#[trigger] text[i])
}

/// What the decoder reads back from a synthesised downlink.
pub open spec fn downlink_message(
    mode: char,
    tail: Seq<u8>,
    ack: char,
    label: Seq<u8>,
    block_id: char,
    flight: Seq<u8>,
    text: Seq<u8>,
    now_ms: u64,
) -> AcarsModel {
    AcarsModel {
        mode: char_byte(mode) as char,
        aircraft_tail: decode_lossy(keep_tail_bytes(tail)),
        ack: char_byte(ack) as char,
        label: trim_ws(relabel(decode_lossy(label))),
        block_id: char_byte(block_id) as char,
        downlink: true,
        flight_id: trim_ws(decode_lossy(flight)),
        text: spec_sanitize_text(text),
        crc_valid: true,
        received_ms: now_ms,
    }
}

/// The facts about a synthesised downlink frame that the scanner relies
/// on: SOH first, ETX right before the BCS and no terminator earlier, no
/// STX inside the BCS, and the frame decodes to the message it was built
/// from.
#[verifier::rlimit(40)]
proof fn lemma_synth_downlink_frame(
    mode: char,
    tail: Seq<u8>,
    ack: char,
    label: Seq<u8>,
    block_id: char,
    flight: Seq<u8>,
    text: Seq<u8>,
    now_ms: u64,
)
    requires
        downlink_fields_ok(mode, tail, ack, label, block_id, flight, text),
    ensures
        ({
            let f = synth_frame(synth_body(mode, tail, ack, label, block_id, flight, text));
            &&& f.len() >= 12
            &&& f[0] == SOH
            &&& is_terminator(f[f.len() - 3])
            &&& forall|j: int| 0 <= j < f.len() - 3 ==> !is_terminator(#[trigger] f[j])
            &&& !frame_unparseable(f)
            &&& spec_parse_frame(f, now_ms) == Some(
                downlink_message(mode, tail, ack, label, block_id, flight, text, now_ms),
            )
        }),
{
    let body = synth_body(mode, tail, ack, label, block_id, flight, text);
    let f = synth_frame(body);
    let t = tail.len() as int;
    let fl = flight.len() as int;
    let tx = text.len() as int;
    let n = f.len() as int;
    let head = seq![SOH, char_byte(mode)] + tail + seq![char_byte(ack)] + label + seq![
        char_byte(block_id),
    ];
    let payload = seq![STX] + flight + seq![0x0Du8] + text;
    assert(body =~= head + payload + seq![ETX]);
    assert(n == t + fl + tx + 11);
    assert(f.subrange(0, n - 2) =~= body);
    assert forall|i: int| 0 <= i < t implies #[trigger] f[2 + i] == tail[i] by {}
    assert forall|i: int| 0 <= i < 2 implies #[trigger] f[t + 3 + i] == label[i] by {}
    assert forall|i: int| 0 <= i < fl implies #[trigger] f[t + 7 + i] == flight[i] by {}
    assert forall|i: int| 0 <= i < tx implies #[trigger] f[t + fl + 8 + i] == text[i] by {}
    assert(f[0] == SOH && f[1] == char_byte(mode) && f[t + 2] == char_byte(ack) && f[t + 5]
        == char_byte(block_id) && f[t + 6] == STX && f[t + fl + 7] == 0x0Du8 && f[n - 3] == ETX);
    // Framing.
    assert forall|j: int| 0 <= j < n - 3 implies !is_terminator(#[trigger] f[j]) by {
        if 2 <= j < t + 2 {
            assert(f[j] == tail[j - 2]);
        } else if t + 3 <= j < t + 5 {
            assert(f[j] == label[j - t - 3]);
        } else if t + 7 <= j < t + fl + 7 {
            assert(f[j] == flight[j - t - 7]);
        } else if t + fl + 8 <= j < n - 3 {
            assert(f[j] == text[j - t - fl - 8]);
        }
    }
    // Header.
    assert forall|j: int| 2 <= j < t + 2 implies is_ascii_graphic(#[trigger] f[j]) by {
        assert(f[j] == tail[j - 2]);
    }
    lemma_addr_end_at(f, 2, t + 2);
    assert(f.subrange(2, t + 2) =~= tail);
    assert(header_parses(f));
    assert forall|j: int| 0 <= j < t + 6 implies #[trigger] f[j] != STX by {
        if 2 <= j < t + 2 {
            assert(f[j] == tail[j - 2]);
        } else if t + 3 <= j < t + 5 {
            assert(f[j] == label[j - t - 3]);
        }
    }
    lemma_first_byte_at(f, 0, t + 6, STX);
    assert(!frame_unparseable(f));
    // Payload.
    let p = f.subrange(t + 7, n - 3);
    assert(p =~= flight + seq![0x0Du8] + text);
    assert forall|j: int| 0 <= j < fl implies !is_line_break(#[trigger] p[j]) by {
        assert(p[j] == flight[j]);
    }
    lemma_first_line_break_at(p, 0, fl);
    assert(p.subrange(0, fl) =~= flight);
    assert(p.subrange(fl + 1, p.len() as int) =~= text);
    assert(f.subrange(t + 3, t + 5) =~= label);
    synthesized_frames_check(body, now_ms);
}


/// A synthesised downlink frame scans back, on its own, as exactly the one
/// message it was built from: the tail's registration characters, the
/// label, the flight id and the text (which ends where ETX begins), marked
/// as a downlink, with a block check that verifies.
pub proof fn synthesized_downlink_roundtrip(
    mode: char,
    tail: Seq<u8>,
    ack: char,
    label: Seq<u8>,
    block_id: char,
    flight: Seq<u8>,
    text: Seq<u8>,
    now_ms: u64,
)
    requires
        downlink_fields_ok(mode, tail, ack, label, block_id, flight, text),
    ensures
        ({
            let f = synth_frame(synth_body(mode, tail, ack, label, block_id, flight, text));
            &&& stream_decodable(f, 0)
            &&& stream_messages(f, 0, now_ms) == seq![
                downlink_message(mode, tail, ack, label, block_id, flight, text, now_ms),
            ]
        }),
{
    synthesized_downlink_amid_noise(
        Seq::empty(),
        mode,
        tail,
        ack,
        label,
        block_id,
        flight,
        text,
        Seq::empty(),
        now_ms,
    );
    let f = synth_frame(synth_body(mode, tail, ack, label, block_id, flight, text));
    assert(Seq::<u8>::empty() + f + Seq::<u8>::empty() =~= f);
}

proof fn lemma_first_byte_absent(s: Seq<u8>, from: int, t: u8)
    requires
        0 <= from,
        forall|j: int| from <= j < s.len() ==> #[trigger] s[j] != t,
    ensures
        first_byte(s, from, t) is None,
    decreases s.len() - from,
{
    if from < s.len() {
        lemma_first_byte_absent(s, from + 1, t);
    }
}

/// Noise around a synthesised downlink is skipped: with no SOH in the bytes
/// before or after it, the stream scans as exactly the one message.
pub proof fn synthesized_downlink_amid_noise(
    pre: Seq<u8>,
    mode: char,
    tail: Seq<u8>,
    ack: char,
    label: Seq<u8>,
    block_id: char,
    flight: Seq<u8>,
    text: Seq<u8>,
    suf: Seq<u8>,
    now_ms: u64,
)
    requires
        downlink_fields_ok(mode, tail, ack, label, block_id, flight, text),
        forall|i: int| 0 <= i < pre.len() ==> #[trigger] pre[i] != SOH,
        forall|i: int| 0 <= i < suf.len() ==> #[trigger] suf[i] != SOH,
    ensures
        ({
            let buf = pre + synth_frame(synth_body(mode, tail, ack, label, block_id, flight, text))
                + suf;
            &&& stream_decodable(buf, 0)
            &&& stream_messages(buf, 0, now_ms) == seq![
                downlink_message(mode, tail, ack, label, block_id, flight, text, now_ms),
            ]
        }),
{
    let f = synth_frame(synth_body(mode, tail, ack, label, block_id, flight, text));
    lemma_synth_downlink_frame(mode, tail, ack, label, block_id, flight, text, now_ms);
    let buf = pre + f + suf;
    let p = pre.len() as int;
    let n = f.len() as int;
    assert forall|j: int| 0 <= j < n implies #[trigger] buf[p + j] == f[j] by {}
    assert forall|j: int| 0 <= j < p implies #[trigger] buf[j] != SOH by {
        assert(buf[j] == pre[j]);
    }
    assert(buf[p] == SOH);
    lemma_first_byte_at(buf, 0, p, SOH);
    assert forall|j: int| p <= j < p + n - 3 implies !is_terminator(#[trigger] buf[j]) by {
        assert(buf[j] == f[j - p]);
    }
    assert(is_terminator(buf[p + n - 3])) by {
        assert(buf[p + (n - 3)] == f[n - 3]);
    }
    lemma_first_terminator_at(buf, p, p + n - 3);
    assert(buf.subrange(p, p + n) =~= f);
    assert forall|j: int| p + n <= j < buf.len() implies #[trigger] buf[j] != SOH by {
        assert(buf[j] == suf[j - p - n]);
    }
    lemma_first_byte_absent(buf, p + n, SOH);
    assert(stream_messages(buf, p + n, now_ms) =~= Seq::<AcarsModel>::empty());
    assert(stream_decodable(buf, p + n));
}

/// Scanning goes on past a decoded frame: two synthesised downlinks in a
/// row, with noise free of SOH before, between and after them, scan as
/// both messages, in order.
pub proof fn synthesized_downlinks_in_sequence(
    pre: Seq<u8>,
    f1: Seq<u8>,
    mid: Seq<u8>,
    f2: Seq<u8>,
    suf: Seq<u8>,
    m1: AcarsModel,
    m2: AcarsModel,
    now_ms: u64,
)
    requires
        f1.len() >= 12 && f1[0] == SOH && is_terminator(f1[f1.len() - 3]),
        forall|j: int| 0 <= j < f1.len() - 3 ==> !is_terminator(#[trigger] f1[j]),
        !frame_unparseable(f1),
        spec_parse_frame(f1, now_ms) == Some(m1),
        f2.len() >= 12 && f2[0] == SOH && is_terminator(f2[f2.len() - 3]),
        forall|j: int| 0 <= j < f2.len() - 3 ==> !is_terminator(#[trigger] f2[j]),
        !frame_unparseable(f2),
        spec_parse_frame(f2, now_ms) == Some(m2),
        forall|i: int| 0 <= i < pre.len() ==> #[trigger] pre[i] != SOH,
        forall|i: int| 0 <= i < mid.len() ==> #[trigger] mid[i] != SOH,
        forall|i: int| 0 <= i < suf.len() ==> #[trigger] suf[i] != SOH,
    ensures
        stream_decodable(pre + f1 + mid + f2 + suf, 0),
        stream_messages(pre + f1 + mid + f2 + suf, 0, now_ms) == seq![m1, m2],
{
    let buf = pre + f1 + mid + f2 + suf;
    let p1 = pre.len() as int;
    let n1 = f1.len() as int;
    let q = mid.len() as int;
    let p2 = p1 + n1 + q;
    let n2 = f2.len() as int;
    assert(buf.len() == p2 + n2 + suf.len());
    assert forall|j: int| 0 <= j < n1 implies #[trigger] buf[p1 + j] == f1[j] by {}
    assert forall|j: int| 0 <= j < n2 implies #[trigger] buf[p2 + j] == f2[j] by {}
    // First frame.
    assert forall|j: int| 0 <= j < p1 implies #[trigger] buf[j] != SOH by {
        assert(buf[j] == pre[j]);
    }
    assert(buf[p1] == SOH);
    lemma_first_byte_at(buf, 0, p1, SOH);
    assert forall|j: int| p1 <= j < p1 + n1 - 3 implies !is_terminator(#[trigger] buf[j]) by {
        assert(buf[j] == f1[j - p1]);
    }
    assert(buf[p1 + (n1 - 3)] == f1[n1 - 3]);
    lemma_first_terminator_at(buf, p1, p1 + n1 - 3);
    assert(buf.subrange(p1, p1 + n1) =~= f1);
    // Second frame.
    assert forall|j: int| p1 + n1 <= j < p2 implies #[trigger] buf[j] != SOH by {
        assert(buf[j] == mid[j - p1 - n1]);
    }
    assert(buf[p2] == SOH);
    lemma_first_byte_at(buf, p1 + n1, p2, SOH);
    assert forall|j: int| p2 <= j < p2 + n2 - 3 implies !is_terminator(#[trigger] buf[j]) by {
        assert(buf[j] == f2[j - p2]);
    }
    assert(buf[p2 + (n2 - 3)] == f2[n2 - 3]);
    lemma_first_terminator_at(buf, p2, p2 + n2 - 3);
    assert(buf.subrange(p2, p2 + n2) =~= f2);
    // Trailing noise.
    assert forall|j: int| p2 + n2 <= j < buf.len() implies #[trigger] buf[j] != SOH by {
        assert(buf[j] == suf[j - p2 - n2]);
    }
    lemma_first_byte_absent(buf, p2 + n2, SOH);
    assert(stream_messages(buf, p2 + n2, now_ms) =~= Seq::<AcarsModel>::empty());
    assert(stream_decodable(buf, p2 + n2));
    assert(stream_messages(buf, p1 + n1, now_ms) =~= seq![m2]);
    assert(stream_decodable(buf, p1 + n1));
    assert(seq![m1] + seq![m2] =~= seq![m1, m2]);
}

/// Two synthesised downlinks sent back to back scan as both messages, in
/// order.
pub proof fn synthesized_downlink_pair(
    a: (char, Seq<u8>, char, Seq<u8>, char, Seq<u8>, Seq<u8>),
    b: (char, Seq<u8>, char, Seq<u8>, char, Seq<u8>, Seq<u8>),
    now_ms: u64,
)
    requires
        downlink_fields_ok(a.0, a.1, a.2, a.3, a.4, a.5, a.6),
        downlink_fields_ok(b.0, b.1, b.2, b.3, b.4, b.5, b.6),
    ensures
        ({
            let f1 = synth_frame(synth_body(a.0, a.1, a.2, a.3, a.4, a.5, a.6));
            let f2 = synth_frame(synth_body(b.0, b.1, b.2, b.3, b.4, b.5, b.6));
            &&& stream_decodable(f1 + f2, 0)
            &&& stream_messages(f1 + f2, 0, now_ms) == seq![
                downlink_message(a.0, a.1, a.2, a.3, a.4, a.5, a.6, now_ms),
                downlink_message(b.0, b.1, b.2, b.3, b.4, b.5, b.6, now_ms),
            ]
        }),
{
    let f1 = synth_frame(synth_body(a.0, a.1, a.2, a.3, a.4, a.5, a.6));
    let f2 = synth_frame(synth_body(b.0, b.1, b.2, b.3, b.4, b.5, b.6));
    lemma_synth_downlink_frame(a.0, a.1, a.2, a.3, a.4, a.5, a.6, now_ms);
    lemma_synth_downlink_frame(b.0, b.1, b.2, b.3, b.4, b.5, b.6, now_ms);
    let e = Seq::<u8>::empty();
    synthesized_downlinks_in_sequence(
        e,
        f1,
        e,
        f2,
        e,
        downlink_message(a.0, a.1, a.2, a.3, a.4, a.5, a.6, now_ms),
        downlink_message(b.0, b.1, b.2, b.3, b.4, b.5, b.6, now_ms),
        now_ms,
    );
    assert(e + f1 + e + f2 + e =~= f1 + f2);
}

/// Fields written in plain ASCII, as bench fixtures and the simulator use:
/// an alphanumeric tail, a graphic label without `@`, graphic mode, block
/// id and flight id, and printable text without leading or trailing spaces.
pub open spec fn clean_ascii_fields(
    mode: char,
    tail: Seq<u8>,
    label: Seq<u8>,
    block_id: char,
    flight: Seq<u8>,
    text: Seq<u8>,
) -> bool {
    &&& is_ascii_graphic(char_byte(mode)) && (mode as u32) < 0x80
    &&& is_ascii_graphic(char_byte(block_id)) && (block_id as u32) < 0x80
    &&& forall|i: int| 0 <= i < tail.len() ==> is_ascii_alphanumeric(#[trigger] tail[i])
    &&& forall|i: int| 0 <= i < label.len() ==> is_ascii_graphic(#[trigger] label[i]) && label[i]
        != 0x40
    &&& forall|i: int| 0 <= i < flight.len() ==> is_ascii_graphic(#[trigger] flight[i])
    &&& forall|i: int| 0 <= i < text.len() ==> 0x20 <= #[trigger] text[i] <= 0x7E
    &&& text.len() > 0 ==> text[0] != 0x20 && text[text.len() - 1] != 0x20
}

proof fn lemma_keep_alnum_tail(s: Seq<u8>)
    requires
        forall|i: int| 0 <= i < s.len() ==> is_ascii_alphanumeric(#[trigger] s[i]),
    ensures
        keep_tail_bytes(s) == s,
    decreases s.len(),
{
    if s.len() > 0 {
        let t = s.drop_last();
        assert forall|i: int| 0 <= i < t.len() implies is_ascii_alphanumeric(#[trigger] t[i]) by {
            assert(t[i] == s[i]);
        }
        lemma_keep_alnum_tail(t);
        assert(is_ascii_alphanumeric(s[s.len() - 1]));
        assert(t.push(s.last()) =~= s);
    }
}

proof fn lemma_sanitize_printable(s: Seq<u8>)
    requires
        forall|i: int| 0 <= i < s.len() ==> 0x20 <= #[trigger] s[i] <= 0x7E,
    ensures
        sanitize_chars(s) == bytes_as_chars(s),
    decreases s.len(),
{
    if s.len() > 0 {
        let t = s.drop_last();
        assert forall|i: int| 0 <= i < t.len() implies 0x20 <= #[trigger] t[i] <= 0x7E by {
            assert(t[i] == s[i]);
        }
        lemma_sanitize_printable(t);
        assert(0x20 <= s[s.len() - 1] <= 0x7E);
        assert(bytes_as_chars(t).push(s.last() as char) =~= bytes_as_chars(s));
    }
}

/// Characters with no whitespace at either end survive trimming.
proof fn lemma_trim_untouched(s: Seq<char>)
    requires
        s.len() > 0 ==> !is_unicode_whitespace(s[0]) && !is_unicode_whitespace(s[s.len() - 1]),
    ensures
        trim_ws(s) == s,
{
}

proof fn lemma_ascii_bytes(s: Seq<u8>)
    requires
        forall|i: int| 0 <= i < s.len() ==> 0x20 <= #[trigger] s[i] <= 0x7E,
    ensures
        all_ascii(s),
        decode_lossy(s) == bytes_as_chars(s),
{
}

/// A downlink written in plain ASCII reads back field for field as written:
/// tail, label, flight id and text as the very characters given, the mode,
/// acknowledgement and block id unchanged.
pub proof fn clean_downlink_reads_back(
    mode: char,
    tail: Seq<u8>,
    ack: char,
    label: Seq<u8>,
    block_id: char,
    flight: Seq<u8>,
    text: Seq<u8>,
    now_ms: u64,
)
    requires
        downlink_fields_ok(mode, tail, ack, label, block_id, flight, text),
        clean_ascii_fields(mode, tail, label, block_id, flight, text),
        (ack as u32) < 0x80,
    ensures
        downlink_message(mode, tail, ack, label, block_id, flight, text, now_ms) == (AcarsModel {
            mode,
            aircraft_tail: bytes_as_chars(tail),
            ack,
            label: bytes_as_chars(label),
            block_id,
            downlink: true,
            flight_id: bytes_as_chars(flight),
            text: bytes_as_chars(text),
            crc_valid: true,
            received_ms: now_ms,
        }),
{
    lemma_keep_alnum_tail(tail);
    lemma_ascii_bytes(tail);
    lemma_ascii_bytes(label);
    lemma_ascii_bytes(flight);
    lemma_sanitize_printable(text);
    let l = bytes_as_chars(label);
    assert(relabel(l) =~= l);
    lemma_trim_untouched(l);
    lemma_trim_untouched(bytes_as_chars(flight));
    lemma_trim_untouched(bytes_as_chars(text));
    assert(char_byte(mode) as char == mode);
    assert(char_byte(ack) as char == ack);
    assert(char_byte(block_id) as char == block_id);
}

} // verus!
