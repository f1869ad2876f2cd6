//! Surface weather groups pulled out of METAR and D-ATIS text.
//!
//! Both scans run over the UTF-8 bytes of the upper-cased text:
//! * QNH: a `Q`, optionally followed by `N`, `H` and blanks, then exactly
//!   four digits (`Q1013`, `QNH 1014`);
//! * wind: three direction digits directly followed by one to five speed
//!   digits and `KT` (`18012KT`).

use vstd::prelude::*;
use vstd::utf8::*;
use crate::text::{to_uppercase, upper_text};

verus! {

pub open spec fn is_digit_byte(b: u8) -> bool {
    0x30 <= b && b <= 0x39
}

/// Value of a run of decimal digit bytes.
pub open spec fn digits_value(b: Seq<u8>) -> nat
    decreases b.len(),
{
    if b.len() == 0 {
        0
    } else {
        digits_value(b.drop_last()) * 10 + (b.last() - 0x30) as nat
    }
}

/// Length of the run of digit bytes starting at `j`.
pub open spec fn digit_run(b: Seq<u8>, j: int) -> nat
    decreases b.len() - j,
{
    if 0 <= j < b.len() && is_digit_byte(b[j]) {
        1 + digit_run(b, j + 1)
    } else {
        0
    }
}

/// First index at or after `j` that is not `N`, `H` or a blank.
pub open spec fn skip_designator(b: Seq<u8>, j: int) -> int
    decreases b.len() - j,
{
    if 0 <= j < b.len() && (b[j] == 0x4E || b[j] == 0x48 || b[j] == 0x20) {
        skip_designator(b, j + 1)
    } else {
        j
    }
}

/// The first QNH group at or after byte `i`.
pub open spec fn qnh_from(b: Seq<u8>, i: int) -> Option<u32>
    decreases b.len() - i,
{
    if i < 0 || i >= b.len() {
        None
    } else if b[i] == 0x51 {
        let j = skip_designator(b, i + 1);
        if digit_run(b, j) == 4 {
            Some(digits_value(b.subrange(j, j + 4)) as u32)
        } else {
            qnh_from(b, i + 1)
        }
    } else {
        qnh_from(b, i + 1)
    }
}

/// The QNH, hPa, the text announces first.
pub open spec fn spec_extract_qnh(text: Seq<char>) -> Option<u32> {
    qnh_from(encode_utf8(upper_text(text)), 0)
}

/// Outcome of the wind scan from one position: a group, none, or a text
/// slice ending inside a multi-byte character (which `str` slicing refuses).
#[derive(Debug, Clone, Copy, PartialEq, Eq, Structural)]
pub enum WindScan {
    Found(u32, u32),
    Absent,
    SplitChar,
}

/// End of the speed digits after a direction at `i`: the digit run from
/// `i + 3`, at most up to `i + 8`.
pub open spec fn speed_end(b: Seq<u8>, i: int, j: int) -> int
    decreases b.len() - j,
{
    if j < b.len() && is_digit_byte(b[j]) && j - i < 8 {
        speed_end(b, i, j + 1)
    } else {
        j
    }
}

pub open spec fn wind_from(b: Seq<u8>, i: int) -> WindScan
    decreases b.len() - i,
{
    if i < 0 || i + 3 > b.len() {
        WindScan::Absent
    } else if !(is_digit_byte(b[i]) && is_digit_byte(b[i + 1]) && is_digit_byte(b[i + 2])) {
        wind_from(b, i + 1)
    } else {
        let j = speed_end(b, i, i + 3);
        if j + 2 <= b.len() {
            if j + 2 < b.len() && is_continuation_byte(b[j + 2]) {
                WindScan::SplitChar
            } else if b[j] == 0x4B && b[j + 1] == 0x54 && j > i + 3 {
                WindScan::Found(
                    (digits_value(b.subrange(i, i + 3)) % 360) as u32,
                    digits_value(b.subrange(i + 3, j)) as u32,
                )
            } else {
                wind_from(b, i + 1)
            }
        } else {
            wind_from(b, i + 1)
        }
    }
}

pub open spec fn wind_scan(b: Seq<u8>) -> WindScan {
    if b.len() < 7 {
        WindScan::Absent
    } else {
        wind_from(b, 0)
    }
}

pub open spec fn pow10(n: nat) -> nat
    decreases n,
{
    if n == 0 {
        1
    } else {
        10 * pow10((n - 1) as nat)
    }
}

/// Value of the digit bytes `b[from..to]`.
fn digits_at(b: &[u8], from: usize, to: usize) -> (v: u32)
    requires
        from <= to <= b@.len(),
        to - from <= 9,
        forall|k: int| from <= k < to ==> is_digit_byte(#[trigger] b@[k]),
    ensures
        v == digits_value(b@.subrange(from as int, to as int)),
{
    let mut v: u32 = 0;
    let mut k = from;
    while k < to
        invariant
            from <= k <= to <= b@.len(),
            to - from <= 9,
            forall|x: int| from <= x < to ==> is_digit_byte(#[trigger] b@[x]),
            v == digits_value(b@.subrange(from as int, k as int)),
            v < pow10((k - from) as nat),
        decreases to - k,
    {
        let ghost s = b@.subrange(from as int, k + 1);
        assert(s.drop_last() =~= b@.subrange(from as int, k as int));
        assert(is_digit_byte(b@[k as int]));
        assert(pow10((k - from) as nat) <= 100_000_000) by {
            assert(pow10(0) == 1);
            assert(pow10(1) == 10);
            assert(pow10(2) == 100);
            assert(pow10(3) == 1000);
            assert(pow10(4) == 10_000);
            assert(pow10(5) == 100_000);
            assert(pow10(6) == 1_000_000);
            assert(pow10(7) == 10_000_000);
            assert(pow10(8) == 100_000_000);
        }
        v = v * 10 + (b[k] - 0x30) as u32;
        k += 1;
    }
    v
}

/// The first QNH group in already upper-cased text, hPa.
pub fn qnh_in(upper: &str) -> (r: Option<u32>)
    ensures
        r == qnh_from(encode_utf8(upper@), 0),
{
    let b = upper.as_bytes();
    let ghost bs = b@;
    let mut i: usize = 0;
    while i < b.len()
        invariant
            bs == b@,
            bs == encode_utf8(upper@),
            i <= bs.len(),
            qnh_from(bs, 0) == qnh_from(bs, i as int),
        decreases b.len() - i,
    {
        if b[i] == 0x51 {
            let mut j = i + 1;
            while j < b.len() && (b[j] == 0x4E || b[j] == 0x48 || b[j] == 0x20)
                invariant
                    bs == b@,
                    i < j <= bs.len(),
                    skip_designator(bs, i + 1) == skip_designator(bs, j as int),
                decreases b.len() - j,
            {
                j += 1;
            }
            let mut n: usize = 0;
            while n < b.len() - j && n < 5 && 0x30 <= b[j + n] && b[j + n] <= 0x39
                invariant
                    bs == b@,
                    j <= bs.len(),
                    n <= 5,
                    j + n <= bs.len(),
                    forall|k: int| j <= k < j + n ==> is_digit_byte(#[trigger] bs[k]),
                    digit_run(bs, j as int) == n + digit_run(bs, j + n),
                decreases 5 - n,
            {
                n += 1;
            }
            if n == 4 {
                proof {
                    if j + 4 < bs.len() {
                        assert(digit_run(bs, j + 4) == 0);
                    }
                }
                let v = digits_at(b, j, j + 4);
                return Some(v);
            }
            proof {
                if n < 4 {
                    assert(digit_run(bs, j + n) == 0);
                } else {
                    assert(digit_run(bs, j as int) >= 5);
                }
            }
        }
        i += 1;
    }
    None
}

/// `qnh_in` on the upper-cased text.
pub fn extract_qnh(text: &str) -> (r: Option<u32>)
    ensures
        r == spec_extract_qnh(text@),
{
    let upper = to_uppercase(text);
    qnh_in(upper.as_str())
}

/// The wind scan over already upper-cased text.
pub fn wind_group_in(upper: &str) -> (r: WindScan)
    ensures
        r == wind_scan(encode_utf8(upper@)),
{
    let b = upper.as_bytes();
    let ghost bs = b@;
    if b.len() < 7 {
        return WindScan::Absent;
    }
    let mut i: usize = 0;
    while i <= b.len() - 3
        invariant
            bs == b@,
            bs == encode_utf8(upper@),
            bs.len() >= 7,
            wind_scan(bs) == wind_from(bs, i as int),
        decreases b.len() - i,
    {
        if 0x30 <= b[i] && b[i] <= 0x39 && 0x30 <= b[i + 1] && b[i + 1] <= 0x39 && 0x30 <= b[i + 2]
            && b[i + 2] <= 0x39 {
            let mut j = i + 3;
            while j < b.len() && 0x30 <= b[j] && b[j] <= 0x39 && j - i < 8
                invariant
                    bs == b@,
                    i + 3 <= j <= bs.len(),
                    j - i <= 8,
                    forall|k: int| i <= k < j ==> is_digit_byte(#[trigger] bs[k]),
                    speed_end(bs, i as int, i + 3) == speed_end(bs, i as int, j as int),
                decreases b.len() - j,
            {
                j += 1;
            }
            assert(speed_end(bs, i as int, j as int) == j);
            if j <= b.len() - 2 {
                if j + 2 < b.len() && 0x80 <= b[j + 2] && b[j + 2] <= 0xBF {
                    return WindScan::SplitChar;
                }
                if b[j] == 0x4B && b[j + 1] == 0x54 && j > i + 3 {
                    let dir = digits_at(b, i, i + 3);
                    let spd = digits_at(b, i + 3, j);
                    return WindScan::Found(dir % 360, spd);
                }
            }
        }
        i += 1;
    }
    WindScan::Absent
}

/// The wind scan over the upper-cased text.
pub fn extract_wind_group(text: &str) -> (r: WindScan)
    ensures
        r == wind_scan(encode_utf8(upper_text(text@))),
{
    let upper = to_uppercase(text);
    wind_group_in(upper.as_str())
}

} // verus!
