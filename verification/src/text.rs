//! Character-level helpers shared by the text-bearing decoders: Unicode
//! whitespace trimming, decimal rendering, prefix and substring search, and
//! the few std string services whose full behaviour is Unicode-table driven.

use vstd::prelude::*;

verus! {

// ---------------------------------------------------------------------------
// Unicode whitespace and trimming
// ---------------------------------------------------------------------------

/// The Unicode `White_Space` property, which `str::trim` and friends strip.
pub open spec fn is_unicode_whitespace(c: char) -> bool {
    let u = c as u32;
    ||| (0x09 <= u && u <= 0x0D)
    ||| u == 0x20
    ||| u == 0x85
    ||| u == 0xA0
    ||| u == 0x1680
    ||| (0x2000 <= u && u <= 0x200A)
    ||| u == 0x2028
    ||| u == 0x2029
    ||| u == 0x202F
    ||| u == 0x205F
    ||| u == 0x3000
}

/// Drops trailing whitespace.
pub open spec fn trim_end_ws(s: Seq<char>) -> Seq<char>
    decreases s.len(),
{
    if s.len() > 0 && is_unicode_whitespace(s.last()) {
        trim_end_ws(s.drop_last())
    } else {
        s
    }
}

/// Drops leading whitespace.
pub open spec fn trim_start_ws(s: Seq<char>) -> Seq<char>
    decreases s.len(),
{
    if s.len() > 0 && is_unicode_whitespace(s[0]) {
        trim_start_ws(s.drop_first())
    } else {
        s
    }
}

/// What `str::trim` returns.
pub open spec fn trim_ws(s: Seq<char>) -> Seq<char> {
    trim_end_ws(trim_start_ws(s))
}

pub fn char_is_whitespace(c: char) -> (b: bool)
    ensures
        b == is_unicode_whitespace(c),
{
    let u = c as u32;
    (0x09 <= u && u <= 0x0D) || u == 0x20 || u == 0x85 || u == 0xA0 || u == 0x1680 || (0x2000
        <= u && u <= 0x200A) || u == 0x2028 || u == 0x2029 || u == 0x202F || u == 0x205F || u
        == 0x3000
}

proof fn lemma_trim_start_skip(s: Seq<char>, k: int)
    requires
        0 <= k <= s.len(),
        forall|j: int| 0 <= j < k ==> is_unicode_whitespace(#[trigger] s[j]),
    ensures
        trim_start_ws(s) == trim_start_ws(s.subrange(k, s.len() as int)),
    decreases k,
{
    if k > 0 {
        assert(s.drop_first() =~= s.subrange(1, s.len() as int));
        lemma_trim_start_skip(s.drop_first(), k - 1);
        assert(s.drop_first().subrange(k - 1, s.drop_first().len() as int) =~= s.subrange(
            k,
            s.len() as int,
        ));
    } else {
        assert(s.subrange(0, s.len() as int) =~= s);
    }
}

proof fn lemma_trim_end_drop(s: Seq<char>, k: int)
    requires
        0 <= k <= s.len(),
        forall|j: int| k <= j < s.len() ==> is_unicode_whitespace(#[trigger] s[j]),
    ensures
        trim_end_ws(s) == trim_end_ws(s.subrange(0, k)),
    decreases s.len() - k,
{
    if k < s.len() {
        assert(s.drop_last() =~= s.subrange(0, s.len() - 1));
        lemma_trim_end_drop(s.drop_last(), k);
        assert(s.drop_last().subrange(0, k) =~= s.subrange(0, k));
    } else {
        assert(s.subrange(0, k) =~= s);
    }
}

/// `String::push`: the string afterwards holds its old characters followed
/// by `c`.
#[verifier::external_body]
pub(crate) fn push_char(s: &mut String, c: char)
    ensures
        final(s)@ == old(s)@.push(c),
{
    s.push(c)
}

/// Builds a `String` holding exactly `cs[from..to]`.
pub fn string_from_chars(cs: &[char], from: usize, to: usize) -> (s: String)
    requires
        from <= to <= cs@.len(),
    ensures
        s@ == cs@.subrange(from as int, to as int),
{
    let mut s = String::new();
    let mut i = from;
    while i < to
        invariant
            from <= i <= to <= cs@.len(),
            s@ == cs@.subrange(from as int, i as int),
        decreases to - i,
    {
        push_char(&mut s, cs[i]);
        assert(s@ =~= cs@.subrange(from as int, i + 1));
        i += 1;
    }
    s
}

/// Whitespace-trimmed copy of a character buffer.
pub fn trimmed_string(cs: &[char]) -> (s: String)
    ensures
        s@ == trim_ws(cs@),
{
    let n = cs.len();
    let mut lo: usize = 0;
    while lo < n && char_is_whitespace(cs[lo])
        invariant
            lo <= n == cs@.len(),
            forall|j: int| 0 <= j < lo ==> is_unicode_whitespace(#[trigger] cs@[j]),
        decreases n - lo,
    {
        lo += 1;
    }
    proof {
        lemma_trim_start_skip(cs@, lo as int);
        let rest = cs@.subrange(lo as int, n as int);
        if lo < n {
            assert(rest[0] == cs@[lo as int]);
        }
        assert(trim_start_ws(rest) == rest);
    }
    let mut hi: usize = n;
    while hi > lo && char_is_whitespace(cs[hi - 1])
        invariant
            lo <= hi <= n == cs@.len(),
            forall|j: int| hi <= j < n ==> is_unicode_whitespace(#[trigger] cs@[j]),
        decreases hi - lo,
    {
        hi -= 1;
    }
    proof {
        let rest = cs@.subrange(lo as int, n as int);
        lemma_trim_end_drop(rest, (hi - lo) as int);
        assert(rest.subrange(0, (hi - lo) as int) =~= cs@.subrange(lo as int, hi as int));
        let kept = cs@.subrange(lo as int, hi as int);
        if kept.len() > 0 {
            assert(kept.last() == cs@[hi - 1]);
        }
        assert(trim_end_ws(kept) == kept);
    }
    string_from_chars(cs, lo, hi)
}

/// The characters of a string slice, in order.
pub fn chars_of(s: &str) -> (cs: Vec<char>)
    ensures
        cs@ == s@,
{
    let n = s.unicode_len();
    let mut cs: Vec<char> = Vec::new();
    let mut i: usize = 0;
    while i < n
        invariant
            i <= n,
            n == s@.len(),
            cs@ == s@.subrange(0, i as int),
        decreases n - i,
    {
        cs.push(s.get_char(i));
        assert(cs@ =~= s@.subrange(0, i + 1));
        i += 1;
    }
    assert(cs@ =~= s@);
    cs
}

/// Appends the characters of `t` to `s`.
pub fn push_str(s: &mut String, t: &str)
    ensures
        final(s)@ == old(s)@ + t@,
{
    let cs = chars_of(t);
    let mut i: usize = 0;
    while i < cs.len()
        invariant
            i <= cs@.len(),
            cs@ == t@,
            s@ == old(s)@ + cs@.subrange(0, i as int),
        decreases cs.len() - i,
    {
        push_char(s, cs[i]);
        assert(s@ =~= old(s)@ + cs@.subrange(0, i + 1));
        i += 1;
    }
    assert(cs@.subrange(0, cs@.len() as int) =~= cs@);
}

/// `s` with every character taken from `b` one for one.
pub open spec fn bytes_as_chars(b: Seq<u8>) -> Seq<char> {
    Seq::new(b.len(), |i: int| b[i] as char)
}

pub open spec fn all_ascii(b: Seq<u8>) -> bool {
    forall|i: int| 0 <= i < b.len() ==> #[trigger] b[i] < 0x80
}

// ---------------------------------------------------------------------------
// Std services driven by Unicode tables
// ---------------------------------------------------------------------------

/// What `String::from_utf8_lossy` yields for a byte sequence.
pub uninterp spec fn utf8_lossy(bytes: Seq<u8>) -> Seq<char>;

/// `String::from_utf8_lossy`: invalid sequences become U+FFFD; ASCII input
/// (which is valid UTF-8) comes back one character per byte.
#[verifier::external_body]
pub(crate) fn lossy_chars(bytes: &[u8]) -> (cs: Vec<char>)
    ensures
        cs@ == utf8_lossy(bytes@),
        all_ascii(bytes@) ==> cs@ == bytes_as_chars(bytes@),
{
    String::from_utf8_lossy(bytes).chars().collect()
}

/// Text decoded from bytes as `String::from_utf8_lossy` does: ASCII bytes
/// one character each, anything else as the named lossy decoding.
pub open spec fn decode_lossy(bytes: Seq<u8>) -> Seq<char> {
    if all_ascii(bytes) {
        bytes_as_chars(bytes)
    } else {
        utf8_lossy(bytes)
    }
}

/// What `str::to_uppercase` yields (Unicode `Uppercase` mapping, which may
/// change the number of characters).
pub uninterp spec fn uppercase(s: Seq<char>) -> Seq<char>;

pub open spec fn ascii_chars(s: Seq<char>) -> bool {
    forall|i: int| 0 <= i < s.len() ==> (#[trigger] s[i] as u32) < 0x80
}

/// ASCII upper-casing of one character: `a`..=`z` become `A`..=`Z`.
pub open spec fn ascii_upper_char(c: char) -> char {
    if 'a' <= c && c <= 'z' {
        ((c as u32) - 32) as char
    } else {
        c
    }
}

pub open spec fn ascii_upper(s: Seq<char>) -> Seq<char> {
    Seq::new(s.len(), |i: int| ascii_upper_char(s[i]))
}

/// Text upper-cased as `str::to_uppercase` does: ASCII text letter by
/// letter, anything else as the named Unicode mapping.
pub open spec fn upper_text(s: Seq<char>) -> Seq<char> {
    if ascii_chars(s) {
        ascii_upper(s)
    } else {
        uppercase(s)
    }
}

/// `str::to_uppercase`: the result is the named uppercase mapping of the
/// input; on ASCII text that mapping turns `a`..=`z` into `A`..=`Z` and
/// keeps every other character.
#[verifier::external_body]
pub(crate) fn to_uppercase(s: &str) -> (r: String)
    ensures
        r@ == uppercase(s@),
        ascii_chars(s@) ==> r@ == ascii_upper(s@),
{
    s.to_uppercase()
}

/// What `char::is_numeric` answers (Unicode general categories Nd, Nl, No).
pub uninterp spec fn is_numeric_char(c: char) -> bool;

/// `char::is_numeric`: the answer is the named numeric test of `c`; the
/// Unicode categories behind it are not spelled out.
#[verifier::external_body]
pub(crate) fn char_is_numeric(c: char) -> (b: bool)
    ensures
        b == is_numeric_char(c),
{
    c.is_numeric()
}

// ---------------------------------------------------------------------------
// Search
// ---------------------------------------------------------------------------

/// `needle` occurs in `hay` starting at `at`.
pub open spec fn occurs_at(hay: Seq<char>, needle: Seq<char>, at: int) -> bool {
    0 <= at && at + needle.len() <= hay.len() && hay.subrange(at, at + needle.len()) == needle
}

pub open spec fn starts_with(hay: Seq<char>, needle: Seq<char>) -> bool {
    occurs_at(hay, needle, 0)
}

pub open spec fn contains_seq(hay: Seq<char>, needle: Seq<char>) -> bool {
    exists|at: int| occurs_at(hay, needle, at)
}

/// Index of the first occurrence of `needle` in `hay`, if any.
pub open spec fn find_seq(hay: Seq<char>, needle: Seq<char>) -> Option<int> {
    if contains_seq(hay, needle) {
        Some(
            choose|at: int|
                occurs_at(hay, needle, at) && forall|k: int| 0 <= k < at ==> !occurs_at(
                    hay,
                    needle,
                    k,
                ),
        )
    } else {
        None
    }
}

pub fn matches_at(hay: &[char], needle: &[char], at: usize) -> (b: bool)
    ensures
        b == occurs_at(hay@, needle@, at as int),
{
    if at > hay.len() || needle.len() > hay.len() - at {
        return false;
    }
    let mut k: usize = 0;
    while k < needle.len()
        invariant
            at + needle@.len() <= hay@.len(),
            hay@.len() == hay.len(),
            k <= needle@.len(),
            forall|j: int| 0 <= j < k ==> hay@[at + j] == needle@[j],
        decreases needle.len() - k,
    {
        let h = hay[at + k];
        if h != needle[k] {
            assert(hay@.subrange(at as int, at + needle@.len())[k as int] != needle@[k as int]);
            return false;
        }
        k += 1;
    }
    assert(hay@.subrange(at as int, at + needle@.len()) =~= needle@);
    true
}

pub fn find_chars(hay: &[char], needle: &[char]) -> (r: Option<usize>)
    ensures
        r matches Some(at) ==> find_seq(hay@, needle@) == Some(at as int),
        r is None ==> find_seq(hay@, needle@) is None,
{
    if needle.len() > hay.len() {
        assert forall|a: int| !occurs_at(hay@, needle@, a) by {}
        return None;
    }
    let last = hay.len() - needle.len();
    let mut at: usize = 0;
    loop
        invariant
            at <= last,
            last == hay@.len() - needle@.len(),
            forall|k: int| 0 <= k < at ==> !occurs_at(hay@, needle@, k),
        ensures
            forall|k: int| 0 <= k <= last ==> !occurs_at(hay@, needle@, k),
        decreases last - at,
    {
        if matches_at(hay, needle, at) {
            proof {
                assert(contains_seq(hay@, needle@));
                let w = choose|a: int|
                    occurs_at(hay@, needle@, a) && forall|k: int|
                        0 <= k < a ==> !occurs_at(hay@, needle@, k);
                assert(occurs_at(hay@, needle@, w) && forall|k: int|
                    0 <= k < w ==> !occurs_at(hay@, needle@, k)) by {
                    assert(occurs_at(hay@, needle@, at as int) && forall|k: int|
                        0 <= k < at ==> !occurs_at(hay@, needle@, k));
                }
                if w < at {
                } else if w > at {
                    assert(!occurs_at(hay@, needle@, at as int));
                }
            }
            return Some(at);
        }
        if at == last {
            break;
        }
        at += 1;
    }
    assert forall|a: int| !occurs_at(hay@, needle@, a) by {
        if occurs_at(hay@, needle@, a) {
            assert(a <= last);
        }
    }
    None
}

// ---------------------------------------------------------------------------
// Decimal rendering
// ---------------------------------------------------------------------------

pub open spec fn digit_char(d: nat) -> char {
    ((48 + d) as u8) as char
}

/// Base-10 rendering without leading zeros (`"0"` for zero).
pub open spec fn decimal(n: nat) -> Seq<char>
    decreases n,
{
    if n < 10 {
        seq![digit_char(n)]
    } else {
        decimal(n / 10).push(digit_char(n % 10))
    }
}

/// Appends the decimal rendering of `n` to `s`.
pub fn push_decimal(s: &mut String, n: u64)
    ensures
        final(s)@ == old(s)@ + decimal(n as nat),
    decreases n,
{
    if n >= 10 {
        push_decimal(s, n / 10);
    }
    let d = (n % 10) as u32;
    let c = (48 + d) as u8 as char;
    push_char(s, c);
    proof {
        if n >= 10 {
            assert(decimal(n as nat) == decimal((n / 10) as nat).push(digit_char((n % 10) as nat)));
        }
    }
    assert(s@ =~= old(s)@ + decimal(n as nat));
}

} // verus!
