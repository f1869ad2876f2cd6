//! Line protocol of the persistence/AWOS sidecar (NDJSON over stdio).
//!
//! Every message in either direction is a single-line JSON object
//! terminated by `\n`. Outbound commands:
//!   {"cmd":"init","db_path":"..."}
//!   {"cmd":"log_tracks","tracks":[...]}
//!   {"cmd":"shutdown"}

use vstd::prelude::*;
use crate::text::push_str;

verus! {

/// Where and how the sidecar process is started.
#[derive(Debug, Clone)]
pub struct SidecarConfig {
    pub enabled: bool,
    pub python_bin: String,
    pub script_path: String,
    pub db_path: String,
}

impl Default for SidecarConfig {
    fn default() -> (c: Self)
        ensures
            c.enabled,
            c.python_bin@ == "python3"@,
            c.script_path@ == "python-sidecar/main.py"@,
            c.db_path@ == "aeropulse.duckdb"@,
    {
        SidecarConfig {
            enabled: true,
            python_bin: "python3".to_owned(),
            script_path: "python-sidecar/main.py".to_owned(),
            db_path: "aeropulse.duckdb".to_owned(),
        }
    }
}

/// A character that JSON string literals carry without escaping.
pub open spec fn json_plain_char(c: char) -> bool {
    c != '"' && c != '\\' && (c as u32) >= 0x20
}

/// Lower-case hexadecimal digit of `n < 16`.
pub open spec fn hex_lower(n: u32) -> char {
    if n < 10 {
        ((n + 0x30) as u32) as char
    } else {
        ((n - 10 + 0x61) as u32) as char
    }
}

/// How `serde_json` writes one character inside a string literal: `"` and
/// `\` behind a backslash; backspace, tab, line feed, form feed and carriage
/// return in their short forms; the other C0 controls as `\u00xx` with
/// lower-case hex digits; every other character as it is.
pub open spec fn json_escape_char(c: char) -> Seq<char> {
    let n = c as u32;
    if c == '"' {
        seq!['\\', '"']
    } else if c == '\\' {
        seq!['\\', '\\']
    } else if n == 0x08 {
        seq!['\\', 'b']
    } else if n == 0x09 {
        seq!['\\', 't']
    } else if n == 0x0A {
        seq!['\\', 'n']
    } else if n == 0x0C {
        seq!['\\', 'f']
    } else if n == 0x0D {
        seq!['\\', 'r']
    } else if n < 0x20 {
        seq!['\\', 'u', '0', '0', hex_lower(n / 16), hex_lower(n % 16)]
    } else {
        seq![c]
    }
}

/// The escaped contents of a JSON string literal.
pub open spec fn json_escaped(s: Seq<char>) -> Seq<char>
    decreases s.len(),
{
    if s.len() == 0 {
        Seq::empty()
    } else {
        json_escaped(s.drop_last()) + json_escape_char(s.last())
    }
}

/// The JSON string literal of `s`: its escaped contents between quotes.
pub open spec fn json_string_literal(s: Seq<char>) -> Seq<char> {
    seq!['"'] + json_escaped(s) + seq!['"']
}

/// `serde_json::to_string` on a `&str`: the string literal, escaped as the
/// crate's escape table prescribes. Serialising a string into memory does
/// not fail.
#[verifier::external_body]
fn json_quote(s: &str) -> (r: String)
    ensures
        r@ == json_string_literal(s@),
{
    match serde_json::to_string(s) {
        Ok(t) => t,
        Err(_) => String::new(),
    }
}

proof fn lemma_plain_escaped(s: Seq<char>)
    requires
        forall|i: int| 0 <= i < s.len() ==> json_plain_char(#[trigger] s[i]),
    ensures
        json_escaped(s) == s,
    decreases s.len(),
{
    if s.len() > 0 {
        let t = s.drop_last();
        assert forall|i: int| 0 <= i < t.len() implies json_plain_char(#[trigger] t[i]) by {
            assert(t[i] == s[i]);
        }
        lemma_plain_escaped(t);
        assert(json_plain_char(s[s.len() - 1]));
        assert(t + seq![s.last()] =~= s);
    } else {
        assert(json_escaped(s) =~= s);
    }
}

/// A string of plain characters comes back merely quoted.
pub proof fn plain_strings_are_only_quoted(s: Seq<char>)
    requires
        forall|i: int| 0 <= i < s.len() ==> json_plain_char(#[trigger] s[i]),
    ensures
        json_string_literal(s) == seq!['"'] + s + seq!['"'],
{
    lemma_plain_escaped(s);
}

pub open spec fn init_line(db_path: Seq<char>) -> Seq<char> {
    "{\"cmd\":\"init\",\"db_path\":"@ + json_string_literal(db_path) + "}\n"@
}

/// Encodes the init handshake.
pub fn encode_init(db_path: &str) -> (line: String)
    ensures
        line@ == init_line(db_path@),
{
    let mut line = "{\"cmd\":\"init\",\"db_path\":".to_owned();
    let quoted = json_quote(db_path);
    push_str(&mut line, quoted.as_str());
    push_str(&mut line, "}\n");
    line
}

/// Encodes the graceful shutdown request.
pub fn encode_shutdown() -> (line: String)
    ensures
        line@ == "{\"cmd\":\"shutdown\"}\n"@,
{
    "{\"cmd\":\"shutdown\"}\n".to_owned()
}

} // verus!
