//! The JSON that the desktop and the phone exchange: quoting a string into a JSON string
//! literal, and reading the string members of a received JSON object.

use vstd::prelude::*;

verus! {

/// Lower-case hexadecimal digit for a value below sixteen.
pub open spec fn hex_digit(d: nat) -> char {
    if d < 10 {
        (d + 48) as char
    } else {
        (d + 87) as char
    }
}

/// How a JSON string literal writes one character: `"` and `\` and the control characters
/// below U+0020 are escaped, everything else stands as it is.
pub open spec fn json_escape_char(c: char) -> Seq<char> {
    if c == '"' {
        seq!['\\', '"']
    } else if c == '\\' {
        seq!['\\', '\\']
    } else if c == '\u{8}' {
        seq!['\\', 'b']
    } else if c == '\t' {
        seq!['\\', 't']
    } else if c == '\n' {
        seq!['\\', 'n']
    } else if c == '\u{c}' {
        seq!['\\', 'f']
    } else if c == '\r' {
        seq!['\\', 'r']
    } else if (c as nat) < 0x20 {
        seq!['\\', 'u', '0', '0', hex_digit((c as nat) / 16), hex_digit((c as nat) % 16)]
    } else {
        seq![c]
    }
}

/// The escaped body of a JSON string literal for `s`.
pub open spec fn json_escape(s: Seq<char>) -> Seq<char>
    decreases s.len(),
{
    if s.len() == 0 {
        Seq::empty()
    } else {
        json_escape(s.drop_last()) + json_escape_char(s.last())
    }
}

/// The JSON string literal for `s`, quotes included.
pub open spec fn json_quoted(s: Seq<char>) -> Seq<char> {
    seq!['"'] + json_escape(s) + seq!['"']
}

/// The compact JSON text of `serde_json::Value::String(s)` (its `Display`). Claimed of it,
/// as `format_escaped_str` and its `ESCAPE` table in serde_json's `ser.rs` write it: a quote,
/// each character escaped as `json_escape_char` says, a quote.
#[verifier::external_body]
pub fn json_quote(s: &str) -> (r: String)
    ensures
        r@ == json_quoted(s@),
{
    serde_json::Value::String(s.to_string()).to_string()
}

/// What reading `text` as JSON gives at each of `keys`: `None` when `text` is not JSON;
/// otherwise, per key, the string that the top-level object holds under it, or `None`
/// where the value is not an object, has no such member, or the member is not a string.
pub uninterp spec fn json_string_members(text: Seq<char>, keys: Seq<Seq<char>>) -> Option<
    Seq<Option<Seq<char>>>,
>;

/// `serde_json::from_str::<serde_json::Value>` on `text`, then `Value::get` and
/// `Value::as_str` for each key. Claimed of it: the result, read by its views, is
/// `json_string_members(text, keys)`, with one entry per key.
#[verifier::external_body]
pub fn read_string_members(text: &str, keys: &Vec<&str>) -> (r: Option<Vec<Option<String>>>)
    ensures
        r.deep_view() == json_string_members(text@, keys.deep_view()),
        r matches Some(v) ==> v.len() == keys.len(),
{
    let value: serde_json::Value = serde_json::from_str(text).ok()?;
    Some(keys.iter().map(|k| value.get(*k).and_then(|m| m.as_str()).map(|m| m.to_string())).collect())
}

} // verus!
