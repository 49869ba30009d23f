//! Live-preview messages.

use vstd::prelude::*;
use crate::text::{decimal, decimal_text};

verus! {

/// A hexadecimal digit, in lower case.
pub open spec fn hex_digit(n: int) -> char {
    if n < 10 {
        ('0' as int + n) as char
    } else {
        ('a' as int + n - 10) as char
    }
}

/// A character as it stands inside a JSON string.
pub open spec fn json_char(c: char) -> Seq<char> {
    if c == '"' {
        seq!['\\', '"']
    } else if c == '\\' {
        seq!['\\', '\\']
    } else if c as int == 0x08 {
        seq!['\\', 'b']
    } else if c as int == 0x09 {
        seq!['\\', 't']
    } else if c as int == 0x0a {
        seq!['\\', 'n']
    } else if c as int == 0x0c {
        seq!['\\', 'f']
    } else if c as int == 0x0d {
        seq!['\\', 'r']
    } else if (c as int) < 0x20 {
        seq!['\\', 'u', '0', '0', hex_digit(c as int / 16), hex_digit(c as int % 16)]
    } else {
        seq![c]
    }
}

/// The characters of `s` as they stand inside a JSON string.
pub open spec fn json_escaped(s: Seq<char>) -> Seq<char>
    decreases s.len(),
{
    if s.len() == 0 {
        Seq::empty()
    } else {
        json_escaped(s.drop_last()) + json_char(s.last())
    }
}

/// `s` as a JSON string.
pub open spec fn json_string(s: Seq<char>) -> Seq<char> {
    seq!['"'] + json_escaped(s) + seq!['"']
}

/// `serde_json::Value`'s `Display`, on a string value: the text in double
/// quotes, in which a double quote, a backslash and every control character
/// below U+0020 are escaped (the five that have one by their short form, the
/// others as `\u00xx` in lower case) and nothing else is.
#[verifier::external_body]
fn json_text(s: &str) -> (r: String)
    ensures
        r@ == json_string(s@),
{
    serde_json::Value::from(s).to_string()
}

/// The message that tells viewers that preview chunks of the region were
/// cleared.
pub open spec fn preview_text(dim_key: Seq<char>, rx: int, rz: int, seq: int) -> Seq<char> {
    "{\"dim\":"@ + json_string(dim_key) + ",\"regions\":[["@ + decimal_text(rx) + ","@
        + decimal_text(rz) + "]],\"type\":\"preview\",\"v\":"@ + decimal_text(seq) + "}"@
}

/// The message that tells viewers that preview chunks of the region were
/// cleared; `seq` numbers it among the live messages.
pub fn preview_message(dim_key: &str, rx: i32, rz: i32, seq: u64) -> (r: String)
    ensures
        r@ == preview_text(dim_key@, rx as int, rz as int, seq as int),
{
    let mut out = "{\"dim\":".to_owned();
    out.append(json_text(dim_key).as_str());
    out.append(",\"regions\":[[");
    out.append(decimal(rx as i128).as_str());
    out.append(",");
    out.append(decimal(rz as i128).as_str());
    out.append("]],\"type\":\"preview\",\"v\":");
    out.append(decimal(seq as i128).as_str());
    out.append("}");
    out
}

/// The message is a JSON object with the dimension, the one region, its type
/// and its number.
pub proof fn law_preview_message_is_json(dim_key: Seq<char>, rx: int, rz: int, seq: int)
    ensures
        preview_text(dim_key, rx, rz, seq) == "{\"dim\":"@ + json_string(dim_key)
            + ",\"regions\":[["@ + decimal_text(rx) + ","@ + decimal_text(rz)
            + "]],\"type\":\"preview\",\"v\":"@ + decimal_text(seq) + "}"@,
{
}

} // verus!
