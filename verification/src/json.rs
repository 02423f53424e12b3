//! JSON text as `serde_json` writes it compactly: strings escaped by
//! `serde_json`, objects with their keys in sorted order (its `Map` is a
//! `BTreeMap`), arrays, booleans and `null`.

use vstd::prelude::*;

use crate::markdown::flat_map_chars;
use crate::text::{chars_of, extend_chars, extend_str, join, join_chars, string_of, views};

verus! {

/// A lower-case hexadecimal digit for `d < 16`.
pub open spec fn hex_lower(d: int) -> char {
    if d < 10 {
        ((d + 48) as u8) as char
    } else {
        ((d + 87) as u8) as char
    }
}

/// How `serde_json` writes one character inside a string: `"` and `\` and
/// the control characters with a short escape get it, the other control
/// characters are written `\u00XX`, everything else stands as it is.
pub open spec fn json_escape_char(c: char) -> Seq<char> {
    if c == '"' {
        seq!['\\', '"']
    } else if c == '\\' {
        seq!['\\', '\\']
    } else if c == '\u{8}' {
        seq!['\\', 'b']
    } else if c == '\t' {
        seq!['\\', 't']
    } else if c == '\n' {
        seq!['\\', 'n']
    } else if c == '\u{c}' {
        seq!['\\', 'f']
    } else if c == '\r' {
        seq!['\\', 'r']
    } else if (c as u32) < 0x20 {
        seq![
            '\\',
            'u',
            '0',
            '0',
            hex_lower((c as u32 / 16) as int),
            hex_lower((c as u32 % 16) as int),
        ]
    } else {
        seq![c]
    }
}

/// A JSON string literal for `s`.
pub open spec fn json_string_spec(s: Seq<char>) -> Seq<char> {
    seq!['"'] + flat_map_chars(s, |c: char| json_escape_char(c)) + seq!['"']
}

/// `serde_json::Value::String(s)` written with `Value::to_string`: the
/// string between double quotes, escaped as the crate's `ESCAPE` table and
/// `write_char_escape` (ser.rs) do, which is what `json_string_spec` states.
#[verifier::external_body]
pub(crate) fn json_string(s: &str) -> (r: String)
    ensures
        r@ == json_string_spec(s@),
{
    serde_json::Value::String(s.to_owned()).to_string()
}

/// One member of an object: the key as a string, `:`, the value's text.
pub open spec fn member_text(m: (Seq<char>, Seq<char>)) -> Seq<char> {
    json_string_spec(m.0) + seq![':'] + m.1
}

/// A JSON object with the given members, keys and value texts, in the
/// given order.
pub open spec fn json_object_spec(members: Seq<(Seq<char>, Seq<char>)>) -> Seq<char> {
    seq!['{'] + join(members.map_values(|m: (Seq<char>, Seq<char>)| member_text(m)), seq![','])
        + seq!['}']
}

/// A JSON array of the given value texts.
pub open spec fn json_array_spec(items: Seq<Seq<char>>) -> Seq<char> {
    seq!['['] + join(items, seq![',']) + seq![']']
}

/// `true` or `false`.
pub open spec fn json_bool_spec(b: bool) -> Seq<char> {
    if b {
        "true"@
    } else {
        "false"@
    }
}

/// The texts of the members.
pub open spec fn member_views(v: Seq<(String, String)>) -> Seq<(Seq<char>, Seq<char>)> {
    v.map_values(|m: (String, String)| (m.0@, m.1@))
}

/// A JSON object from members whose keys the caller gives in sorted order,
/// as `serde_json` writes them; each value is already JSON text.
pub fn json_object(members: &Vec<(String, String)>) -> (r: String)
    ensures
        r@ == json_object_spec(member_views(members@)),
{
    let ghost mv = member_views(members@);
    let mut texts: Vec<Vec<char>> = Vec::new();
    let mut i: usize = 0;
    while i < members.len()
        invariant
            i <= members@.len(),
            mv == member_views(members@),
            views(texts@) =~= mv.map_values(|m: (Seq<char>, Seq<char>)| member_text(m)).take(
                i as int,
            ),
        decreases members@.len() - i,
    {
        let key = json_string(members[i].0.as_str());
        let mut t = chars_of(key.as_str());
        t.push(':');
        extend_str(&mut t, members[i].1.as_str());
        proof {
            assert(members[i as int] == members@[i as int]);
            assert(t@ =~= json_string_spec(members@[i as int].0@) + seq![':'] + members@[
                i as int
            ].1@);
        }
        let ghost before = views(texts@);
        texts.push(t);
        proof {
            assert(mv[i as int] == (members@[i as int].0@, members@[i as int].1@));
            assert(views(texts@) =~= before.push(member_text(mv[i as int])));
            assert(mv.map_values(|m: (Seq<char>, Seq<char>)| member_text(m)).take(i + 1)
                =~= mv.map_values(|m: (Seq<char>, Seq<char>)| member_text(m)).take(
                i as int,
            ).push(member_text(mv[i as int])));
        }
        i = i + 1;
    }
    proof {
        assert(mv.map_values(|m: (Seq<char>, Seq<char>)| member_text(m)).take(i as int)
            =~= mv.map_values(|m: (Seq<char>, Seq<char>)| member_text(m)));
    }
    let mut comma: Vec<char> = Vec::new();
    comma.push(',');
    let mut out: Vec<char> = Vec::new();
    out.push('{');
    extend_chars(&mut out, &join_chars(&texts, &comma));
    out.push('}');
    proof {
        assert(out@ =~= json_object_spec(mv));
    }
    string_of(&out)
}

/// A JSON array of value texts.
pub fn json_array(items: &Vec<Vec<char>>) -> (r: String)
    ensures
        r@ == json_array_spec(views(items@)),
{
    let mut comma: Vec<char> = Vec::new();
    comma.push(',');
    let mut out: Vec<char> = Vec::new();
    out.push('[');
    extend_chars(&mut out, &join_chars(items, &comma));
    out.push(']');
    proof {
        assert(out@ =~= json_array_spec(views(items@)));
    }
    string_of(&out)
}

/// `true` or `false` as JSON.
pub fn json_bool(b: bool) -> (r: String)
    ensures
        r@ == json_bool_spec(b),
{
    if b {
        "true".to_owned()
    } else {
        "false".to_owned()
    }
}

} // verus!
