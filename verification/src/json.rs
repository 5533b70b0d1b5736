//! JSON text of lists of strings, as the site stores the file names of a
//! project's pictures: written with `serde_json::to_string` and read with
//! `serde_json::from_str`.

use vstd::prelude::*;

verus! {

/// A lowercase hexadecimal digit.
pub open spec fn hex_digit(d: nat) -> char {
    if d < 10 {
        crate::numbers::digit_char(d)
    } else if d == 10 { 'a' }
    else if d == 11 { 'b' }
    else if d == 12 { 'c' }
    else if d == 13 { 'd' }
    else if d == 14 { 'e' }
    else { 'f' }
}

/// How one character appears inside a JSON string: `"` and `\` and the
/// control characters below U+0020 are escaped, all others stand as they are.
pub open spec fn json_escape_char(c: char) -> Seq<char> {
    if c == '"' {
        seq!['\\', '"']
    } else if c == '\\' {
        seq!['\\', '\\']
    } else if c == '\u{8}' {
        seq!['\\', 'b']
    } else if c == '\t' {
        seq!['\\', 't']
    } else if c == '\n' {
        seq!['\\', 'n']
    } else if c == '\u{c}' {
        seq!['\\', 'f']
    } else if c == '\r' {
        seq!['\\', 'r']
    } else if (c as u32) < 0x20 {
        seq!['\\', 'u', '0', '0', hex_digit((c as nat) / 16), hex_digit((c as nat) % 16)]
    } else {
        seq![c]
    }
}

/// The escaped body of a JSON string.
pub open spec fn json_escape(s: Seq<char>) -> Seq<char>
    decreases s.len(),
{
    if s.len() == 0 {
        Seq::empty()
    } else {
        json_escape(s.drop_last()) + json_escape_char(s.last())
    }
}

/// A quoted JSON string.
pub open spec fn json_string(s: Seq<char>) -> Seq<char> {
    seq!['"'] + json_escape(s) + seq!['"']
}

/// The quoted strings separated by commas, without spaces.
pub open spec fn json_items(v: Seq<Seq<char>>) -> Seq<char>
    decreases v.len(),
{
    if v.len() == 0 {
        Seq::empty()
    } else if v.len() == 1 {
        json_string(v[0])
    } else {
        json_items(v.drop_last()) + seq![','] + json_string(v.last())
    }
}

/// The compact JSON array of the strings: `[`, the items, `]`.
pub open spec fn json_string_array(v: Seq<Seq<char>>) -> Seq<char> {
    seq!['['] + json_items(v) + seq![']']
}

/// No character of the text needs escaping in JSON.
pub open spec fn plain_json_text(s: Seq<char>) -> bool {
    forall|i: int|
        0 <= i < s.len() ==> (#[trigger] s[i]) != '"' && s[i] != '\\' && (s[i] as u32) >= 0x20
}

/// Such text stands unchanged inside a JSON string.
pub proof fn lemma_plain_text_unescaped(s: Seq<char>)
    requires
        plain_json_text(s),
    ensures
        json_escape(s) == s,
    decreases s.len(),
{
    if s.len() > 0 {
        let c = s.last();
        assert(c == s[s.len() - 1]);
        assert(plain_json_text(s.drop_last())) by {
            assert forall|i: int| 0 <= i < s.drop_last().len() implies (#[trigger] s.drop_last()[i])
                != '"' && s.drop_last()[i] != '\\' && (s.drop_last()[i] as u32) >= 0x20 by {
                assert(s.drop_last()[i] == s[i]);
            }
        }
        lemma_plain_text_unescaped(s.drop_last());
        assert(c != '\u{8}' && c != '\t' && c != '\n' && c != '\u{c}' && c != '\r');
        assert(json_escape(s) =~= s.drop_last() + seq![c]);
        assert(s.drop_last() + seq![c] =~= s);
    }
}

/// What `serde_json::from_str::<Vec<String>>` reads from a text: the strings
/// of the array, or nothing where the text is not a JSON array of strings.
pub uninterp spec fn json_parse_strings(text: Seq<char>) -> Option<Seq<Seq<char>>>;

/// The error that `serde_json` reports.
#[verifier::external_type_specification]
#[verifier::external_body]
pub struct ExJsonError(serde_json::Error);

/// Calls `serde_json::to_string` on a list of strings. Its serializer writes
/// `[`, then each string quoted and escaped (`"` and `\` and characters
/// below U+0020, the latter as `\b \t \n \f \r` or `\u00xx`), separated by
/// commas, then `]`; serializing strings never fails.
#[verifier::external_body]
pub(crate) fn encode_string_array(items: &Vec<String>) -> (res: String)
    ensures
        res@ == json_string_array(items.deep_view()),
{
    serde_json::to_string(items).unwrap()
}

/// Calls `serde_json::from_str::<Vec<String>>`. It succeeds exactly where the
/// named result is present, and then yields those strings; what it accepts
/// is not spelled out here.
#[verifier::external_body]
pub(crate) fn decode_string_array(text: &str) -> (res: Result<Vec<String>, serde_json::Error>)
    ensures
        res is Ok <==> json_parse_strings(text@) is Some,
        res matches Ok(v) ==> v.deep_view() == json_parse_strings(text@)->0,
{
    serde_json::from_str::<Vec<String>>(text)
}

} // verus!
