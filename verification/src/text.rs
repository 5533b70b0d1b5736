//! Byte-indexed string slicing, as `&s[a..b]` does it, with the
//! conditions under which it does not panic.

use vstd::prelude::*;
use vstd::utf8::*;
use vstd::string::*;

verus! {

broadcast use {encode_utf8_valid_utf8, encode_utf8_decode_utf8};

/// The UTF-8 bytes of a character sequence.
pub open spec fn utf8(s: Seq<char>) -> Seq<u8> {
    encode_utf8(s)
}

/// Whether byte offset `i` starts a character of `s` (or is its end).
pub open spec fn boundary(s: Seq<char>, i: int) -> bool {
    is_char_boundary(utf8(s), i)
}

/// The characters held in bytes `from..to` of `s`.
pub open spec fn byte_range(s: Seq<char>, from: int, to: int) -> Seq<char> {
    decode_utf8(utf8(s).subrange(from, to))
}

/// The characters from byte `from` to the end of `s`.
pub open spec fn byte_suffix(s: Seq<char>, from: int) -> Seq<char> {
    byte_range(s, from, utf8(s).len() as int)
}

/// A boundary lies within the byte sequence.
pub proof fn lemma_boundary_in_range(b: Seq<u8>, i: int)
    requires
        valid_utf8(b),
        is_char_boundary(b, i),
    ensures
        0 <= i <= b.len(),
    decreases b.len(),
{
    if i != 0 {
        assert(valid_first_scalar(b) && valid_utf8(pop_first_scalar(b)));
    }
}

/// Two boundaries `i <= j` of `b`: `j - i` is a boundary of the bytes from `i` on.
pub proof fn lemma_boundary_of_suffix(b: Seq<u8>, i: int, j: int)
    requires
        valid_utf8(b),
        is_char_boundary(b, i),
        is_char_boundary(b, j),
        i <= j,
    ensures
        valid_utf8(b.subrange(i, b.len() as int)),
        is_char_boundary(b.subrange(i, b.len() as int), j - i),
    decreases b.len(),
{
    lemma_boundary_in_range(b, i);
    lemma_boundary_in_range(b, j);
    valid_utf8_split(b, i);
    if i == 0 {
        assert(b.subrange(0, b.len() as int) =~= b);
    } else {
        reveal_with_fuel(is_char_boundary, 2);
        let l = length_of_first_scalar(b);
        let p = pop_first_scalar(b);
        assert(valid_first_scalar(b) && valid_utf8(p));
        lemma_boundary_in_range(p, i - l);
        lemma_boundary_of_suffix(p, i - l, j - l);
        assert(p.subrange(i - l, p.len() as int) =~= b.subrange(i, b.len() as int));
    }
}

/// The bytes of a concatenation are the concatenated bytes.
pub proof fn lemma_utf8_concat(a: Seq<char>, b: Seq<char>)
    ensures
        utf8(a + b) == utf8(a) + utf8(b),
    decreases a.len(),
{
    if a.len() == 0 {
        assert(a + b =~= b);
        assert(utf8(a) =~= Seq::<u8>::empty());
        assert(utf8(a) + utf8(b) =~= utf8(b));
    } else {
        let c = a + b;
        assert(c[0] == a[0]);
        assert(c.drop_first() =~= a.drop_first() + b);
        lemma_utf8_concat(a.drop_first(), b);
        assert(utf8(c) =~= utf8(a) + utf8(b));
    }
}

/// Where the bytes of a prefix end, a character starts.
pub proof fn lemma_boundary_after_prefix(a: Seq<char>, b: Seq<char>)
    ensures
        boundary(a + b, utf8(a).len() as int),
    decreases a.len(),
{
    if a.len() > 0 {
        let c = a + b;
        let bytes = utf8(c);
        encode_utf8_first_scalar(c);
        assert(pop_first_scalar(bytes) =~= encode_utf8(c.drop_first()));
        assert(c[0] == a[0]);
        assert(c.drop_first() =~= a.drop_first() + b);
        lemma_boundary_after_prefix(a.drop_first(), b);
        lemma_utf8_concat(a, b);
        assert(utf8(a) =~= encode_scalar(a[0] as u32) + utf8(a.drop_first()));
    }
}

/// In an ASCII text each character is one byte: every offset up to the
/// length is a boundary, and byte ranges are character ranges.
pub proof fn lemma_ascii_slices(s: Seq<char>, i: int, j: int)
    requires
        is_ascii_chars(s),
        0 <= i <= j <= s.len(),
    ensures
        utf8(s).len() == s.len(),
        boundary(s, i),
        boundary(s, j),
        byte_range(s, i, j) == s.subrange(i, j),
{
    let p = s.subrange(0, i);
    let m = s.subrange(i, j);
    let q = s.subrange(j, s.len() as int);
    assert(s =~= p + (m + q));
    assert(s =~= (p + m) + q);
    assert forall|k: int| 0 <= k < p.len() implies '\0' <= #[trigger] p[k] <= '\u{7f}' by {
        assert(p[k] == s[k]);
    }
    assert forall|k: int| 0 <= k < m.len() implies '\0' <= #[trigger] m[k] <= '\u{7f}' by {
        assert(m[k] == s[i + k]);
    }
    assert forall|k: int| 0 <= k < (p + m).len() implies '\0' <= #[trigger] (p + m)[k] <= '\u{7f}' by {
        assert((p + m)[k] == s[k]);
    }
    is_ascii_chars_encode_utf8(s);
    is_ascii_chars_encode_utf8(p);
    is_ascii_chars_encode_utf8(m);
    is_ascii_chars_encode_utf8(p + m);
    lemma_boundary_after_prefix(p, m + q);
    lemma_boundary_after_prefix(p + m, q);
    lemma_utf8_concat(p, m + q);
    lemma_utf8_concat(m, q);
    assert(utf8(s).subrange(i, j) =~= utf8(m));
}

/// `s` split at byte offset `mid`, as `s.split_at(mid)` does it.
pub fn split_at_byte(s: &str, mid: usize) -> (res: (&str, &str))
    requires
        boundary(s@, mid as int),
    ensures
        res.0@ == byte_range(s@, 0, mid as int),
        res.1@ == byte_suffix(s@, mid as int),
        utf8(res.0@) == utf8(s@).subrange(0, mid as int),
        utf8(res.1@) == utf8(s@).subrange(mid as int, utf8(s@).len() as int),
{
    let res = s.split_at(mid);
    proof {
        assert(decode_utf8(encode_utf8(res.0@)) == res.0@);
        assert(decode_utf8(encode_utf8(res.1@)) == res.1@);
    }
    res
}

/// Whether two texts are equal, compared byte by byte.
pub fn text_eq(a: &str, b: &str) -> (res: bool)
    ensures
        res == (a@ == b@),
{
    let x = a.as_bytes();
    let y = b.as_bytes();
    proof {
        assert(decode_utf8(encode_utf8(a@)) == a@);
        assert(decode_utf8(encode_utf8(b@)) == b@);
    }
    if x.len() != y.len() {
        return false;
    }
    let mut i: usize = 0;
    while i < x.len()
        invariant
            x@ == utf8(a@),
            y@ == utf8(b@),
            x@.len() == y@.len(),
            i <= x@.len(),
            forall|k: int| 0 <= k < i ==> x@[k] == y@[k],
        decreases x@.len() - i,
    {
        if x[i] != y[i] {
            return false;
        }
        i = i + 1;
    }
    proof {
        assert(x@ =~= y@);
    }
    true
}

/// Formats a compact date `YYYYMMDD` as `YYYY.MM.DD`: the bytes before
/// offset 4, a dot, the bytes from 4 to 6, a dot, and the rest.
/// Slicing at offsets 4 and 6 must fall on character boundaries.
pub fn format_date(date: &String) -> (res: String)
    requires
        boundary(date@, 4),
        boundary(date@, 6),
    ensures
        res@ == byte_range(date@, 0, 4) + seq!['.'] + byte_range(date@, 4, 6) + seq!['.']
            + byte_suffix(date@, 6),
{
    let s = date.as_str();
    let (year, rest) = split_at_byte(s, 4);
    proof {
        lemma_boundary_of_suffix(utf8(s@), 4, 6);
    }
    let (month, day) = split_at_byte(rest, 2);
    proof {
        let b = utf8(s@);
        lemma_boundary_in_range(b, 6);
        assert(utf8(rest@).subrange(0, 2) =~= b.subrange(4, 6));
        assert(utf8(rest@).subrange(2, utf8(rest@).len() as int) =~= b.subrange(6, b.len() as int));
        reveal_strlit(".");
    }
    let mut out = year.to_owned();
    out.append(".");
    out.append(month);
    out.append(".");
    out.append(day);
    out
}

/// For an ASCII date text of at least six characters, `format_date` puts a
/// dot after the fourth and after the sixth character.
pub proof fn law_format_ascii_date(s: Seq<char>)
    requires
        is_ascii_chars(s),
        s.len() >= 6,
    ensures
        boundary(s, 4),
        boundary(s, 6),
        byte_range(s, 0, 4) + seq!['.'] + byte_range(s, 4, 6) + seq!['.'] + byte_suffix(s, 6)
            == s.subrange(0, 4) + seq!['.'] + s.subrange(4, 6) + seq!['.'] + s.subrange(
            6,
            s.len() as int,
        ),
{
    lemma_ascii_slices(s, 0, 4);
    lemma_ascii_slices(s, 4, 6);
    lemma_ascii_slices(s, 6, s.len() as int);
}

} // verus!
