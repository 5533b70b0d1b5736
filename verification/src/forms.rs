//! Multipart form handling: the text fields of a submitted form, the names
//! of the files uploaded with it, and what the admin pages read back.

use vstd::prelude::*;
use vstd::utf8::*;
use crate::json::{encode_string_array, json_string_array, json_string, json_items, plain_json_text, lemma_plain_text_unescaped};
use crate::text::{boundary, byte_range, split_at_byte, utf8, lemma_boundary_after_prefix, lemma_utf8_concat};

verus! {

broadcast use {encode_utf8_valid_utf8, encode_utf8_decode_utf8};

/// The text fields of a form, by name. A later insert under the same name
/// replaces the earlier value.
pub struct FormFields {
    entries: Vec<(String, String)>,
}

/// `i` is the first position that holds `key`.
pub open spec fn is_first(e: Seq<(String, String)>, key: Seq<char>, i: int) -> bool {
    &&& 0 <= i < e.len()
    &&& e[i].0@ == key
    &&& forall|j: int| 0 <= j < i ==> (#[trigger] e[j]).0@ != key
}

pub open spec fn holds_key(e: Seq<(String, String)>, key: Seq<char>) -> bool {
    exists|i: int| 0 <= i < e.len() && (#[trigger] e[i]).0@ == key
}

/// The fields as a map from name to value, each name taken at its first position.
pub open spec fn entries_map(e: Seq<(String, String)>) -> Map<Seq<char>, Seq<char>> {
    Map::new(
        |k: Seq<char>| holds_key(e, k),
        |k: Seq<char>| e[choose|i: int| is_first(e, k, i)].1@,
    )
}

proof fn lemma_first_exists(e: Seq<(String, String)>, key: Seq<char>, i: int)
    requires
        0 <= i < e.len(),
        e[i].0@ == key,
    ensures
        exists|f: int| is_first(e, key, f),
    decreases i,
{
    if exists|j: int| 0 <= j < i && (#[trigger] e[j]).0@ == key {
        let j = choose|j: int| 0 <= j < i && (#[trigger] e[j]).0@ == key;
        lemma_first_exists(e, key, j);
    } else {
        assert(is_first(e, key, i));
    }
}

proof fn lemma_first_unique(e: Seq<(String, String)>, key: Seq<char>, i: int, j: int)
    requires
        is_first(e, key, i),
        is_first(e, key, j),
    ensures
        i == j,
{
    if i < j {
        assert(e[i].0@ != key);
    }
    if j < i {
        assert(e[j].0@ != key);
    }
}

proof fn lemma_value_at_first(e: Seq<(String, String)>, key: Seq<char>, i: int)
    requires
        is_first(e, key, i),
    ensures
        entries_map(e).contains_key(key),
        entries_map(e)[key] == e[i].1@,
{
    let f = choose|f: int| is_first(e, key, f);
    lemma_first_unique(e, key, i, f);
}

impl View for FormFields {
    type V = Map<Seq<char>, Seq<char>>;

    closed spec fn view(&self) -> Self::V {
        entries_map(self.entries@)
    }
}

impl FormFields {
    /// A form with no fields.
    pub fn new() -> (res: FormFields)
        ensures
            res@ == Map::<Seq<char>, Seq<char>>::empty(),
    {
        let res = FormFields { entries: Vec::new() };
        proof {
            assert(res@ =~= Map::<Seq<char>, Seq<char>>::empty());
        }
        res
    }

    fn position(&self, key: &str) -> (res: Option<usize>)
        ensures
            res matches Some(i) ==> is_first(self.entries@, key@, i as int),
            res is None ==> !holds_key(self.entries@, key@),
    {
        let mut i: usize = 0;
        while i < self.entries.len()
            invariant
                i <= self.entries@.len(),
                forall|j: int| 0 <= j < i ==> (#[trigger] self.entries@[j]).0@ != key@,
            decreases self.entries@.len() - i,
        {
            if crate::text::text_eq(self.entries[i].0.as_str(), key) {
                return Some(i);
            }
            i = i + 1;
        }
        None
    }

    /// The value of a field, as `HashMap::get` finds it.
    pub fn get(&self, key: &str) -> (res: Option<&String>)
        ensures
            res is Some <==> self@.contains_key(key@),
            res matches Some(v) ==> v@ == self@[key@],
    {
        match self.position(key) {
            Some(i) => {
                proof {
                    lemma_value_at_first(self.entries@, key@, i as int);
                }
                Some(&self.entries[i].1)
            },
            None => None,
        }
    }

    /// Sets a field, replacing any earlier value under that name.
    pub fn insert(&mut self, key: String, value: String)
        ensures
            final(self)@ == old(self)@.insert(key@, value@),
    {
        let ghost e = self.entries@;
        let ghost k = key@;
        let ghost v = value@;
        match self.position(key.as_str()) {
            Some(i) => {
                self.entries.set(i, (key, value));
                proof {
                    let e2 = self.entries@;
                    assert(e2 == e.update(i as int, e2[i as int]));
                    assert(is_first(e2, k, i as int));
                    lemma_value_at_first(e2, k, i as int);
                    assert forall|q: Seq<char>| q != k implies (holds_key(e2, q) == holds_key(e, q)) by {
                        if holds_key(e, q) {
                            let w = choose|w: int| 0 <= w < e.len() && (#[trigger] e[w]).0@ == q;
                            assert(e2[w] == e[w]);
                        }
                        if holds_key(e2, q) {
                            let w = choose|w: int| 0 <= w < e2.len() && (#[trigger] e2[w]).0@ == q;
                            assert(e2[w] == e[w]);
                        }
                    }
                    assert forall|q: Seq<char>| q != k && holds_key(e, q) implies entries_map(e2)[q]
                        == entries_map(e)[q] by {
                        let w = choose|w: int| 0 <= w < e.len() && (#[trigger] e[w]).0@ == q;
                        lemma_first_exists(e, q, w);
                        let f = choose|f: int| is_first(e, q, f);
                        assert(f != i);
                        assert forall|j: int| 0 <= j < f implies (#[trigger] e2[j]).0@ != q by {
                            assert(e2[j].0@ == e[j].0@);
                        }
                        assert(is_first(e2, q, f));
                        lemma_value_at_first(e, q, f);
                        lemma_value_at_first(e2, q, f);
                    }
                    assert(entries_map(e2) =~= entries_map(e).insert(k, v));
                }
            },
            None => {
                self.entries.push((key, value));
                proof {
                    let e2 = self.entries@;
                    let n = e.len() as int;
                    assert(e2[n].0@ == k);
                    assert forall|j: int| 0 <= j < n implies (#[trigger] e2[j]).0@ != k by {
                        assert(e2[j] == e[j]);
                    }
                    assert(is_first(e2, k, n));
                    lemma_value_at_first(e2, k, n);
                    assert forall|q: Seq<char>| q != k implies (holds_key(e2, q) == holds_key(e, q)) by {
                        if holds_key(e, q) {
                            let w = choose|w: int| 0 <= w < e.len() && (#[trigger] e[w]).0@ == q;
                            assert(e2[w] == e[w]);
                        }
                        if holds_key(e2, q) {
                            let w = choose|w: int| 0 <= w < e2.len() && (#[trigger] e2[w]).0@ == q;
                            assert(e2[w] == e[w]);
                        }
                    }
                    assert forall|q: Seq<char>| q != k && holds_key(e, q) implies entries_map(e2)[q]
                        == entries_map(e)[q] by {
                        let w = choose|w: int| 0 <= w < e.len() && (#[trigger] e[w]).0@ == q;
                        lemma_first_exists(e, q, w);
                        let f = choose|f: int| is_first(e, q, f);
                        assert forall|j: int| 0 <= j < f implies (#[trigger] e2[j]).0@ != q by {
                            assert(e2[j] == e[j]);
                        }
                        assert(e2[f] == e[f]);
                        assert(is_first(e2, q, f));
                        lemma_value_at_first(e, q, f);
                        lemma_value_at_first(e2, q, f);
                    }
                    assert(entries_map(e2) =~= entries_map(e).insert(k, v));
                }
            },
        }
    }
}

/// A field reads back the value last set under its name.
pub proof fn law_form_field_read_after_write(
    before: Map<Seq<char>, Seq<char>>,
    key: Seq<char>,
    value: Seq<char>,
    other: Seq<char>,
)
    requires
        other != key,
    ensures
        before.insert(key, value).contains_key(key),
        before.insert(key, value)[key] == value,
        before.insert(key, value).contains_key(other) == before.contains_key(other),
        before.contains_key(other) ==> before.insert(key, value)[other] == before[other],
{
}

/// The parts of a multipart field's `Content-Disposition` header that the
/// site reads: the field name and, for an uploaded file, its file name.
pub struct Disposition {
    pub name: Option<String>,
    pub filename: Option<String>,
}

/// The name of a field, or `unknown` where it has none.
pub open spec fn field_name_of(cd: Option<Disposition>) -> Seq<char> {
    match cd {
        Some(d) => match d.name {
            Some(n) => n@,
            None => "unknown"@,
        },
        None => "unknown"@,
    }
}

/// The file name of an uploaded field, or `default_filename` where it has none.
pub open spec fn file_name_of(d: Disposition) -> Seq<char> {
    match d.filename {
        Some(f) => f@,
        None => "default_filename"@,
    }
}

/// The name of a form field, as given in its content disposition.
pub fn return_fieldnames(content_disposition: &Option<Disposition>) -> (res: String)
    ensures
        res@ == field_name_of(*content_disposition),
{
    match content_disposition {
        Some(d) => match &d.name {
            Some(n) => n.clone(),
            None => "unknown".to_owned(),
        },
        None => "unknown".to_owned(),
    }
}

/// The file name of an uploaded file, as given in its content disposition;
/// the field must have a content disposition.
pub fn return_filename(content_disposition: Option<Disposition>) -> (res: String)
    requires
        content_disposition is Some,
    ensures
        res@ == file_name_of(content_disposition->0),
        content_disposition->0.filename is Some ==> res == content_disposition->0.filename->0,
{
    match content_disposition {
        Some(d) => match d.filename {
            Some(f) => f,
            None => "default_filename".to_owned(),
        },
        None => "default_filename".to_owned(),
    }
}

/// What to do with the next part of a multipart upload.
pub enum FieldAction {
    /// A part without a content disposition is passed over.
    Skip,
    /// Store the part's bytes as a file of this name in the upload folder.
    SaveFile(String),
    /// Read the part's bytes as the text value of the field of this name.
    ReadText(String),
}

/// What `String::from_utf8_lossy` makes of a byte sequence.
pub uninterp spec fn utf8_lossy(bytes: Seq<u8>) -> Seq<char>;

/// Calls `String::from_utf8_lossy`: valid UTF-8 is decoded as it is; other
/// input has its invalid sequences replaced, which is not spelled out here.
#[verifier::external_body]
fn lossy_text(bytes: &[u8]) -> (res: String)
    ensures
        res@ == utf8_lossy(bytes@),
        valid_utf8(bytes@) ==> res@ == decode_utf8(bytes@),
{
    String::from_utf8_lossy(bytes).to_string()
}

/// Collects a multipart form part by part: the names of the uploaded files
/// in order of arrival, and the text fields.
pub struct MultiformCollector {
    pub filenames: Vec<String>,
    pub fields: FormFields,
}

impl MultiformCollector {
    /// Nothing collected yet.
    pub fn new() -> (res: MultiformCollector)
        ensures
            res.filenames@.len() == 0,
            res.fields@ == Map::<Seq<char>, Seq<char>>::empty(),
    {
        MultiformCollector { filenames: Vec::new(), fields: FormFields::new() }
    }

    /// Decides what to do with a part: a part with a file name is an upload,
    /// whose name is recorded; a part without one is a text field.
    pub fn on_field(&mut self, content_disposition: Option<Disposition>) -> (res: FieldAction)
        ensures
            final(self).fields@ == old(self).fields@,
            content_disposition is None ==> res is Skip && final(self).filenames@ == old(
                self,
            ).filenames@,
            content_disposition is Some && content_disposition->0.filename is Some ==> res
                == FieldAction::SaveFile(content_disposition->0.filename->0) && final(self).filenames@
                == old(self).filenames@.push(content_disposition->0.filename->0),
            content_disposition is Some && content_disposition->0.filename is None ==> (res matches FieldAction::ReadText(
                n,
            ) && n@ == field_name_of(content_disposition)) && final(self).filenames@ == old(
                self,
            ).filenames@,
    {
        if content_disposition.is_none() {
            return FieldAction::Skip;
        }
        let has_file = match &content_disposition {
            Some(d) => d.filename.is_some(),
            None => false,
        };
        if has_file {
            let f = return_filename(content_disposition);
            self.filenames.push(f.clone());
            FieldAction::SaveFile(f)
        } else {
            FieldAction::ReadText(return_fieldnames(&content_disposition))
        }
    }

    /// Records the text of a field, read from the bytes the client sent.
    pub fn on_text(&mut self, name: String, data: &[u8])
        ensures
            final(self).filenames@ == old(self).filenames@,
            final(self).fields@ == old(self).fields@.insert(name@, utf8_lossy(data@)),
            valid_utf8(data@) ==> final(self).fields@ == old(self).fields@.insert(
                name@,
                decode_utf8(data@),
            ),
    {
        let text = lossy_text(data);
        self.fields.insert(name, text);
    }

    /// The collected fields, with the uploaded file names under `filenames`
    /// as a JSON array.
    pub fn finish(self) -> (res: FormFields)
        ensures
            res@ == self.fields@.insert("filenames"@, json_string_array(self.filenames.deep_view())),
    {
        let mut fields = self.fields;
        let list = encode_string_array(&self.filenames);
        fields.insert("filenames".to_owned(), list);
        fields
    }
}

/// Whether `&s[2..s.len() - 2]` is defined: at least four bytes, and both
/// offsets on character boundaries.
pub open spec fn inner_slice_ok(s: Seq<char>) -> bool {
    &&& utf8(s).len() >= 4
    &&& boundary(s, 2)
    &&& boundary(s, utf8(s).len() - 2)
}

/// The single file name out of a one-element JSON list such as `["a.jpg"]`:
/// the text without its first two and last two bytes, or `None` where
/// that slice is not defined.
pub fn single_file_name(filenames: &str) -> (res: Option<String>)
    ensures
        res is Some <==> inner_slice_ok(filenames@),
        res matches Some(n) ==> n@ == byte_range(filenames@, 2, utf8(filenames@).len() - 2),
{
    let n = filenames.as_bytes().len();
    if n < 4 {
        return None;
    }
    if !filenames.is_char_boundary(2) || !filenames.is_char_boundary(n - 2) {
        return None;
    }
    let (_, rest) = split_at_byte(filenames, 2);
    proof {
        crate::text::lemma_boundary_of_suffix(utf8(filenames@), 2, (n - 2) as int);
    }
    let (inner, _) = split_at_byte(rest, n - 4);
    proof {
        let b = utf8(filenames@);
        assert(utf8(rest@).subrange(0, (n - 4) as int) =~= b.subrange(2, (n - 2) as int));
    }
    Some(inner.to_owned())
}

/// A form that carried exactly one file, whose name needs no escaping in
/// JSON, gives that name back when the single file name is read out of its
/// `filenames` field.
pub proof fn law_single_upload_name_round_trip(name: Seq<char>)
    requires
        plain_json_text(name),
    ensures
        inner_slice_ok(json_string_array(seq![name])),
        byte_range(
            json_string_array(seq![name]),
            2,
            utf8(json_string_array(seq![name])).len() - 2,
        ) == name,
{
    let t = json_string_array(seq![name]);
    lemma_plain_text_unescaped(name);
    let a = seq!['[', '"'];
    let c = seq!['"', ']'];
    assert(json_items(seq![name]) == json_string(name));
    assert(t =~= a + (name + c));
    assert(t =~= (a + name) + c);
    assert(is_ascii_chars(a));
    assert(is_ascii_chars(c));
    is_ascii_chars_encode_utf8(a);
    is_ascii_chars_encode_utf8(c);
    lemma_utf8_concat(a, name + c);
    lemma_utf8_concat(name, c);
    lemma_utf8_concat(a, name);
    lemma_utf8_concat(a + name, c);
    lemma_boundary_after_prefix(a, name + c);
    lemma_boundary_after_prefix(a + name, c);
    let n = utf8(t).len();
    assert(utf8(t).subrange(2, n - 2) =~= utf8(name));
}

} // verus!
