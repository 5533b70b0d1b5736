//! The admin area's decisions: what a login attempt, a stored change or a
//! deletion is answered with, where uploads are stored, and what the admin
//! page shows.

use vstd::prelude::*;
use crate::models::AdminTemplate;
use crate::pages::{
    comments_named, filter_empty_strings, image_comment_rows, match_image_comments,
    non_empty_strings,
};
use crate::text::{lemma_ascii_slices, text_eq, utf8};
use crate::exhibitions::readable_date;
use crate::numbers::is_digit;
use vstd::utf8::is_ascii_chars;

verus! {

/// An answer to a request, before it is turned into an HTTP response.
pub enum Reply {
    /// `302 Found`, to this location.
    Redirect(String),
    /// `200 OK` with this body.
    Page(String),
    /// `401 Unauthorized` with this body.
    Unauthorized(String),
    /// `500 Internal Server Error` with this body.
    ServerError(String),
}

/// The reply that sends the admin back to the admin page.
pub open spec fn back_to_admin(r: Reply) -> bool {
    r matches Reply::Redirect(l) && l@ == "/admin"@
}

fn to_admin() -> (res: Reply)
    ensures
        back_to_admin(res),
{
    Reply::Redirect("/admin".to_owned())
}

/// Whether an admin request may proceed: a request without login is
/// answered with the login page (the rendered page, or a bare server error
/// where it could not be rendered) and does nothing else.
pub fn admin_gate(logged_in: bool, login_page: Option<String>) -> (res: Option<Reply>)
    ensures
        logged_in <==> res is None,
        !logged_in && login_page is Some ==> res == Some(Reply::Page(login_page->0)),
        !logged_in && login_page is None ==> (res matches Some(Reply::ServerError(b)) && b@
            == Seq::<char>::empty()),
{
    if logged_in {
        None
    } else {
        match login_page {
            Some(page) => Some(Reply::Page(page)),
            None => Some(Reply::ServerError(String::new())),
        }
    }
}

/// The admin password.
pub open spec fn admin_password() -> Seq<char> {
    "passwor"@
}

/// The answer to a login attempt: the admin page for the right password,
/// `Invalid credentials` otherwise.
pub fn login_reply(password: &str) -> (res: Reply)
    ensures
        password@ == admin_password() ==> back_to_admin(res),
        password@ != admin_password() ==> (res matches Reply::Unauthorized(b) && b@
            == "Invalid credentials"@),
{
    if text_eq(password, "passwor") {
        to_admin()
    } else {
        Reply::Unauthorized("Invalid credentials".to_owned())
    }
}

/// The answer to a change stored in the database: back to the admin page,
/// or a bare server error where the database refused it.
pub fn write_reply(succeeded: bool) -> (res: Reply)
    ensures
        succeeded ==> back_to_admin(res),
        !succeeded ==> (res matches Reply::ServerError(b) && b@ == Seq::<char>::empty()),
{
    if succeeded {
        to_admin()
    } else {
        Reply::ServerError(String::new())
    }
}

/// The answer to the deletion of a record from a table.
pub fn delete_entry_reply(succeeded: bool, table: &str) -> (res: Reply)
    ensures
        succeeded ==> back_to_admin(res),
        !succeeded ==> (res matches Reply::ServerError(b) && b@ == "Failed to delete entry from "@
            + table@),
{
    if succeeded {
        to_admin()
    } else {
        let mut b = "Failed to delete entry from ".to_owned();
        b.append(table);
        Reply::ServerError(b)
    }
}

/// Where a file served under `/static` lies: `./static` followed by its path.
pub fn static_file_path(path: &str) -> (res: String)
    ensures
        res@ == "./static"@ + path@,
{
    let mut p = "./static".to_owned();
    p.append(path);
    p
}

/// The answer to the removal of a file.
pub fn delete_file_reply(succeeded: bool, file_path: &str) -> (res: Reply)
    ensures
        succeeded ==> back_to_admin(res),
        !succeeded ==> (res matches Reply::ServerError(b) && b@ == "Failed to delete file "@
            + file_path@),
{
    if succeeded {
        to_admin()
    } else {
        let mut b = "Failed to delete file ".to_owned();
        b.append(file_path);
        Reply::ServerError(b)
    }
}

/// The answer to the removal of a folder.
pub fn delete_folder_reply(succeeded: bool, folder_path: &str) -> (res: Reply)
    ensures
        succeeded ==> back_to_admin(res),
        !succeeded ==> (res matches Reply::ServerError(b) && b@ == "Failed to delete folder: "@
            + folder_path@),
{
    if succeeded {
        to_admin()
    } else {
        let mut b = "Failed to delete folder: ".to_owned();
        b.append(folder_path);
        Reply::ServerError(b)
    }
}

/// The folder of a project's pictures.
pub fn project_folder(name: &str) -> (res: String)
    ensures
        res@ == "./static/projects/"@ + name@,
{
    let mut p = "./static/projects/".to_owned();
    p.append(name);
    p
}

/// The folder of a front page picture.
pub fn background_folder(name: &str) -> (res: String)
    ensures
        res@ == "./static/front_pages/"@ + name@,
{
    let mut p = "./static/front_pages/".to_owned();
    p.append(name);
    p
}

/// The path, under `/static`, of a front page picture.
pub fn background_file(folder: &str, image: &str) -> (res: String)
    ensures
        res@ == "/front_pages/"@ + folder@ + "/"@ + image@,
{
    let mut p = "/front_pages/".to_owned();
    p.append(folder);
    p.append("/");
    p.append(image);
    p
}

/// The path, under `/static`, of the portrait.
pub fn profile_picture_file(address: &str) -> (res: String)
    ensures
        res@ == "/personal_details/"@ + address@,
{
    let mut p = "/personal_details/".to_owned();
    p.append(address);
    p
}

/// An exhibition date as the form sends it, `YYYY-MM-DD`, in the stored form
/// `YYYYMMDD`: every `-` removed, as `replace("-", "")` does it.
pub open spec fn without_dashes(s: Seq<char>) -> Seq<char>
    decreases s.len(),
{
    if s.len() == 0 {
        Seq::empty()
    } else if s.last() == '-' {
        without_dashes(s.drop_last())
    } else {
        without_dashes(s.drop_last()).push(s.last())
    }
}

proof fn lemma_without_dashes_concat(a: Seq<char>, b: Seq<char>)
    ensures
        without_dashes(a + b) == without_dashes(a) + without_dashes(b),
    decreases b.len(),
{
    if b.len() == 0 {
        assert(a + b =~= a);
        assert(without_dashes(a) + without_dashes(b) =~= without_dashes(a));
    } else {
        assert((a + b).drop_last() =~= a + b.drop_last());
        assert((a + b).last() == b.last());
        lemma_without_dashes_concat(a, b.drop_last());
        if b.last() == '-' {
        } else {
            assert(without_dashes(a) + without_dashes(b) =~= (without_dashes(a) + without_dashes(
                b.drop_last(),
            )).push(b.last()));
        }
    }
}

proof fn lemma_without_dashes_digits(s: Seq<char>)
    requires
        forall|i: int| 0 <= i < s.len() ==> is_digit(#[trigger] s[i]),
    ensures
        without_dashes(s) == s,
    decreases s.len(),
{
    if s.len() > 0 {
        assert forall|i: int| 0 <= i < s.drop_last().len() implies is_digit(#[trigger] s.drop_last()[i]) by {
            assert(s.drop_last()[i] == s[i]);
        }
        lemma_without_dashes_digits(s.drop_last());
        assert(is_digit(s[s.len() - 1]));
        assert(s.drop_last().push(s.last()) =~= s);
    }
}

/// A date as the exhibition form sends it: `YYYY-MM-DD` in digits.
pub open spec fn form_date(d: Seq<char>) -> bool {
    &&& d.len() == 10
    &&& d[4] == '-'
    &&& d[7] == '-'
    &&& forall|i: int| 0 <= i < 10 && i != 4 && i != 7 ==> is_digit(#[trigger] d[i])
}

/// A date entered in the exhibition form, stored without its dashes and
/// shown in the sidebar in readable form, reads as the entered date with
/// dots for dashes.
pub proof fn law_form_date_shown_readable(d: Seq<char>)
    requires
        form_date(d),
    ensures
        crate::exhibitions::formattable(without_dashes(d)),
        readable_date(without_dashes(d)) == d.update(4, '.').update(7, '.'),
{
    let y = d.subrange(0, 4);
    let m = d.subrange(5, 7);
    let dd = d.subrange(8, 10);
    assert(d =~= y + seq!['-'] + m + seq!['-'] + dd);
    assert forall|i: int| 0 <= i < y.len() implies is_digit(#[trigger] y[i]) by {
        assert(y[i] == d[i]);
    }
    assert forall|i: int| 0 <= i < m.len() implies is_digit(#[trigger] m[i]) by {
        assert(m[i] == d[i + 5]);
    }
    assert forall|i: int| 0 <= i < dd.len() implies is_digit(#[trigger] dd[i]) by {
        assert(dd[i] == d[i + 8]);
    }
    lemma_without_dashes_digits(y);
    lemma_without_dashes_digits(m);
    lemma_without_dashes_digits(dd);
    assert(without_dashes(seq!['-']) =~= Seq::<char>::empty()) by {
        let dash = seq!['-'];
        assert(dash.drop_last() =~= Seq::<char>::empty());
        assert(dash.last() == '-');
        assert(without_dashes(dash) == without_dashes(dash.drop_last()));
        assert(without_dashes(Seq::<char>::empty()) == Seq::<char>::empty());
    }
    lemma_without_dashes_concat(y, seq!['-']);
    lemma_without_dashes_concat(y + seq!['-'], m);
    lemma_without_dashes_concat(y + seq!['-'] + m, seq!['-']);
    lemma_without_dashes_concat(y + seq!['-'] + m + seq!['-'], dd);
    let c = without_dashes(d);
    assert(c =~= y + m + dd);
    assert(is_ascii_chars(c)) by {
        assert forall|i: int| 0 <= i < c.len() implies '\0' <= #[trigger] c[i] <= '\u{7f}' by {
            if i < 4 {
                assert(c[i] == y[i]);
                assert(is_digit(y[i]));
            } else if i < 6 {
                assert(c[i] == m[i - 4]);
                assert(is_digit(m[i - 4]));
            } else {
                assert(c[i] == dd[i - 6]);
                assert(is_digit(dd[i - 6]));
            }
        }
    }
    lemma_ascii_slices(c, 0, 4);
    lemma_ascii_slices(c, 4, 6);
    lemma_ascii_slices(c, 6, 8);
    assert(utf8(c).len() == 8);
    assert(readable_date(c) =~= d.update(4, '.').update(7, '.'));
}

/// Removes every `-` from a date.
pub fn compact_form_date(date: &str) -> (res: String)
    ensures
        res@ == without_dashes(date@),
{
    let n = date.unicode_len();
    let mut out = String::new();
    let mut i: usize = 0;
    proof {
        assert(date@.take(0) =~= Seq::<char>::empty());
    }
    while i < n
        invariant
            n == date@.len(),
            i <= n,
            out@ == without_dashes(date@.take(i as int)),
        decreases n - i,
    {
        let c = date.get_char(i);
        proof {
            assert(date@.take(i + 1).drop_last() =~= date@.take(i as int));
            assert(date@.take(i + 1).last() == c);
        }
        if c != '-' {
            out.push(c);
        }
        i = i + 1;
    }
    proof {
        assert(date@.take(i as int) =~= date@);
    }
    out
}

/// The project record the admin page opens when no project is being edited:
/// nine fields each holding `["empty"]`.
pub fn empty_edit_project() -> (res: Vec<String>)
    ensures
        res@.len() == 9,
        forall|i: int| 0 <= i < 9 ==> (#[trigger] res@[i])@ == "[\"empty\"]"@,
{
    let mut v: Vec<String> = Vec::new();
    let mut i: usize = 0;
    while i < 9
        invariant
            i <= 9,
            v@.len() == i,
            forall|j: int| 0 <= j < i ==> (#[trigger] v@[j])@ == "[\"empty\"]"@,
        decreases 9 - i,
    {
        v.push("[\"empty\"]".to_owned());
        i = i + 1;
    }
    v
}

/// The picture comments the admin page shows when no project is being
/// edited: eight rows of five empty strings.
pub fn empty_image_comments() -> (res: Vec<Vec<String>>)
    ensures
        res@.len() == 8,
        forall|i: int|
            0 <= i < 8 ==> (#[trigger] res@[i])@.len() == 5 && forall|j: int|
                0 <= j < 5 ==> (#[trigger] res@[i]@[j])@ == Seq::<char>::empty(),
{
    let mut rows: Vec<Vec<String>> = Vec::new();
    let mut i: usize = 0;
    while i < 8
        invariant
            i <= 8,
            rows@.len() == i,
            forall|k: int|
                0 <= k < i ==> (#[trigger] rows@[k])@.len() == 5 && forall|j: int|
                    0 <= j < 5 ==> (#[trigger] rows@[k]@[j])@ == Seq::<char>::empty(),
        decreases 8 - i,
    {
        let mut row: Vec<String> = Vec::new();
        let mut j: usize = 0;
        while j < 5
            invariant
                j <= 5,
                row@.len() == j,
                forall|k: int| 0 <= k < j ==> (#[trigger] row@[k])@ == Seq::<char>::empty(),
            decreases 5 - j,
        {
            row.push(String::new());
            j = j + 1;
        }
        rows.push(row);
        i = i + 1;
    }
    rows
}

/// The picture comments of the project being edited: each non-empty picture
/// name with its comments.
pub fn admin_image_comments(images: Vec<String>, comments: &Vec<Vec<String>>) -> (res: Vec<
    Vec<String>,
>)
    requires
        non_empty_strings(images.deep_view()).len() > 0 ==> comments_named(comments.deep_view()),
    ensures
        res.deep_view() == image_comment_rows(
            non_empty_strings(images.deep_view()),
            comments.deep_view(),
        ),
{
    let checked = filter_empty_strings(images);
    match_image_comments(&checked, comments)
}

/// The admin page, from the records and what is being edited.
pub fn admin_page(
    projects: Vec<Vec<String>>,
    exhibitions: Vec<Vec<String>>,
    backgrounds: Vec<Vec<String>>,
    personal_details: Vec<String>,
    edit_project: Vec<String>,
    img_comm: Vec<Vec<String>>,
) -> (res: AdminTemplate)
    ensures
        res.projects == projects,
        res.exhibitions == exhibitions,
        res.backgrounds == backgrounds,
        res.personal_details == personal_details,
        res.edit_project == edit_project,
        res.img_comm == img_comm,
{
    AdminTemplate { projects, exhibitions, backgrounds, edit_project, personal_details, img_comm }
}

/// What a visit to the session endpoint stores and answers.
pub struct SessionInfo {
    /// The language stored back into the session.
    pub store_lang: String,
    /// The role stored into the session: `admin` or `viewer`.
    pub store_user: String,
    /// The answer's `logged_in`: the admin's id, or empty.
    pub logged_in: String,
    /// The answer's `language`: the stored language, or empty where none was stored.
    pub language: String,
}

/// Decides a visit to the session endpoint from the stored language and
/// the login identity (`Some` when logged in, holding its id if readable).
pub fn session_state(stored_lang: Option<String>, identity: Option<Option<String>>) -> (res:
    SessionInfo)
    ensures
        res.store_lang@ == match stored_lang {
            Some(l) => l@,
            None => "eng"@,
        },
        res.language@ == match stored_lang {
            Some(l) => l@,
            None => Seq::<char>::empty(),
        },
        res.store_user@ == match identity {
            Some(_) => "admin"@,
            None => "viewer"@,
        },
        res.logged_in@ == match identity {
            Some(Some(id)) => id@,
            _ => Seq::<char>::empty(),
        },
{
    let (store_lang, language) = match stored_lang {
        Some(l) => (l.clone(), l),
        None => ("eng".to_owned(), String::new()),
    };
    let (store_user, logged_in) = match identity {
        Some(id) => (
            "admin".to_owned(),
            match id {
                Some(i) => i,
                None => String::new(),
            },
        ),
        None => ("viewer".to_owned(), String::new()),
    };
    SessionInfo { store_lang, store_user, logged_in, language }
}

} // verus!
