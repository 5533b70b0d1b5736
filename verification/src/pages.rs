//! What the public pages show: the data each page template is filled with,
//! computed from the records the handlers fetch.

use vstd::prelude::*;
use rand::Rng;
use crate::json::{decode_string_array, json_parse_strings};
use crate::models::{Bio, Contact, Index, Project};

verus! {

/// The language a visitor has chosen, English where none is stored.
pub fn language_or_default(stored: Option<String>) -> (res: String)
    ensures
        res@ == match stored {
            Some(l) => l@,
            None => "eng"@,
        },
{
    match stored {
        Some(l) => l,
        None => "eng".to_owned(),
    }
}

/// Calls `rand::thread_rng().gen_range(low..high)`: some index in `low..high`,
/// drawn at random. The range must not be empty, or it panics.
#[verifier::external_body]
fn random_index(low: usize, high: usize) -> (res: usize)
    requires
        low < high,
    ensures
        low <= res < high,
{
    rand::thread_rng().gen_range(low..high)
}

/// The positions the front page may show of `n` front page pictures: the
/// only one, or one of those strictly between the first and the last.
pub open spec fn front_page_choice(n: int, i: int) -> bool {
    (n == 1 && i == 0) || (n >= 3 && 1 <= i < n - 1)
}

/// Picks the front page picture to show; `None` for zero or two pictures,
/// where there is nothing to pick from.
pub fn choose_front_page(count: usize) -> (res: Option<usize>)
    ensures
        res is Some <==> (count == 1 || count >= 3),
        res matches Some(i) ==> front_page_choice(count as int, i as int),
{
    if count == 1 {
        Some(0)
    } else if count >= 3 {
        Some(random_index(1, count - 1))
    } else {
        None
    }
}

/// The address of a front page picture: its folder is column 3, its file column 0.
pub open spec fn front_page_url_of(fp: Seq<Seq<char>>) -> Seq<char> {
    "/static/front_pages/"@ + fp[3] + "/"@ + fp[0]
}

/// The address of a front page picture is the text `/static/front_pages/`,
/// then the folder (column 3) as stored, a `/`, and the file name (column 0)
/// as stored, character for character.
pub proof fn law_front_page_url_layout(fp: Seq<Seq<char>>)
    requires
        fp.len() >= 4,
    ensures
        front_page_url_of(fp).len() == 20 + fp[3].len() + 1 + fp[0].len(),
        front_page_url_of(fp).subrange(0, 20) == "/static/front_pages/"@,
        front_page_url_of(fp).subrange(20, 20 + fp[3].len() as int) == fp[3],
        front_page_url_of(fp)[20 + fp[3].len() as int] == '/',
        front_page_url_of(fp).subrange(
            21 + fp[3].len() as int,
            front_page_url_of(fp).len() as int,
        ) == fp[0],
{
    reveal_strlit("/static/front_pages/");
    reveal_strlit("/");
    let u = front_page_url_of(fp);
    let n = fp[3].len() as int;
    assert(u.subrange(0, 20) =~= "/static/front_pages/"@);
    assert(u.subrange(20, 20 + n) =~= fp[3]);
    assert(u.subrange(21 + n, u.len() as int) =~= fp[0]);
}

/// The address of a front page picture.
pub fn front_page_url(fp: &Vec<String>) -> (res: String)
    requires
        fp@.len() >= 4,
    ensures
        res@ == front_page_url_of(fp.deep_view()),
{
    let mut url = "/static/front_pages/".to_owned();
    url.append(fp[3].as_str());
    url.append("/");
    url.append(fp[0].as_str());
    url
}

/// The front page: the sidebar and a picture picked from the front page
/// pictures; `None` where none can be picked or the picked record lacks
/// its folder column.
pub fn index_page<'a>(sidebar_html: &'a String, front_pages: &'a Vec<Vec<String>>) -> (res: Option<
    Index<'a>,
>)
    ensures
        res matches Some(ix) ==> ix.sidebar_html == sidebar_html && exists|i: int|
            front_page_choice(front_pages@.len() as int, i) && *ix.fp == front_pages@[i]
                && front_pages@[i]@.len() >= 4 && ix.fp_url@ == front_page_url_of(
                front_pages@[i].deep_view(),
            ),
        res is None ==> front_pages@.len() == 0 || front_pages@.len() == 2 || exists|i: int|
            front_page_choice(front_pages@.len() as int, i) && front_pages@[i]@.len() < 4,
{
    match choose_front_page(front_pages.len()) {
        None => None,
        Some(i) => {
            let fp = &front_pages[i];
            if fp.len() < 4 {
                return None;
            }
            let fp_url = front_page_url(fp);
            Some(Index { sidebar_html, fp, fp_url })
        },
    }
}

/// The contact page: the CV addresses are columns 3 and 4 of the personal details.
pub fn contact_page<'a>(sidebar_html: &'a String, details: &'a Vec<String>, lang: String) -> (res:
    Contact<'a>)
    requires
        details@.len() >= 5,
    ensures
        res.sidebar_html == sidebar_html,
        res.cv_address_eng == details@[3],
        res.cv_address_de == details@[4],
        res.lang == lang,
        res.base_url@ == Seq::<char>::empty(),
{
    Contact {
        sidebar_html,
        cv_address_eng: &details[3],
        cv_address_de: &details[4],
        lang,
        base_url: String::new(),
    }
}

/// The biography page: biographies and portrait are columns 0 to 2 of the
/// personal details.
pub fn bio_page<'a>(
    sidebar_html: &'a String,
    exhibs_html: &'a String,
    details: &'a Vec<String>,
    lang: String,
) -> (res: Bio<'a>)
    requires
        details@.len() >= 3,
    ensures
        res.sidebar_html == sidebar_html,
        res.exhibs_html == exhibs_html,
        res.bio_eng == details@[0],
        res.bio_de == details@[1],
        res.pfp_url == details@[2],
        res.lang == lang,
{
    Bio {
        sidebar_html,
        exhibs_html,
        bio_eng: &details[0],
        bio_de: &details[1],
        pfp_url: &details[2],
        lang,
    }
}

/// The non-empty strings, in order.
pub open spec fn non_empty_strings(v: Seq<Seq<char>>) -> Seq<Seq<char>>
    decreases v.len(),
{
    if v.len() == 0 {
        Seq::empty()
    } else {
        let init = non_empty_strings(v.drop_last());
        if v.last().len() > 0 {
            init.push(v.last())
        } else {
            init
        }
    }
}

/// Whether a string has at least one character.
pub open spec fn is_non_empty() -> spec_fn(Seq<char>) -> bool {
    |s: Seq<char>| s.len() > 0
}

/// Dropping the empty strings keeps exactly the others, in their order: the
/// result is the input filtered by non-emptiness (so its length is the number
/// of non-empty inputs and its k-th item the k-th non-empty input), it holds
/// no empty string, and it holds every non-empty input.
pub proof fn law_non_empty_strings_filter(v: Seq<Seq<char>>)
    ensures
        non_empty_strings(v) == v.filter(is_non_empty()),
        forall|k: int| 0 <= k < non_empty_strings(v).len() ==> (#[trigger] non_empty_strings(v)[k]).len() > 0,
        forall|i: int| 0 <= i < v.len() && (#[trigger] v[i]).len() > 0 ==> non_empty_strings(v).contains(v[i]),
    decreases v.len(),
{
    reveal(Seq::filter);
    if v.len() > 0 {
        law_non_empty_strings_filter(v.drop_last());
    }
    assert forall|k: int| 0 <= k < non_empty_strings(v).len() implies (#[trigger] non_empty_strings(v)[k]).len() > 0 by {
        v.lemma_filter_pred(is_non_empty(), k);
    }
    assert forall|i: int| 0 <= i < v.len() && (#[trigger] v[i]).len() > 0 implies non_empty_strings(v).contains(v[i]) by {
        v.lemma_filter_contains(is_non_empty(), i);
    }
}

/// Where no string is empty, nothing is dropped: the result is the input.
pub proof fn law_non_empty_strings_keeps_all(v: Seq<Seq<char>>)
    requires
        forall|i: int| 0 <= i < v.len() ==> (#[trigger] v[i]).len() > 0,
    ensures
        non_empty_strings(v) == v,
    decreases v.len(),
{
    if v.len() > 0 {
        let init = v.drop_last();
        assert forall|i: int| 0 <= i < init.len() implies (#[trigger] init[i]).len() > 0 by {
            assert(init[i] == v[i]);
        }
        law_non_empty_strings_keeps_all(init);
        assert(v.last() == v[v.len() - 1]);
        assert(init.push(v.last()) =~= v);
    }
}

/// Filtering a list made of two parts filters each part on its own.
pub proof fn law_non_empty_strings_of_concat(a: Seq<Seq<char>>, b: Seq<Seq<char>>)
    ensures
        non_empty_strings(a + b) == non_empty_strings(a) + non_empty_strings(b),
{
    law_non_empty_strings_filter(a + b);
    law_non_empty_strings_filter(a);
    law_non_empty_strings_filter(b);
    Seq::filter_distributes_over_add(a, b, is_non_empty());
}

/// Drops the empty strings, keeping the others in order.
pub fn filter_empty_strings(v: Vec<String>) -> (res: Vec<String>)
    ensures
        res.deep_view() == non_empty_strings(v.deep_view()),
{
    let ghost all = v.deep_view();
    let mut out: Vec<String> = Vec::new();
    let mut i: usize = 0;
    proof {
        assert(all.take(0) =~= Seq::<Seq<char>>::empty());
    }
    while i < v.len()
        invariant
            all == v.deep_view(),
            i <= all.len(),
            out.deep_view() == non_empty_strings(all.take(i as int)),
        decreases all.len() - i,
    {
        let ghost before = out.deep_view();
        proof {
            assert(all.take(i + 1).drop_last() =~= all.take(i as int));
            assert(all.take(i + 1).last() == v@[i as int]@);
        }
        if !v[i].as_str().is_empty() {
            out.push(v[i].clone());
            proof {
                assert(out.deep_view() =~= before.push(v@[i as int]@));
            }
        }
        i = i + 1;
    }
    proof {
        assert(all.take(i as int) =~= all);
    }
    out
}

/// The comments of a picture: the comment records whose column 0 names it.
pub open spec fn comments_for(img: Seq<char>, comments: Seq<Seq<Seq<char>>>) -> Seq<Seq<Seq<char>>>
    decreases comments.len(),
{
    if comments.len() == 0 {
        Seq::empty()
    } else {
        let init = comments_for(img, comments.drop_last());
        if comments.last()[0] == img {
            init.push(comments.last())
        } else {
            init
        }
    }
}

/// The comment rows shown for a picture: its comments, or an empty comment
/// row `[picture, "", ""]` where it has none.
pub open spec fn comment_entry(img: Seq<char>, comments: Seq<Seq<Seq<char>>>) -> Seq<Seq<Seq<char>>> {
    if comments_for(img, comments).len() > 0 {
        comments_for(img, comments)
    } else {
        seq![seq![img, Seq::<char>::empty(), Seq::<char>::empty()]]
    }
}

/// The comment rows of all pictures, picture by picture.
pub open spec fn image_comment_rows(images: Seq<Seq<char>>, comments: Seq<Seq<Seq<char>>>) -> Seq<
    Seq<Seq<char>>,
>
    decreases images.len(),
{
    if images.len() == 0 {
        Seq::empty()
    } else {
        image_comment_rows(images.drop_last(), comments) + comment_entry(images.last(), comments)
    }
}

/// Whether a comment record's column 0 is exactly the picture name `img`.
pub open spec fn names_picture(img: Seq<char>) -> spec_fn(Seq<Seq<char>>) -> bool {
    |c: Seq<Seq<char>>| c[0] == img
}

/// The comments of a picture are the comment records whose column 0 equals
/// its name exactly, in their order, and every one of them is among them.
pub proof fn law_comments_for_filter(img: Seq<char>, comments: Seq<Seq<Seq<char>>>)
    ensures
        comments_for(img, comments) == comments.filter(names_picture(img)),
        forall|k: int|
            0 <= k < comments_for(img, comments).len() ==> (#[trigger] comments_for(
                img,
                comments,
            )[k])[0] == img,
        forall|c: int|
            0 <= c < comments.len() && (#[trigger] comments[c])[0] == img ==> comments_for(
                img,
                comments,
            ).contains(comments[c]),
    decreases comments.len(),
{
    reveal(Seq::filter);
    if comments.len() > 0 {
        law_comments_for_filter(img, comments.drop_last());
    }
    assert forall|k: int| 0 <= k < comments_for(img, comments).len() implies (#[trigger] comments_for(
        img,
        comments,
    )[k])[0] == img by {
        comments.lemma_filter_pred(names_picture(img), k);
    }
    assert forall|c: int|
        0 <= c < comments.len() && (#[trigger] comments[c])[0] == img implies comments_for(
        img,
        comments,
    ).contains(comments[c]) by {
        comments.lemma_filter_contains(names_picture(img), c);
    }
}

/// The rows shown for a picture all carry its exact name in column 0; a
/// picture that no comment names gets exactly the one row `[name, "", ""]`,
/// and a picture that some comment names gets exactly its comments.
pub proof fn law_comment_entry_names_picture(img: Seq<char>, comments: Seq<Seq<Seq<char>>>)
    ensures
        comment_entry(img, comments).len() >= 1,
        forall|k: int|
            0 <= k < comment_entry(img, comments).len() ==> (#[trigger] comment_entry(
                img,
                comments,
            )[k])[0] == img,
        (forall|c: int| 0 <= c < comments.len() ==> (#[trigger] comments[c])[0] != img)
            ==> comment_entry(img, comments) == seq![
            seq![img, Seq::<char>::empty(), Seq::<char>::empty()],
        ],
        (exists|c: int| 0 <= c < comments.len() && (#[trigger] comments[c])[0] == img)
            ==> comment_entry(img, comments) == comments.filter(names_picture(img)),
{
    law_comments_for_filter(img, comments);
    let found = comments_for(img, comments);
    if exists|c: int| 0 <= c < comments.len() && (#[trigger] comments[c])[0] == img {
        let c = choose|c: int| 0 <= c < comments.len() && (#[trigger] comments[c])[0] == img;
        assert(found.contains(comments[c]));
        assert(found.len() > 0);
    }
    if found.len() > 0 {
        assert(found[0][0] == img);
        assert(found.contains(found[0]));
        comments.lemma_filter_contains_rev(names_picture(img), found[0]);
        let c = choose|c: int| 0 <= c < comments.len() && comments[c] == found[0];
        assert(comments[c][0] == img);
    } else {
        let e = comment_entry(img, comments);
        assert(e[0][0] == img);
    }
}

/// The rows of a list of pictures made of two parts are the rows of the
/// first part followed by those of the second, and the rows of a single
/// picture are its entry: each picture is paired on its own, in order.
pub proof fn law_image_comment_rows_picture_by_picture(
    a: Seq<Seq<char>>,
    b: Seq<Seq<char>>,
    img: Seq<char>,
    comments: Seq<Seq<Seq<char>>>,
)
    ensures
        image_comment_rows(a + b, comments) == image_comment_rows(a, comments)
            + image_comment_rows(b, comments),
        image_comment_rows(seq![img], comments) == comment_entry(img, comments),
    decreases b.len(),
{
    let one = seq![img];
    assert(one.drop_last() =~= Seq::<Seq<char>>::empty());
    assert(image_comment_rows(Seq::<Seq<char>>::empty(), comments) == Seq::<Seq<Seq<char>>>::empty());
    assert(image_comment_rows(one, comments) =~= comment_entry(img, comments));
    if b.len() == 0 {
        assert(a + b =~= a);
        assert(image_comment_rows(a, comments) + image_comment_rows(b, comments) =~= image_comment_rows(
            a,
            comments,
        ));
    } else {
        law_image_comment_rows_picture_by_picture(a, b.drop_last(), img, comments);
        assert((a + b).drop_last() =~= a + b.drop_last());
        assert((a + b).last() == b.last());
        assert(image_comment_rows(a + b, comments) =~= image_comment_rows(a, comments)
            + image_comment_rows(b, comments));
    }
}

/// Every comment record names its picture in column 0.
pub open spec fn comments_named(comments: Seq<Seq<Seq<char>>>) -> bool {
    forall|c: int| 0 <= c < comments.len() ==> (#[trigger] comments[c]).len() >= 1
}

/// Pairs each picture with its comments, in the order of the pictures.
pub fn match_image_comments(images: &Vec<String>, comments: &Vec<Vec<String>>) -> (res: Vec<
    Vec<String>,
>)
    requires
        images@.len() > 0 ==> comments_named(comments.deep_view()),
    ensures
        res.deep_view() == image_comment_rows(images.deep_view(), comments.deep_view()),
{
    let ghost imgs = images.deep_view();
    let ghost cs = comments.deep_view();
    let mut out: Vec<Vec<String>> = Vec::new();
    let mut i: usize = 0;
    proof {
        assert(imgs.take(0) =~= Seq::<Seq<char>>::empty());
    }
    while i < images.len()
        invariant
            imgs == images.deep_view(),
            cs == comments.deep_view(),
            i <= imgs.len(),
            imgs.len() > 0 ==> comments_named(cs),
            out.deep_view() == image_comment_rows(imgs.take(i as int), cs),
        decreases imgs.len() - i,
    {
        let img = &images[i];
        let ghost start = out.deep_view();
        let mut found = false;
        let mut j: usize = 0;
        proof {
            assert(cs.take(0) =~= Seq::<Seq<Seq<char>>>::empty());
            assert(start + comments_for(img@, cs.take(0)) =~= start);
        }
        while j < comments.len()
            invariant
                imgs == images.deep_view(),
                cs == comments.deep_view(),
                i < imgs.len(),
                comments_named(cs),
                img@ == imgs[i as int],
                j <= cs.len(),
                out.deep_view() == start + comments_for(img@, cs.take(j as int)),
                found == (comments_for(img@, cs.take(j as int)).len() > 0),
            decreases cs.len() - j,
        {
            let ghost before = out.deep_view();
            proof {
                assert(cs.take(j + 1).drop_last() =~= cs.take(j as int));
                assert(cs.take(j + 1).last() == cs[j as int]);
                assert(cs[j as int] == comments@[j as int].deep_view());
                assert(cs[j as int].len() >= 1);
            }
            let comm = &comments[j];
            if text_equal(img, &comm[0]) {
                let copy = comm.clone();
                proof {
                    assert(copy@ =~= comm@);
                }
                out.push(copy);
                found = true;
                proof {
                    assert(out.deep_view() =~= before.push(cs[j as int]));
                }
            }
            j = j + 1;
        }
        proof {
            assert(cs.take(j as int) =~= cs);
        }
        if !found {
            let mut row: Vec<String> = Vec::new();
            row.push(img.clone());
            row.push(String::new());
            row.push(String::new());
            let ghost before = out.deep_view();
            out.push(row);
            proof {
                assert(row.deep_view() =~= seq![img@, Seq::<char>::empty(), Seq::<char>::empty()]);
                assert(out.deep_view() =~= before.push(row.deep_view()));
            }
        }
        proof {
            assert(imgs.take(i + 1).drop_last() =~= imgs.take(i as int));
            assert(imgs.take(i + 1).last() == imgs[i as int]);
            assert(out.deep_view() =~= image_comment_rows(imgs.take(i as int), cs) + comment_entry(
                imgs[i as int],
                cs,
            ));
        }
        i = i + 1;
    }
    proof {
        assert(imgs.take(i as int) =~= imgs);
    }
    out
}

fn text_equal(a: &String, b: &String) -> (res: bool)
    ensures
        res == (a@ == b@),
{
    crate::text::text_eq(a.as_str(), b.as_str())
}

/// Why a page could not be built.
pub enum PageError {
    /// The project's picture list is not a JSON list of strings.
    Json(serde_json::Error),
}

/// The file names of a project's pictures, read from the JSON list in its
/// column 4.
pub fn picture_list(project: &Vec<String>) -> (res: Result<Vec<String>, PageError>)
    requires
        project@.len() > 4,
    ensures
        res is Ok <==> json_parse_strings(project@[4]@) is Some,
        res matches Ok(v) ==> v.deep_view() == json_parse_strings(project@[4]@)->0,
{
    match decode_string_array(project[4].as_str()) {
        Ok(v) => Ok(v),
        Err(e) => Err(PageError::Json(e)),
    }
}

/// A project's page: the non-empty picture names, and each picture with its
/// comments; the project record itself is shown as it is.
pub fn project_page<'a>(
    sidebar_html: &'a String,
    lang: String,
    selected_project: &Vec<String>,
    images: Vec<String>,
    comments: &Vec<Vec<String>>,
) -> (res: Project<'a>)
    requires
        images@.len() > 0 ==> comments_named(comments.deep_view()),
    ensures
        res.sidebar_html == sidebar_html,
        res.lang == lang,
        res.project_title@ == "Test"@,
        res.image_urls.deep_view() == non_empty_strings(images.deep_view()),
        res.image_comments.deep_view() == image_comment_rows(
            images.deep_view(),
            comments.deep_view(),
        ),
        res.current_proj.deep_view() == selected_project.deep_view(),
{
    let image_comments = match_image_comments(&images, comments);
    let current_proj = selected_project.clone();
    proof {
        assert(current_proj@ =~= selected_project@);
    }
    Project {
        sidebar_html,
        project_title: "Test".to_owned(),
        image_urls: filter_empty_strings(images),
        image_comments,
        current_proj,
        lang,
    }
}

/// The project record with the given id in column 8, the first such.
pub open spec fn first_with_id(projects: Seq<Seq<Seq<char>>>, id: Seq<char>, i: int) -> bool {
    &&& 0 <= i < projects.len()
    &&& projects[i].len() > 8
    &&& projects[i][8] == id
    &&& forall|j: int| 0 <= j < i ==> (#[trigger] projects[j]).len() > 8 && projects[j][8] != id
}

/// Finds the project with a given id, as a scan that reads column 8 of
/// each record until one matches.
pub fn find_project<'a>(projects: &'a Vec<Vec<String>>, project_id: &String) -> (res: Option<
    &'a Vec<String>,
>)
    requires
        forall|i: int|
            0 <= i < projects@.len() && (forall|j: int|
                0 <= j < i ==> (#[trigger] projects@[j])@.len() > 8 && projects@[j]@[8]@
                    != project_id@) ==> (#[trigger] projects@[i])@.len() > 8,
    ensures
        res matches Some(p) ==> exists|i: int|
            first_with_id(projects.deep_view(), project_id@, i) && *p == projects@[i],
        res is None ==> forall|i: int|
            0 <= i < projects@.len() ==> (#[trigger] projects@[i])@[8]@ != project_id@,
{
    let mut i: usize = 0;
    while i < projects.len()
        invariant
            i <= projects@.len(),
            forall|k: int|
                0 <= k < projects@.len() && (forall|j: int|
                    0 <= j < k ==> (#[trigger] projects@[j])@.len() > 8 && projects@[j]@[8]@
                        != project_id@) ==> (#[trigger] projects@[k])@.len() > 8,
            forall|j: int|
                0 <= j < i ==> (#[trigger] projects@[j])@.len() > 8 && projects@[j]@[8]@
                    != project_id@,
        decreases projects@.len() - i,
    {
        let p = &projects[i];
        if text_equal(&p[8], project_id) {
            proof {
                let dv = projects.deep_view();
                assert forall|j: int| 0 <= j < i implies (#[trigger] dv[j]).len() > 8 && dv[j][8]
                    != project_id@ by {
                    assert(dv[j] == projects@[j].deep_view());
                }
                assert(dv[i as int] == p.deep_view());
                assert(first_with_id(dv, project_id@, i as int));
            }
            return Some(p);
        }
        i = i + 1;
    }
    None
}

} // verus!
