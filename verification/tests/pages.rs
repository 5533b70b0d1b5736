use ulla_site::pages::{
    bio_page, choose_front_page, contact_page, filter_empty_strings, find_project, front_page_url,
    index_page, language_or_default, match_image_comments, picture_list, project_page, PageError,
};

fn rec(v: &[&str]) -> Vec<String> {
    v.iter().map(|s| s.to_string()).collect()
}

#[test]
fn language_defaults_to_english() {
    assert_eq!(language_or_default(None), "eng");
    assert_eq!(language_or_default(Some("de".to_string())), "de");
}

#[test]
fn front_page_choice_skips_first_and_last() {
    assert_eq!(choose_front_page(0), None);
    assert_eq!(choose_front_page(1), Some(0));
    assert_eq!(choose_front_page(2), None);
    assert_eq!(choose_front_page(3), Some(1));
    for _ in 0..50 {
        let i = choose_front_page(6).unwrap();
        assert!(1 <= i && i < 5);
    }
}

#[test]
fn front_page_url_joins_folder_and_file() {
    let fp = rec(&["bg.jpg", "Title", "Titel", "7"]);
    assert_eq!(front_page_url(&fp), "/static/front_pages/7/bg.jpg");
}

#[test]
fn index_page_shows_a_middle_picture() {
    let sidebar = "<nav/>".to_string();
    let fps = vec![
        rec(&["a.jpg", "A", "A", "0"]),
        rec(&["b.jpg", "B", "B", "1"]),
        rec(&["c.jpg", "C", "C", "2"]),
    ];
    let ix = index_page(&sidebar, &fps).unwrap();
    assert_eq!(ix.sidebar_html, "<nav/>");
    assert_eq!(ix.fp, &fps[1]);
    assert_eq!(ix.fp_url, "/static/front_pages/1/b.jpg");
}

#[test]
fn index_page_without_pictures_is_none() {
    let sidebar = String::new();
    assert!(index_page(&sidebar, &vec![]).is_none());
    let two = vec![rec(&["a", "", "", "0"]), rec(&["b", "", "", "1"])];
    assert!(index_page(&sidebar, &two).is_none());
    let short = vec![rec(&["a", "A"])];
    assert!(index_page(&sidebar, &short).is_none());
}

#[test]
fn contact_and_bio_pages_take_their_columns() {
    let details = rec(&["bio en", "bio de", "me.jpg", "cv_en.pdf", "cv_de.pdf"]);
    let sidebar = "<nav/>".to_string();
    let c = contact_page(&sidebar, &details, "de".to_string());
    assert_eq!(c.cv_address_eng, "cv_en.pdf");
    assert_eq!(c.cv_address_de, "cv_de.pdf");
    assert_eq!(c.lang, "de");
    let exhibs = "<ul/>".to_string();
    let b = bio_page(&sidebar, &exhibs, &details, "eng".to_string());
    assert_eq!(b.bio_eng, "bio en");
    assert_eq!(b.bio_de, "bio de");
    assert_eq!(b.pfp_url, "me.jpg");
    assert_eq!(b.exhibs_html, "<ul/>");
}

#[test]
fn empty_strings_are_dropped() {
    assert_eq!(filter_empty_strings(rec(&["a", "", "b", ""])), rec(&["a", "b"]));
    assert!(filter_empty_strings(vec![]).is_empty());
}

#[test]
fn pictures_get_their_comments_or_an_empty_row() {
    let images = rec(&["1.jpg", "2.jpg", "3.jpg"]);
    let comments = vec![
        rec(&["3.jpg", "three", "drei"]),
        rec(&["1.jpg", "one", "eins"]),
        rec(&["1.jpg", "uno", "ein"]),
    ];
    assert_eq!(match_image_comments(&images, &comments), vec![
        rec(&["1.jpg", "one", "eins"]),
        rec(&["1.jpg", "uno", "ein"]),
        rec(&["2.jpg", "", ""]),
        rec(&["3.jpg", "three", "drei"]),
    ]);
}

#[test]
fn no_pictures_no_comment_rows() {
    assert!(match_image_comments(&vec![], &vec![vec![]]).is_empty());
}

#[test]
fn picture_list_reads_the_json_column() {
    let project = rec(&["T", "te", "td", "", "[\"a.jpg\",\"\",\"b.jpg\"]", "", "folder", "2024-01-01", "5"]);
    assert_eq!(picture_list(&project).ok(), Some(rec(&["a.jpg", "", "b.jpg"])));
}

#[test]
fn picture_list_reports_bad_json() {
    let project = rec(&["T", "te", "td", "", "not json", "", "folder", "", "5"]);
    assert!(matches!(picture_list(&project), Err(PageError::Json(_))));
}

#[test]
fn project_page_lists_pictures_and_comments() {
    let sidebar = "<nav/>".to_string();
    let project = rec(&["T", "te", "td", "", "[\"a.jpg\",\"\"]", "", "f", "", "5"]);
    let images = picture_list(&project).ok().unwrap();
    let comments = vec![rec(&["a.jpg", "nice", "schön"])];
    let page = project_page(&sidebar, "de".to_string(), &project, images, &comments);
    assert_eq!(page.project_title, "Test");
    assert_eq!(page.image_urls, rec(&["a.jpg"]));
    assert_eq!(page.image_comments, vec![rec(&["a.jpg", "nice", "schön"]), rec(&["", "", ""])]);
    assert_eq!(page.current_proj, project);
    assert_eq!(page.lang, "de");
}

#[test]
fn find_project_matches_column_eight() {
    let projects = vec![
        rec(&["A", "", "", "", "[]", "", "", "", "1"]),
        rec(&["B", "", "", "", "[]", "", "", "", "2"]),
    ];
    assert_eq!(find_project(&projects, &"2".to_string()).map(|p| p[0].as_str()), Some("B"));
    assert_eq!(find_project(&projects, &"3".to_string()), None);
}
