use ulla_site::admin::{
    admin_image_comments, admin_page, background_file, background_folder, compact_form_date,
    delete_entry_reply, delete_file_reply, delete_folder_reply, empty_edit_project,
    empty_image_comments, login_reply, profile_picture_file, project_folder, session_state,
    static_file_path, write_reply, Reply,
};
use ulla_site::text::format_date;

fn rec(v: &[&str]) -> Vec<String> {
    v.iter().map(|s| s.to_string()).collect()
}

fn is_admin_redirect(r: &Reply) -> bool {
    matches!(r, Reply::Redirect(l) if l == "/admin")
}

#[test]
fn right_password_goes_to_admin() {
    assert!(is_admin_redirect(&login_reply("passwor")));
}

#[test]
fn wrong_password_is_unauthorized() {
    assert!(matches!(login_reply("password"), Reply::Unauthorized(b) if b == "Invalid credentials"));
    assert!(matches!(login_reply(""), Reply::Unauthorized(_)));
}

#[test]
fn stored_changes_go_back_to_admin() {
    assert!(is_admin_redirect(&write_reply(true)));
    assert!(matches!(write_reply(false), Reply::ServerError(b) if b.is_empty()));
}

#[test]
fn failed_deletions_say_what_failed() {
    assert!(is_admin_redirect(&delete_entry_reply(true, "projects")));
    assert!(matches!(delete_entry_reply(false, "projects"), Reply::ServerError(b) if b == "Failed to delete entry from projects"));
    assert!(matches!(delete_file_reply(false, "./static/x.jpg"), Reply::ServerError(b) if b == "Failed to delete file ./static/x.jpg"));
    assert!(matches!(delete_folder_reply(false, "./static/projects/3"), Reply::ServerError(b) if b == "Failed to delete folder: ./static/projects/3"));
    assert!(is_admin_redirect(&delete_file_reply(true, "a")));
    assert!(is_admin_redirect(&delete_folder_reply(true, "a")));
}

#[test]
fn upload_places() {
    assert_eq!(project_folder("12"), "./static/projects/12");
    assert_eq!(background_folder("4"), "./static/front_pages/4");
    assert_eq!(background_file("4", "bg.jpg"), "/front_pages/4/bg.jpg");
    assert_eq!(profile_picture_file("me.png"), "/personal_details/me.png");
    assert_eq!(static_file_path("/front_pages/4/bg.jpg"), "./static/front_pages/4/bg.jpg");
}

#[test]
fn form_dates_lose_their_dashes() {
    assert_eq!(compact_form_date("2024-01-15"), "20240115");
    assert_eq!(compact_form_date("--"), "");
    assert_eq!(compact_form_date("2024"), "2024");
}

#[test]
fn form_date_is_shown_with_dots() {
    let stored = compact_form_date("2024-03-09");
    assert_eq!(format_date(&stored), "2024.03.09");
}

#[test]
fn admin_page_defaults_when_nothing_is_edited() {
    let p = empty_edit_project();
    assert_eq!(p, vec!["[\"empty\"]".to_string(); 9]);
    let c = empty_image_comments();
    assert_eq!(c, vec![vec![String::new(); 5]; 8]);
}

#[test]
fn admin_comments_skip_empty_picture_names() {
    let comments = vec![rec(&["b.jpg", "bee", "Biene"])];
    assert_eq!(admin_image_comments(rec(&["", "a.jpg", "b.jpg"]), &comments), vec![
        rec(&["a.jpg", "", ""]),
        rec(&["b.jpg", "bee", "Biene"]),
    ]);
}

#[test]
fn admin_page_carries_its_parts() {
    let t = admin_page(vec![rec(&["p"])], vec![], vec![], rec(&["bio"]), empty_edit_project(), vec![]);
    assert_eq!(t.projects, vec![rec(&["p"])]);
    assert_eq!(t.personal_details, rec(&["bio"]));
    assert_eq!(t.edit_project.len(), 9);
}

#[test]
fn session_without_language_stores_english_but_reports_none() {
    let s = session_state(None, None);
    assert_eq!(s.store_lang, "eng");
    assert_eq!(s.language, "");
    assert_eq!(s.store_user, "viewer");
    assert_eq!(s.logged_in, "");
}

#[test]
fn session_of_the_admin() {
    let s = session_state(Some("de".to_string()), Some(Some("admin".to_string())));
    assert_eq!(s.store_lang, "de");
    assert_eq!(s.language, "de");
    assert_eq!(s.store_user, "admin");
    assert_eq!(s.logged_in, "admin");
    let t = session_state(None, Some(None));
    assert_eq!(t.store_user, "admin");
    assert_eq!(t.logged_in, "");
}

#[test]
fn requests_without_login_get_the_login_page() {
    assert!(ulla_site::admin::admin_gate(true, Some("login".to_string())).is_none());
    assert!(matches!(ulla_site::admin::admin_gate(false, Some("login".to_string())), Some(Reply::Page(p)) if p == "login"));
    assert!(matches!(ulla_site::admin::admin_gate(false, None), Some(Reply::ServerError(b)) if b.is_empty()));
}
