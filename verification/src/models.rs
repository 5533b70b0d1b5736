//! The data the site's forms and requests carry, and the data each page
//! template is filled with.

#![allow(non_camel_case_types)]

use vstd::prelude::*;

verus! {

/// Query of the admin page: the project to open for editing, if any.
pub struct AdminQuery {
    pub edit_project: Option<String>,
}

/// Body of a language change.
pub struct SetLangRequest {
    pub language: String,
}

/// Body of an exhibition deletion.
pub struct DeleteExhibitionRequest {
    pub id: String,
}

/// Body of a background deletion.
pub struct DeleteBackgroundRequest {
    pub id: String,
}

/// Body of a project deletion.
pub struct DeleteProjectRequest {
    pub id: String,
}

/// The admin login form.
pub struct LoginForm {
    pub password: String,
}

/// The biography form, English and German.
pub struct BioForm {
    pub bio_eng: Option<String>,
    pub bio_de: Option<String>,
}

/// The CV form: file addresses of the English and German CV.
pub struct CvUploadForm {
    pub cv_eng_address: String,
    pub cv_de_address: String,
}

/// The form that adds an exhibition; dates come as `YYYY-MM-DD`.
pub struct ExhibitionForm {
    pub title_eng: String,
    pub title_de: String,
    pub from: Option<String>,
    pub till: Option<String>,
    pub location: Option<String>,
    pub link: Option<String>,
}

/// The form that sets the comments of one picture of a project.
pub struct ImgCommentForm {
    pub folder: String,
    pub file: String,
    pub eng_comment: String,
    pub de_comment: String,
}

/// The sidebar's list of current exhibitions.
pub struct SidebarExhibs {
    pub current_exhib: Vec<Vec<String>>,
}

/// The English sidebar.
pub struct SidebarElement_eng_html<'a> {
    pub all_projects: &'a Vec<Vec<String>>,
    pub base_url: &'a String,
    pub current_exhib: &'a String,
}

/// The German sidebar.
pub struct SidebarElement_de_html<'a> {
    pub all_projects: &'a Vec<Vec<String>>,
    pub base_url: &'a String,
    pub current_exhib: &'a String,
}

/// The front page: the sidebar and one front page picture.
pub struct Index<'a> {
    pub sidebar_html: &'a String,
    pub fp: &'a Vec<String>,
    pub fp_url: String,
}

/// The contact page.
pub struct Contact<'a> {
    pub sidebar_html: &'a String,
    pub cv_address_eng: &'a String,
    pub cv_address_de: &'a String,
    pub lang: String,
    pub base_url: String,
}

/// The biography page's exhibition list, grouped by year.
pub struct Bio_Exhibs_html {
    pub all_exhibitions: Vec<Vec<Vec<String>>>,
}

/// The biography page.
pub struct Bio<'a> {
    pub sidebar_html: &'a String,
    pub exhibs_html: &'a String,
    pub bio_eng: &'a String,
    pub bio_de: &'a String,
    pub pfp_url: &'a String,
    pub lang: String,
}

/// A project's page.
pub struct Project<'a> {
    pub sidebar_html: &'a String,
    pub project_title: String,
    pub image_urls: Vec<String>,
    pub image_comments: Vec<Vec<String>>,
    pub current_proj: Vec<String>,
    pub lang: String,
}

/// The login page.
pub struct LoginTemplate;

/// The admin page.
pub struct AdminTemplate {
    pub projects: Vec<Vec<String>>,
    pub exhibitions: Vec<Vec<String>>,
    pub backgrounds: Vec<Vec<String>>,
    pub edit_project: Vec<String>,
    pub personal_details: Vec<String>,
    pub img_comm: Vec<Vec<String>>,
}

} // verus!
