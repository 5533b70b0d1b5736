//! The pre-rendered page fragments the site serves from memory: the sidebar
//! in each language, the biography page's exhibition list and the sidebar's
//! list of current exhibitions.

use vstd::prelude::*;
use crate::text::text_eq;

verus! {

/// What the cache holds: the sidebar by language, and the two exhibition lists.
pub struct CacheContents {
    pub sidebar: Map<Seq<char>, Seq<char>>,
    pub bio_exhibitions: Seq<char>,
    pub frontpage_exhibitions: Seq<char>,
}

/// The sidebar entries after a rebuild: English under `eng`, German under `de`.
pub open spec fn sidebar_entries(eng: Seq<char>, de: Seq<char>) -> Map<Seq<char>, Seq<char>> {
    Map::<Seq<char>, Seq<char>>::empty().insert("eng"@, eng).insert("de"@, de)
}

/// The site's fragment cache. The sidebar is absent until it is first built.
pub struct SiteCache {
    sidebar: Option<(String, String)>,
    bio_exhibitions: String,
    frontpage_exhibitions: String,
}

impl View for SiteCache {
    type V = CacheContents;

    closed spec fn view(&self) -> CacheContents {
        CacheContents {
            sidebar: match self.sidebar {
                Some(p) => sidebar_entries(p.0@, p.1@),
                None => Map::empty(),
            },
            bio_exhibitions: self.bio_exhibitions@,
            frontpage_exhibitions: self.frontpage_exhibitions@,
        }
    }
}

impl SiteCache {
    /// The cache before anything is built: no sidebar, empty lists.
    pub fn new() -> (res: SiteCache)
        ensures
            res@.sidebar == Map::<Seq<char>, Seq<char>>::empty(),
            res@.bio_exhibitions == Seq::<char>::empty(),
            res@.frontpage_exhibitions == Seq::<char>::empty(),
    {
        SiteCache {
            sidebar: None,
            bio_exhibitions: String::new(),
            frontpage_exhibitions: String::new(),
        }
    }

    /// Replaces the sidebar with its English and German renderings.
    pub fn set_sidebar(&mut self, eng: String, de: String)
        ensures
            final(self)@.sidebar == sidebar_entries(eng@, de@),
            final(self)@.bio_exhibitions == old(self)@.bio_exhibitions,
            final(self)@.frontpage_exhibitions == old(self)@.frontpage_exhibitions,
    {
        self.sidebar = Some((eng, de));
    }

    /// Replaces the biography page's exhibition list.
    pub fn set_bio_exhibitions(&mut self, html: String)
        ensures
            final(self)@.sidebar == old(self)@.sidebar,
            final(self)@.bio_exhibitions == html@,
            final(self)@.frontpage_exhibitions == old(self)@.frontpage_exhibitions,
    {
        self.bio_exhibitions = html;
    }

    /// Replaces the sidebar's list of current exhibitions.
    pub fn set_frontpage_exhibitions(&mut self, html: String)
        ensures
            final(self)@.sidebar == old(self)@.sidebar,
            final(self)@.bio_exhibitions == old(self)@.bio_exhibitions,
            final(self)@.frontpage_exhibitions == html@,
    {
        self.frontpage_exhibitions = html;
    }

    /// The sidebar in a language, where one is held for it.
    pub fn sidebar(&self, lang: &str) -> (res: Option<&String>)
        ensures
            res is Some <==> self@.sidebar.contains_key(lang@),
            res matches Some(h) ==> h@ == self@.sidebar[lang@],
    {
        proof {
            reveal_strlit("eng");
            reveal_strlit("de");
            assert("eng"@.len() != "de"@.len());
        }
        match &self.sidebar {
            None => None,
            Some(p) => {
                if text_eq(lang, "eng") {
                    Some(&p.0)
                } else if text_eq(lang, "de") {
                    Some(&p.1)
                } else {
                    None
                }
            },
        }
    }

    /// The biography page's exhibition list.
    pub fn bio_exhibitions(&self) -> (res: &String)
        ensures
            res@ == self@.bio_exhibitions,
    {
        &self.bio_exhibitions
    }

    /// The sidebar's list of current exhibitions.
    pub fn frontpage_exhibitions(&self) -> (res: &String)
        ensures
            res@ == self@.frontpage_exhibitions,
    {
        &self.frontpage_exhibitions
    }
}

/// After a sidebar rebuild the English and German renderings are served
/// under `eng` and `de`, and no other language has a sidebar.
pub proof fn law_sidebar_after_rebuild(eng: Seq<char>, de: Seq<char>, other: Seq<char>)
    requires
        other != "eng"@,
        other != "de"@,
    ensures
        sidebar_entries(eng, de).contains_key("eng"@),
        sidebar_entries(eng, de)["eng"@] == eng,
        sidebar_entries(eng, de).contains_key("de"@),
        sidebar_entries(eng, de)["de"@] == de,
        !sidebar_entries(eng, de).contains_key(other),
{
    reveal_strlit("eng");
    reveal_strlit("de");
    assert("eng"@ != "de"@) by {
        assert("eng"@.len() != "de"@.len());
    }
}

} // verus!
