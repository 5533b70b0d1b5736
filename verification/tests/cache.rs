use ulla_site::cache::SiteCache;

#[test]
fn sidebar_is_absent_until_built() {
    let c = SiteCache::new();
    assert_eq!(c.sidebar("eng"), None);
    assert_eq!(c.bio_exhibitions(), "");
    assert_eq!(c.frontpage_exhibitions(), "");
}

#[test]
fn sidebar_serves_each_language() {
    let mut c = SiteCache::new();
    c.set_sidebar("<nav>en</nav>".to_string(), "<nav>de</nav>".to_string());
    assert_eq!(c.sidebar("eng").map(|s| s.as_str()), Some("<nav>en</nav>"));
    assert_eq!(c.sidebar("de").map(|s| s.as_str()), Some("<nav>de</nav>"));
    assert_eq!(c.sidebar("fr"), None);
    assert_eq!(c.sidebar("en"), None);
}

#[test]
fn cache_parts_are_independent() {
    let mut c = SiteCache::new();
    c.set_bio_exhibitions("<ul>bio</ul>".to_string());
    c.set_frontpage_exhibitions("<ul>now</ul>".to_string());
    c.set_sidebar("e".to_string(), "d".to_string());
    c.set_bio_exhibitions("<ul>bio2</ul>".to_string());
    assert_eq!(c.bio_exhibitions(), "<ul>bio2</ul>");
    assert_eq!(c.frontpage_exhibitions(), "<ul>now</ul>");
    assert_eq!(c.sidebar("de").map(|s| s.as_str()), Some("d"));
}
