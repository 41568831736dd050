use ghtrending::css::css_string_value;
use ghtrending::trending::Repository;

#[test]
fn escapes_are_resolved_as_css_reads_them() {
    assert_eq!(css_string_value("/o/n/stargazers"), Some("/o/n/stargazers".to_string()));
    assert_eq!(css_string_value(r"/o/n\/stargazers"), Some("/o/n/stargazers".to_string()));
    assert_eq!(css_string_value(r#"a\"b"#), Some("a\"b".to_string()));
    assert_eq!(css_string_value(r"\41 B"), Some("AB".to_string()));
    assert_eq!(css_string_value(r"\000041x"), Some("Ax".to_string()));
    assert_eq!(css_string_value("\\41\r\nB"), Some("AB".to_string()));
    assert_eq!(css_string_value(r"\0"), Some("\u{FFFD}".to_string()));
    assert_eq!(css_string_value(r"\D800"), Some("\u{FFFD}".to_string()));
    assert_eq!(css_string_value(r"\110000"), Some("\u{FFFD}".to_string()));
    assert_eq!(css_string_value("a\u{0}b"), Some("a\u{FFFD}b".to_string()));
    assert_eq!(css_string_value("a\\\nb"), Some("ab".to_string()));
    assert_eq!(css_string_value("a\\\r\nb"), Some("ab".to_string()));
}

#[test]
fn strings_that_end_early_or_break_have_no_value() {
    assert_eq!(css_string_value("x\"y"), None);
    assert_eq!(css_string_value("x\ny"), None);
    assert_eq!(css_string_value("x\\"), None);
}

#[test]
fn values_agree_with_scraper_selectors() {
    for raw in [r"/o/n\/stargazers", r"/a\62 c/stargazers", r"/x\y/stargazers", "/p\\\nq/stargazers"] {
        let value = css_string_value(raw).unwrap();
        let page = format!("<a href=\"{}\">hit</a>", value.replace('&', "&amp;").replace('"', "&quot;"));
        let html = scraper::Html::parse_document(&page);
        let sel = scraper::Selector::parse(&format!("a[href=\"{}\"]", raw)).unwrap();
        assert_eq!(html.select(&sel).count(), 1, "raw {:?}", raw);
    }
}

#[test]
fn an_href_with_a_backslash_is_read_as_css_reads_its_selector() {
    let page = r#"<article class="Box-row">
      <h2 class="h3 lh-condensed"><a href="/o/n\">o / n</a></h2>
      <div></div><div></div>
      <div><a href="/o/n/stargazers">5</a><a href="/o/n/forks">2</a>
        <span>Built by</span><span>1 star today</span></div>
    </article>"#;
    let repos = Repository::parse_html(page).expect("the selectors match the counts");
    assert_eq!(repos.len(), 1);
    assert_eq!(repos[0].link, "https://github.com/o/n\\");
    assert_eq!(repos[0].star_count, 5);
    assert_eq!(repos[0].forks, 2);
}
