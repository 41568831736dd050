use ghtrending::dom::Document;
use ghtrending::trending::{
    developers_as_user_data, repositories_as_user_data, Developer, Repository, UserDataType,
};

const REPO_PAGE: &str = r#"<html><body>
<article class="Box-row">
  <div class="float-right"><a href="/login">Star</a></div>
  <h2 class="h3 lh-condensed"><a href="/rust-lang/rust">
    <span class="text-normal">rust-lang /</span>
    rust
  </a></h2>
  <p class="col-9"> Empowering everyone to build
    reliable software. </p>
  <div class="d-flex"></div>
  <div class="f6 mt-2">
    <span class="d-inline-block"><span itemprop="programmingLanguage">Rust</span></span>
    <a href="/rust-lang/rust/stargazers"> 101,234 </a>
    <a href="/rust-lang/rust/forks"> 12,567 </a>
    <span class="d-inline-block">Built by
      <a href="/alice"><img alt="@alice" src="https://avatars/a.png"></a>
      <a href="/bob"><img alt="@bob" src="https://avatars/b.png"></a>
    </span>
    <span class="float-right"> 321 stars today </span>
  </div>
</article>
<article class="Box-row">
  <h2 class="h3 lh-condensed"><a href="/o/n"><span>o /</span> n</a></h2>
  <p> A <em>b</em> c </p>
  <div></div><div></div>
  <div>
    <a href="/o/n/stargazers">7 </a><a href="/o/n/forks">0</a>
    <span>Built by</span>
    <span>1 star today</span>
  </div>
</article>
</body></html>"#;

#[test]
fn repositories_are_read_from_each_article() {
    let repos = Repository::parse_html(REPO_PAGE).expect("page has every part");
    assert_eq!(repos.len(), 2);
    let r = &repos[0];
    assert_eq!(r.author, "rust-lang");
    assert_eq!(r.name, "rust");
    assert_eq!(r.link, "https://github.com/rust-lang/rust");
    assert_eq!(r.description, "Empowering everyone to build\n    reliable software.");
    assert_eq!(r.star_count, 101234);
    assert_eq!(r.forks, 12567);
    assert_eq!(r.language, "Rust");
    assert_eq!(r.add, "321 stars today");
    assert_eq!(r.build_by.len(), 2);
    assert_eq!(r.build_by[0].name, "alice");
    assert_eq!(r.build_by[0].avatar, "https://avatars/a.png");
    assert_eq!(r.build_by[1].name, "bob");
    let s = &repos[1];
    assert_eq!(s.author, "o");
    assert_eq!(s.name, "n");
    assert_eq!(s.link, "https://github.com/o/n");
    assert_eq!(s.description, "Abc");
    assert_eq!(s.language, "");
    assert_eq!(s.star_count, 7);
    assert_eq!(s.forks, 0);
    assert_eq!(s.add, "1 star today");
    assert_eq!(s.build_by.len(), 0);
}

#[test]
fn a_page_without_articles_has_no_repositories() {
    assert_eq!(Repository::parse_html("<p>nothing trending</p>").map(|v| v.len()), Some(0));
}

#[test]
fn an_article_without_heading_link_is_refused() {
    let page = r#"<article class="Box-row"><h2 class="h3 lh-condensed">x</h2></article>"#;
    assert!(Repository::parse_html(page).is_none());
}

#[test]
fn unreadable_star_count_is_refused() {
    let page = r#"<article class="Box-row">
      <h2 class="h3 lh-condensed"><a href="/o/n">o / n</a></h2>
      <div></div><div></div>
      <div><a href="/o/n/stargazers">many</a><a href="/o/n/forks">1</a><span>a</span><span>b</span></div>
    </article>"#;
    assert!(Repository::parse_html(page).is_none());
}

const DEV_PAGE: &str = r#"<html><body>
<article class="Box-row d-flex" id="pa-x">
  <a href="/x"><img class="avatar" src="https://avatars/x.png" alt="@x"></a>
  <div>
    <h1 class="h3 lh-condensed"> <a href="/x"> Xavier </a> </h1>
    <article>
      <div>Popular repo</div>
      <h1 class="h4 lh-condensed"><a href="/x/tool">tool</a></h1>
      <div class="f6 mt-1"> A handy tool. </div>
    </article>
  </div>
</article>
<article class="Box-row d-flex">
  <img src="https://avatars/y.png">
  <h1>Yvonne</h1>
</article>
</body></html>"#;

#[test]
fn developers_are_read_from_each_article() {
    let devs = Developer::parse_html(DEV_PAGE).expect("page has every part");
    assert_eq!(devs.len(), 2);
    assert_eq!(devs[0].name, "Xavier");
    assert_eq!(devs[0].avatar, "https://avatars/x.png");
    assert_eq!(devs[0].popular_repo, "https://github.com/x/tool");
    assert_eq!(devs[0].description, "A handy tool.");
    assert_eq!(devs[1].name, "Yvonne");
    assert_eq!(devs[1].popular_repo, "");
    assert_eq!(devs[1].description, "");
}

#[test]
fn a_developer_without_avatar_is_refused() {
    assert!(Developer::parse_html(r#"<article class="Box-row d-flex"><h1>Z</h1></article>"#).is_none());
}

#[test]
fn records_keep_their_order() {
    let articles = Document::select_subtrees(REPO_PAGE, "article[class=\"Box-row\"]").unwrap();
    assert_eq!(articles.len(), 2);
    let repos = Repository::from_articles(&articles).unwrap();
    let data = repositories_as_user_data(repos);
    assert_eq!(data.len(), 2);
    match &data[1] {
        UserDataType::Repository(r) => assert_eq!(r.name, "n"),
        UserDataType::Developer(_) => panic!("a repository was expected"),
    }
    let devs = Developer::parse_html(DEV_PAGE).unwrap();
    let data = developers_as_user_data(devs);
    match &data[0] {
        UserDataType::Developer(d) => assert_eq!(d.name, "Xavier"),
        UserDataType::Repository(_) => panic!("a developer was expected"),
    }
}

#[test]
fn defaults_are_empty() {
    let r = Repository::default();
    assert_eq!(r.star_count, 0);
    assert!(r.name.is_empty() && r.build_by.is_empty());
    assert!(Developer::default().popular_repo.is_empty());
}

fn repo_article(href: &str, name: &str) -> String {
    format!(
        r#"<article class="Box-row">
  <h2 class="h3 lh-condensed"><a href="{href}"><span>o /</span> {name}</a></h2>
  <div></div><div></div>
  <div><a href="{href}/stargazers">3</a><a href="{href}/forks">1</a>
    <span>Built by <a href="/z"><img alt="@zed" src="https://avatars/z.png"></a></span>
    <span>2 stars today</span></div>
</article>"#
    )
}

fn summary(repos: &[Repository]) -> Vec<(String, String, u32, usize)> {
    repos
        .iter()
        .map(|r| (r.name.clone(), r.link.clone(), r.star_count, r.build_by.len()))
        .collect()
}

#[test]
fn every_link_is_the_site_followed_by_its_own_href() {
    let page = format!(
        "<html><body>{}{}</body></html>",
        repo_article("/github.com/g", "g"),
        repo_article("/o/n", "n")
    );
    let repos = Repository::parse_html(&page).unwrap();
    assert_eq!(repos[0].link, "https://github.com/github.com/g");
    assert_eq!(repos[1].link, "https://github.com/o/n");
}

#[test]
fn articles_are_read_independently() {
    let a = repo_article("/github.com/g", "g");
    let b = repo_article("/o/n", "n");
    let ca = Repository::parse_html(&format!("<body>{}</body>", a)).unwrap();
    let cb = Repository::parse_html(&format!("<body>{}</body>", b)).unwrap();
    let cab = Repository::parse_html(&format!("<body>{}{}</body>", a, b)).unwrap();
    let mut both = summary(&ca);
    both.extend(summary(&cb));
    assert_eq!(summary(&cab), both);
}

fn dev_article(name: &str, href: &str) -> String {
    format!(
        r#"<article class="Box-row d-flex"><img src="https://avatars/{name}.png"><h1>{name}</h1>
  <article><div>Popular repo</div><h1><a href="{href}">r</a></h1><div>d {name}</div></article>
</article>"#
    )
}

#[test]
fn every_popular_repo_is_the_site_followed_by_its_own_href() {
    let a = dev_article("a", "/github.com/g");
    let b = dev_article("b", "/b/tool");
    let ca = Developer::parse_html(&format!("<body>{}</body>", a)).unwrap();
    let cb = Developer::parse_html(&format!("<body>{}</body>", b)).unwrap();
    let cab = Developer::parse_html(&format!("<body>{}{}</body>", a, b)).unwrap();
    assert_eq!(cab[0].popular_repo, "https://github.com/github.com/g");
    assert_eq!(cab[1].popular_repo, "https://github.com/b/tool");
    let pick = |ds: &[Developer]| {
        ds.iter()
            .map(|d| (d.name.clone(), d.popular_repo.clone(), d.description.clone()))
            .collect::<Vec<_>>()
    };
    let mut both = pick(&ca);
    both.extend(pick(&cb));
    assert_eq!(pick(&cab), both);
}

#[test]
fn the_article_of_the_fragment_test_is_refused() {
    assert!(Repository::parse_html(r#"<article class="Box-row">...</article>"#).is_none());
    assert!(Developer::parse_html("<article class='Box-row d-flex'><h1>A</h1></article>").is_none());
}

#[test]
fn articles_come_in_the_order_the_parser_made_them() {
    // The second article is misplaced inside the table, so the parser moves
    // it in front of the table, after it made the first one.
    let a = repo_article("/a/first", "first");
    let b = repo_article("/b/second", "second");
    let page = format!("<body><table><tr><td>{}</td></tr>{}</table></body>", a, b);
    let repos = Repository::parse_html(&page).unwrap();
    let names: Vec<&str> = repos.iter().map(|r| r.name.as_str()).collect();
    assert_eq!(names, vec!["first", "second"]);
    let html = scraper::Html::parse_document(&page);
    let sel = scraper::Selector::parse("article[class=\"Box-row\"] h2 a").unwrap();
    let theirs: Vec<String> = html.select(&sel).map(|e| e.value().attr("href").unwrap().to_string()).collect();
    assert_eq!(theirs, vec!["/a/first", "/b/second"]);
    let doc = Document::parse(&page);
    let in_document_order = doc.select(&ghtrending::dom::Selector::with_attribute("article", "class", "Box-row"));
    assert_eq!(in_document_order.len(), 2);
    let link = doc.first_within(in_document_order[0], &ghtrending::dom::Selector::tag("a")).unwrap();
    assert_eq!(doc.attr(link, "href"), Some("/b/second".to_string()));
}
