//! The records of the GitHub trending pages and how they are read from the
//! parsed pages.

use vstd::prelude::*;
use crate::dom::{
    attr, first, opt_view, select, texts, Document, EventView, Selector, SelectorView,
    html_selected_walks,
};
use crate::css::{css_string, css_string_value};
use crate::text::{
    concat, concat_trimmed, is_trimmed, join_strings, join_trimmed, lacks, lemma_remove_char_lacks,
    lemma_split_pieces_lack, lemma_trim_is_trimmed, parse_u32, parse_u32_string, remove_char,
    remove_char_string, replace_all, replace_string, split, split_string, trim, trim_string,
};

verus! {

/// A contributor shown under a trending repository.
#[derive(Debug, Clone)]
pub struct Collaborator {
    pub name: String,
    pub avatar: String,
}

/// A trending repository.
#[derive(Debug, Clone)]
pub struct Repository {
    pub author: String,
    pub name: String,
    pub link: String,
    pub description: String,
    pub star_count: u32,
    pub add: String,
    pub forks: u32,
    pub language: String,
    pub build_by: Vec<Collaborator>,
}

/// A trending developer.
#[derive(Debug, Clone)]
pub struct Developer {
    pub name: String,
    pub avatar: String,
    pub popular_repo: String,
    pub description: String,
}

/// One record of either kind, as handed to the editor.
#[derive(Debug, Clone)]
pub enum UserDataType {
    Repository(Repository),
    Developer(Developer),
}

/// The model of a [`Collaborator`].
pub struct CollaboratorView {
    pub name: Seq<char>,
    pub avatar: Seq<char>,
}

/// The model of a [`Repository`].
pub struct RepositoryView {
    pub author: Seq<char>,
    pub name: Seq<char>,
    pub link: Seq<char>,
    pub description: Seq<char>,
    pub star_count: u32,
    pub add: Seq<char>,
    pub forks: u32,
    pub language: Seq<char>,
    pub build_by: Seq<CollaboratorView>,
}

/// The model of a [`Developer`].
pub struct DeveloperView {
    pub name: Seq<char>,
    pub avatar: Seq<char>,
    pub popular_repo: Seq<char>,
    pub description: Seq<char>,
}

/// The model of a [`UserDataType`].
pub enum UserDataView {
    Repository(RepositoryView),
    Developer(DeveloperView),
}

impl View for Collaborator {
    type V = CollaboratorView;

    open spec fn view(&self) -> CollaboratorView {
        CollaboratorView { name: self.name@, avatar: self.avatar@ }
    }
}

/// The models of a list of collaborators.
pub open spec fn collaborator_views(cs: Seq<Collaborator>) -> Seq<CollaboratorView> {
    cs.map_values(|c: Collaborator| c@)
}

impl View for Repository {
    type V = RepositoryView;

    open spec fn view(&self) -> RepositoryView {
        RepositoryView {
            author: self.author@,
            name: self.name@,
            link: self.link@,
            description: self.description@,
            star_count: self.star_count,
            add: self.add@,
            forks: self.forks,
            language: self.language@,
            build_by: collaborator_views(self.build_by@),
        }
    }
}

/// The models of a list of repositories.
pub open spec fn repository_views(rs: Seq<Repository>) -> Seq<RepositoryView> {
    rs.map_values(|r: Repository| r@)
}

impl View for Developer {
    type V = DeveloperView;

    open spec fn view(&self) -> DeveloperView {
        DeveloperView {
            name: self.name@,
            avatar: self.avatar@,
            popular_repo: self.popular_repo@,
            description: self.description@,
        }
    }
}

/// The models of a list of developers.
pub open spec fn developer_views(ds: Seq<Developer>) -> Seq<DeveloperView> {
    ds.map_values(|d: Developer| d@)
}

impl View for UserDataType {
    type V = UserDataView;

    open spec fn view(&self) -> UserDataView {
        match self {
            UserDataType::Repository(r) => UserDataView::Repository(r@),
            UserDataType::Developer(d) => UserDataView::Developer(d@),
        }
    }
}

/// The models of a list of records.
pub open spec fn user_data_views(us: Seq<UserDataType>) -> Seq<UserDataView> {
    us.map_values(|u: UserDataType| u@)
}

/// The site that the links of the pages are relative to.
pub open spec fn site() -> Seq<char> {
    "https://github.com"@
}

/// The selector `tag`.
pub open spec fn by_tag(tag: Seq<char>) -> SelectorView {
    SelectorView { tag, attribute: None }
}

/// The selector `tag[name="value"]`.
pub open spec fn by_attribute(tag: Seq<char>, name: Seq<char>, value: Seq<char>) -> SelectorView {
    SelectorView { tag, attribute: Some((name, value)) }
}



/// The contributor shown by the link at `link`: the `alt` text of the first
/// image in it, without `@`, and the image's `src`.
pub open spec fn collaborator_at(ev: Seq<EventView>, link: usize) -> Option<CollaboratorView> {
    match first(select(ev, Some(link), by_tag("img"@))) {
        None => None,
        Some(img) => match (attr(ev, img, "alt"@), attr(ev, img, "src"@)) {
            (Some(alt), Some(src)) => Some(CollaboratorView { name: remove_char(alt, '@'), avatar: src }),
            _ => None,
        },
    }
}

/// The contributors shown by the links at `links`, if every one of them has
/// an image with `alt` and `src`.
pub open spec fn collaborators_at(ev: Seq<EventView>, links: Seq<usize>) -> Option<Seq<CollaboratorView>>
    decreases links.len(),
{
    if links.len() == 0 {
        Some(Seq::<CollaboratorView>::empty())
    } else {
        match (collaborators_at(ev, links.drop_last()), collaborator_at(ev, links.last())) {
            (Some(cs), Some(c)) => Some(cs.push(c)),
            _ => None,
        }
    }
}

/// Of the elements at `ks`, those without an `itemprop` attribute.
pub open spec fn unlabelled(ev: Seq<EventView>, ks: Seq<usize>) -> Seq<usize>
    decreases ks.len(),
{
    if ks.len() == 0 {
        Seq::<usize>::empty()
    } else {
        let r = unlabelled(ev, ks.drop_last());
        if attr(ev, ks.last(), "itemprop"@) is None {
            r.push(ks.last())
        } else {
            r
        }
    }
}

/// The view of an optional collaborator.
pub open spec fn opt_collaborator(c: Option<Collaborator>) -> Option<CollaboratorView> {
    match c {
        Some(c) => Some(c@),
        None => None,
    }
}

/// The view of optional collaborators.
pub open spec fn opt_collaborators(cs: Option<Vec<Collaborator>>) -> Option<Seq<CollaboratorView>> {
    match cs {
        Some(cs) => Some(collaborator_views(cs@)),
        None => None,
    }
}

/// Reads the contributor shown by the link at `link`.
fn read_collaborator(doc: &Document, link: usize) -> (r: Option<Collaborator>)
    requires
        link < doc@.len(),
    ensures
        opt_collaborator(r) == collaborator_at(doc@, link),
{
    let img_sel = Selector::tag("img");
    assert(img_sel@ == by_tag("img"@));
    match doc.first_within(link, &img_sel) {
        None => None,
        Some(img) => {
            let alt = doc.attr(img, "alt");
            let src = doc.attr(img, "src");
            match (alt, src) {
                (Some(alt), Some(src)) => {
                    let name = remove_char_string(alt.as_str(), '@');
                    Some(Collaborator { name, avatar: src })
                },
                _ => None,
            }
        },
    }
}

/// Reads the contributors shown by the links at `links`, in order.
fn read_collaborators(doc: &Document, links: &Vec<usize>) -> (r: Option<Vec<Collaborator>>)
    requires
        forall|j: int| 0 <= j < links@.len() ==> (#[trigger] links@[j]) < doc@.len(),
    ensures
        opt_collaborators(r) == collaborators_at(doc@, links@),
{
    let n = links.len();
    let mut out: Vec<Collaborator> = Vec::new();
    assert(links@.take(0) == Seq::<usize>::empty());
    for i in 0..n
        invariant
            n == links@.len(),
            forall|j: int| 0 <= j < links@.len() ==> (#[trigger] links@[j]) < doc@.len(),
            collaborators_at(doc@, links@.take(i as int)) == Some(collaborator_views(out@)),
    {
        let ghost pre = links@.take(i as int);
        assert(links@.take(i + 1).drop_last() == pre);
        assert(links@.take(i + 1).last() == links@[i as int]);
        match read_collaborator(doc, links[i]) {
            None => {
                proof {
                    lemma_collaborators_none(doc@, links@, i + 1);
                }
                return None;
            },
            Some(c) => {
                let ghost before = out@;
                out.push(c);
                assert(collaborator_views(out@) =~= collaborator_views(before).push(c@));
            },
        }
    }
    assert(links@.take(n as int) == links@);
    Some(out)
}

proof fn lemma_collaborators_none(ev: Seq<EventView>, links: Seq<usize>, k: int)
    requires
        0 <= k <= links.len(),
        collaborators_at(ev, links.take(k)) is None,
    ensures
        collaborators_at(ev, links) is None,
    decreases links.len() - k,
{
    if k < links.len() {
        assert(links.take(k + 1).drop_last() == links.take(k));
        lemma_collaborators_none(ev, links, k + 1);
    } else {
        assert(links.take(k) == links);
    }
}

/// Keeps, in order, the elements at `ks` that have no `itemprop` attribute.
fn keep_unlabelled(doc: &Document, ks: &Vec<usize>) -> (r: Vec<usize>)
    requires
        forall|j: int| 0 <= j < ks@.len() ==> (#[trigger] ks@[j]) < doc@.len(),
    ensures
        r@ == unlabelled(doc@, ks@),
        forall|j: int| 0 <= j < r@.len() ==> (#[trigger] r@[j]) < doc@.len(),
{
    let n = ks.len();
    let mut out: Vec<usize> = Vec::new();
    assert(ks@.take(0) == Seq::<usize>::empty());
    for i in 0..n
        invariant
            n == ks@.len(),
            forall|j: int| 0 <= j < ks@.len() ==> (#[trigger] ks@[j]) < doc@.len(),
            out@ == unlabelled(doc@, ks@.take(i as int)),
            forall|j: int| 0 <= j < out@.len() ==> (#[trigger] out@[j]) < doc@.len(),
    {
        assert(ks@.take(i + 1).drop_last() == ks@.take(i as int));
        assert(ks@.take(i + 1).last() == ks@[i as int]);
        let k = ks[i];
        if doc.attr(k, "itemprop").is_none() {
            out.push(k);
        }
    }
    assert(ks@.take(n as int) == ks@);
    out
}


/// The star and fork counts of a repository, read from the links to its
/// stargazers and forks inside `div`, given the repository's `href`. Each
/// link is found by the selector `a[href="..."]` whose quoted text is `href`
/// followed by `/stargazers` (for forks: that text with every `/stargazers`
/// replaced by `/forks`), so the value sought is what that CSS string stands
/// for; `None` where a string does not stand for a value (it would end
/// early or break) or a link or count is missing.
pub open spec fn counts_at(ev: Seq<EventView>, div: usize, href: Seq<char>) -> Option<(u32, u32)> {
    let star_raw = href + "/stargazers"@;
    let fork_raw = replace_all(star_raw, "/stargazers"@, "/forks"@);
    match css_string(star_raw) {
        None => None,
        Some(star_href) => match first(select(ev, Some(div), by_attribute("a"@, "href"@, star_href))) {
            None => None,
            Some(sa) => match parse_u32(split(trim(remove_char(concat(texts(ev, sa)), ',')), ' ')[0]) {
                None => None,
                Some(stars) => match css_string(fork_raw) {
                    None => None,
                    Some(fork_href) => match first(
                        select(ev, Some(div), by_attribute("a"@, "href"@, fork_href)),
                    ) {
                        None => None,
                        Some(fa) => match parse_u32(trim(remove_char(concat(texts(ev, fa)), ','))) {
                            None => None,
                            Some(forks) => Some((stars, forks)),
                        },
                    },
                },
            },
        },
    }
}

/// The repository shown by the article at `art`, read from that article
/// alone, with the link `https://github.com` followed by the `href` of its
/// heading link; `None` where the article lacks a part that a repository is
/// read from (where reading it would panic on a missing part).
pub open spec fn repository_at(ev: Seq<EventView>, art: usize) -> Option<RepositoryView> {
    let description = match first(select(ev, Some(art), by_tag("p"@))) {
        Some(p) => concat_trimmed(texts(ev, p)),
        None => Seq::<char>::empty(),
    };
    match first(select(ev, Some(art), by_attribute("h2"@, "class"@, "h3 lh-condensed"@))) {
        None => None,
        Some(h2) => match first(select(ev, Some(h2), by_tag("a"@))) {
            None => None,
            Some(a) => match attr(ev, a, "href"@) {
                None => None,
                Some(href) => {
                    let link = site() + href;
                    let words = split(concat_trimmed(texts(ev, a)), ' ');
                    let divs = select(ev, Some(art), by_tag("div"@));
                    if words.len() < 2 || divs.len() < 3 {
                        None
                    } else {
                        let div = divs[2];
                        let language = match first(
                            select(ev, Some(div), by_attribute("span"@, "itemprop"@, "programmingLanguage"@)),
                        ) {
                            Some(sp) => concat(texts(ev, sp)),
                            None => Seq::<char>::empty(),
                        };
                        let spans = unlabelled(ev, select(ev, Some(art), by_tag("span"@)));
                        match counts_at(ev, div, href) {
                            None => None,
                            Some((stars, forks)) => if spans.len() < 2 {
                                None
                            } else {
                                match collaborators_at(
                                    ev,
                                    select(ev, Some(spans[spans.len() - 2]), by_tag("a"@)),
                                ) {
                                    None => None,
                                    Some(cs) => Some(
                                        RepositoryView {
                                            author: words[0],
                                            name: remove_char(words[1], '/'),
                                            link,
                                            description,
                                            star_count: stars,
                                            add: trim(concat(texts(ev, spans.last()))),
                                            forks,
                                            language,
                                            build_by: cs,
                                        },
                                    ),
                                }
                            },
                        }
                    }
                },
            },
        },
    }
}


/// Reads the star and fork counts inside `div` for the repository at `href`.
fn read_counts(doc: &Document, div: usize, href: &str) -> (r: Option<(u32, u32)>)
    requires
        div < doc@.len(),
    ensures
        r == counts_at(doc@, div, href@),
{
    let mut star_raw = String::from_str(href);
    star_raw.append("/stargazers");
    let star_href = match css_string_value(star_raw.as_str()) {
        None => return None,
        Some(v) => v,
    };
    let star_sel = Selector::with_attribute("a", "href", star_href.as_str());
    let sa = match doc.first_within(div, &star_sel) {
        None => return None,
        Some(sa) => sa,
    };
    let t = join_strings(&doc.texts(sa));
    let t = remove_char_string(t.as_str(), ',');
    let t = trim_string(t.as_str());
    let words = split_string(t.as_str(), ' ');
    proof {
        crate::text::lemma_split_nonempty(t@, ' ');
    }
    let stars = match parse_u32_string(words[0].as_str()) {
        None => return None,
        Some(stars) => stars,
    };
    let fork_raw = replace_string(star_raw.as_str(), "/stargazers", "/forks");
    let fork_href = match css_string_value(fork_raw.as_str()) {
        None => return None,
        Some(v) => v,
    };
    let fork_sel = Selector::with_attribute("a", "href", fork_href.as_str());
    let fa = match doc.first_within(div, &fork_sel) {
        None => return None,
        Some(fa) => fa,
    };
    let t = join_strings(&doc.texts(fa));
    let t = remove_char_string(t.as_str(), ',');
    let t = trim_string(t.as_str());
    match parse_u32_string(t.as_str()) {
        None => None,
        Some(forks) => Some((stars, forks)),
    }
}

/// The view of an optional repository.
pub open spec fn opt_repository(r: Option<Repository>) -> Option<RepositoryView> {
    match r {
        Some(r) => Some(r@),
        None => None,
    }
}

/// Reads the repository shown by the article at `art`.
fn read_repository(doc: &Document, art: usize) -> (r: Option<Repository>)
    requires
        art < doc@.len(),
    ensures
        opt_repository(r) == repository_at(doc@, art),
{
    let p_sel = Selector::tag("p");
    let description = match doc.first_within(art, &p_sel) {
        Some(p) => join_trimmed(&doc.texts(p)),
        None => String::new(),
    };
    let h2_sel = Selector::with_attribute("h2", "class", "h3 lh-condensed");
    let h2 = match doc.first_within(art, &h2_sel) {
        None => return None,
        Some(h2) => h2,
    };
    let a_sel = Selector::tag("a");
    let a = match doc.first_within(h2, &a_sel) {
        None => return None,
        Some(a) => a,
    };
    let href = match doc.attr(a, "href") {
        None => return None,
        Some(href) => href,
    };
    let mut link = String::from_str("https://github.com");
    link.append(href.as_str());
    let tmp = join_trimmed(&doc.texts(a));
    let words = split_string(tmp.as_str(), ' ');
    let div_sel = Selector::tag("div");
    let divs = doc.select_within(art, &div_sel);
    if words.len() < 2 || divs.len() < 3 {
        return None;
    }
    let div = divs[2];
    let lang_sel = Selector::with_attribute("span", "itemprop", "programmingLanguage");
    let language = match doc.first_within(div, &lang_sel) {
        Some(sp) => join_strings(&doc.texts(sp)),
        None => String::new(),
    };
    let span_sel = Selector::tag("span");
    let spans = keep_unlabelled(doc, &doc.select_within(art, &span_sel));
    let (stars, forks) = match read_counts(doc, div, href.as_str()) {
        None => return None,
        Some(c) => c,
    };
    if spans.len() < 2 {
        return None;
    }
    let collab_span = spans[spans.len() - 2];
    let last_span = spans[spans.len() - 1];
    let links = doc.select_within(collab_span, &a_sel);
    let build_by = match read_collaborators(doc, &links) {
        None => return None,
        Some(cs) => cs,
    };
    let add = trim_string(join_strings(&doc.texts(last_span)).as_str());
    let name = remove_char_string(words[1].as_str(), '/');
    let author = words[0].clone();
    let repo = Repository {
        author,
        name,
        link,
        description,
        star_count: stars,
        add,
        forks,
        language,
        build_by,
    };
    Some(repo)
}


/// The repository shown by an article, given as its own document (the walk
/// of the article element, opened at position 0).
pub open spec fn repository_of(article: Seq<EventView>) -> Option<RepositoryView> {
    repository_at(article, 0)
}

/// The repositories shown by `articles`, each read from its own article, in
/// order; `None` if one of the articles lacks what a repository is read from.
pub open spec fn repositories_of(articles: Seq<Seq<EventView>>) -> Option<Seq<RepositoryView>>
    decreases articles.len(),
{
    if articles.len() == 0 {
        Some(Seq::<RepositoryView>::empty())
    } else {
        match (repositories_of(articles.drop_last()), repository_of(articles.last())) {
            (Some(rs), Some(r)) => Some(rs.push(r)),
            _ => None,
        }
    }
}

/// The repositories that the page `source` shows: one per element that
/// scraper's `Html::select` yields for `article[class="Box-row"]`, in its
/// order; `None` where an article lacks a part (where reading it by
/// unwrapping each part would panic).
pub open spec fn repositories_of_page(source: Seq<char>) -> Option<Seq<RepositoryView>> {
    match html_selected_walks(source, "article[class=\"Box-row\"]"@) {
        Some(articles) => repositories_of(articles),
        None => None,
    }
}

/// The view of optional repositories.
pub open spec fn opt_repositories(r: Option<Vec<Repository>>) -> Option<Seq<RepositoryView>> {
    match r {
        Some(rs) => Some(repository_views(rs@)),
        None => None,
    }
}

/// The models of a list of documents.
pub open spec fn document_views(ds: Seq<Document>) -> Seq<Seq<EventView>> {
    ds.map_values(|d: Document| d@)
}

proof fn lemma_repositories_none(articles: Seq<Seq<EventView>>, k: int)
    requires
        0 <= k <= articles.len(),
        repositories_of(articles.take(k)) is None,
    ensures
        repositories_of(articles) is None,
    decreases articles.len() - k,
{
    if k < articles.len() {
        assert(articles.take(k + 1).drop_last() == articles.take(k));
        lemma_repositories_none(articles, k + 1);
    } else {
        assert(articles.take(k) == articles);
    }
}

proof fn lemma_empty_article(sel: SelectorView)
    ensures
        first(select(Seq::<EventView>::empty(), Some(0), sel)) is None,
{
    assert(crate::dom::positions_upto(Seq::<EventView>::empty(), Some(0), Some(sel), 0)
        == Seq::<usize>::empty());
}

impl Repository {
    /// Reads the repositories shown by `articles`, each article given as its
    /// own document opened at position 0, in order. `None` where an article
    /// lacks a part that a repository is read from (a heading link with an
    /// `href`, two words in its text, a third `div`, readable star and fork
    /// counts, two spans without `itemprop`, an image with `alt` and `src` in
    /// each contributor link, an `href` whose quoted selector string stands
    /// for a value): the pages on which a reading that unwraps each part
    /// would panic.
    pub fn from_articles(articles: &Vec<Document>) -> (r: Option<Vec<Repository>>)
        ensures
            opt_repositories(r) == repositories_of(document_views(articles@)),
    {
        let n = articles.len();
        let ghost arts = document_views(articles@);
        let mut out: Vec<Repository> = Vec::new();
        assert(arts.take(0) == Seq::<Seq<EventView>>::empty());
        for i in 0..n
            invariant
                n == articles@.len(),
                arts == document_views(articles@),
                repositories_of(arts.take(i as int)) == Some(repository_views(out@)),
        {
            assert(arts.take(i + 1).drop_last() == arts.take(i as int));
            assert(arts.take(i + 1).last() == articles@[i as int]@);
            let art = &articles[i];
            let read = if art.events.len() == 0 {
                proof {
                    lemma_empty_article(by_attribute("h2"@, "class"@, "h3 lh-condensed"@));
                }
                None
            } else {
                read_repository(art, 0)
            };
            match read {
                None => {
                    proof {
                        lemma_repositories_none(arts, i + 1);
                    }
                    return None;
                },
                Some(r) => {
                    let ghost before = out@;
                    out.push(r);
                    assert(repository_views(out@) =~= repository_views(before).push(r@));
                },
            }
        }
        assert(arts.take(n as int) == arts);
        Some(out)
    }

    /// Parses the repository page `content` and reads one repository per
    /// element that scraper's `Html::select` yields for
    /// `article[class="Box-row"]`, in its order, each as
    /// [`Repository::from_articles`] reads it; `None` stands for a page on
    /// which an article lacks a part, where a reading that unwraps each part
    /// would panic.
    pub fn parse_html(content: &str) -> (r: Option<Vec<Repository>>)
        ensures
            opt_repositories(r) == repositories_of_page(content@),
    {
        match Document::select_subtrees(content, "article[class=\"Box-row\"]") {
            None => None,
            Some(articles) => {
                assert(articles@.map_values(|d: Document| d@) == document_views(articles@));
                Self::from_articles(&articles)
            },
        }
    }
}


/// The link to a developer's popular repository, shown inside the article
/// nested at `nested`: `https://github.com` followed by the `href` of the
/// link in its first heading; the empty link if there is no nested article
/// or no heading in it, `None` if the heading has no link with an `href`.
pub open spec fn popular_repo_at(ev: Seq<EventView>, nested: Option<usize>) -> Option<Seq<char>> {
    match nested {
        None => Some(Seq::<char>::empty()),
        Some(s) => match first(select(ev, Some(s), by_tag("h1"@))) {
            None => Some(Seq::<char>::empty()),
            Some(h1) => match first(select(ev, Some(h1), by_tag("a"@))) {
                None => None,
                Some(a) => match attr(ev, a, "href"@) {
                    None => None,
                    Some(href) => Some(site() + href),
                },
            },
        },
    }
}

/// The developer shown by the article at `art`, read from that article
/// alone; `None` where the article lacks an image with a `src`, a heading,
/// or a link in the heading of its nested article (where reading it would
/// panic on a missing part).
pub open spec fn developer_at(ev: Seq<EventView>, art: usize) -> Option<DeveloperView> {
    let nested = first(select(ev, Some(art), by_tag("article"@)));
    let description = match nested {
        None => Seq::<char>::empty(),
        Some(s) => {
            let divs = select(ev, Some(s), by_tag("div"@));
            if divs.len() > 1 {
                trim(concat(texts(ev, divs[1])))
            } else {
                Seq::<char>::empty()
            }
        },
    };
    match first(select(ev, Some(art), by_tag("img"@))) {
        None => None,
        Some(img) => match attr(ev, img, "src"@) {
            None => None,
            Some(avatar) => match first(select(ev, Some(art), by_tag("h1"@))) {
                None => None,
                Some(h1) => match popular_repo_at(ev, nested) {
                    None => None,
                    Some(popular_repo) => Some(
                        DeveloperView { name: trim(concat(texts(ev, h1))), avatar, popular_repo, description },
                    ),
                },
            },
        },
    }
}

/// The developer shown by an article, given as its own document (the walk
/// of the article element, opened at position 0).
pub open spec fn developer_of(article: Seq<EventView>) -> Option<DeveloperView> {
    developer_at(article, 0)
}

/// The developers shown by `articles`, each read from its own article, in
/// order; `None` if one of the articles lacks what a developer is read from.
pub open spec fn developers_of(articles: Seq<Seq<EventView>>) -> Option<Seq<DeveloperView>>
    decreases articles.len(),
{
    if articles.len() == 0 {
        Some(Seq::<DeveloperView>::empty())
    } else {
        match (developers_of(articles.drop_last()), developer_of(articles.last())) {
            (Some(ds), Some(d)) => Some(ds.push(d)),
            _ => None,
        }
    }
}

/// The developers that the page `source` shows: one per element that
/// scraper's `Html::select` yields for `article[class="Box-row d-flex"]`, in
/// its order; `None` where an article lacks a part (where reading it by
/// unwrapping each part would panic).
pub open spec fn developers_of_page(source: Seq<char>) -> Option<Seq<DeveloperView>> {
    match html_selected_walks(source, "article[class=\"Box-row d-flex\"]"@) {
        Some(articles) => developers_of(articles),
        None => None,
    }
}

/// The view of optional developers.
pub open spec fn opt_developers(r: Option<Vec<Developer>>) -> Option<Seq<DeveloperView>> {
    match r {
        Some(ds) => Some(developer_views(ds@)),
        None => None,
    }
}

/// The view of an optional developer.
pub open spec fn opt_developer(r: Option<Developer>) -> Option<DeveloperView> {
    match r {
        Some(d) => Some(d@),
        None => None,
    }
}

/// Reads the link to a developer's popular repository.
fn read_popular_repo(doc: &Document, nested: Option<usize>) -> (r: Option<String>)
    requires
        nested matches Some(s) ==> s < doc@.len(),
    ensures
        opt_view(r) == popular_repo_at(doc@, nested),
{
    match nested {
        None => Some(String::new()),
        Some(s) => {
            let h1_sel = Selector::tag("h1");
            match doc.first_within(s, &h1_sel) {
                None => Some(String::new()),
                Some(h1) => {
                    let a_sel = Selector::tag("a");
                    match doc.first_within(h1, &a_sel) {
                        None => None,
                        Some(a) => match doc.attr(a, "href") {
                            None => None,
                            Some(href) => {
                                let mut url = String::from_str("https://github.com");
                                url.append(href.as_str());
                                Some(url)
                            },
                        },
                    }
                },
            }
        },
    }
}

/// Reads the developer shown by the article at `art`.
fn read_developer(doc: &Document, art: usize) -> (r: Option<Developer>)
    requires
        art < doc@.len(),
    ensures
        opt_developer(r) == developer_at(doc@, art),
{
    let img_sel = Selector::tag("img");
    let img = match doc.first_within(art, &img_sel) {
        None => return None,
        Some(img) => img,
    };
    let avatar = match doc.attr(img, "src") {
        None => return None,
        Some(a) => a,
    };
    let h1_sel = Selector::tag("h1");
    let h1 = match doc.first_within(art, &h1_sel) {
        None => return None,
        Some(h1) => h1,
    };
    let name = trim_string(join_strings(&doc.texts(h1)).as_str());
    let art_sel = Selector::tag("article");
    let nested = doc.first_within(art, &art_sel);
    let popular_repo = match read_popular_repo(doc, nested) {
        None => return None,
        Some(p) => p,
    };
    let description = match nested {
        None => String::new(),
        Some(s) => {
            let div_sel = Selector::tag("div");
            let divs = doc.select_within(s, &div_sel);
            if divs.len() > 1 {
                trim_string(join_strings(&doc.texts(divs[1])).as_str())
            } else {
                String::new()
            }
        },
    };
    Some(Developer { name, avatar, popular_repo, description })
}

proof fn lemma_developers_none(articles: Seq<Seq<EventView>>, k: int)
    requires
        0 <= k <= articles.len(),
        developers_of(articles.take(k)) is None,
    ensures
        developers_of(articles) is None,
    decreases articles.len() - k,
{
    if k < articles.len() {
        assert(articles.take(k + 1).drop_last() == articles.take(k));
        lemma_developers_none(articles, k + 1);
    } else {
        assert(articles.take(k) == articles);
    }
}

impl Developer {
    /// Reads the developers shown by `articles`, each article given as its
    /// own document opened at position 0, in order. `None` where an article
    /// lacks an image with a `src`, a heading, or a link with an `href` in
    /// the heading of its nested article: the pages on which a reading that
    /// unwraps each part would panic.
    pub fn from_articles(articles: &Vec<Document>) -> (r: Option<Vec<Developer>>)
        ensures
            opt_developers(r) == developers_of(document_views(articles@)),
    {
        let n = articles.len();
        let ghost arts = document_views(articles@);
        let mut out: Vec<Developer> = Vec::new();
        assert(arts.take(0) == Seq::<Seq<EventView>>::empty());
        for i in 0..n
            invariant
                n == articles@.len(),
                arts == document_views(articles@),
                developers_of(arts.take(i as int)) == Some(developer_views(out@)),
        {
            assert(arts.take(i + 1).drop_last() == arts.take(i as int));
            assert(arts.take(i + 1).last() == articles@[i as int]@);
            let art = &articles[i];
            let read = if art.events.len() == 0 {
                proof {
                    lemma_empty_article(by_tag("img"@));
                }
                None
            } else {
                read_developer(art, 0)
            };
            match read {
                None => {
                    proof {
                        lemma_developers_none(arts, i + 1);
                    }
                    return None;
                },
                Some(d) => {
                    let ghost before = out@;
                    out.push(d);
                    assert(developer_views(out@) =~= developer_views(before).push(d@));
                },
            }
        }
        assert(arts.take(n as int) == arts);
        Some(out)
    }

    /// Parses the developer page `content` and reads one developer per
    /// element that scraper's `Html::select` yields for
    /// `article[class="Box-row d-flex"]`, in its order, each as
    /// [`Developer::from_articles`] reads it; `None` stands for a page on
    /// which an article lacks a part, where a reading that unwraps each part
    /// would panic.
    pub fn parse_html(content: &str) -> (r: Option<Vec<Developer>>)
        ensures
            opt_developers(r) == developers_of_page(content@),
    {
        match Document::select_subtrees(content, "article[class=\"Box-row d-flex\"]") {
            None => None,
            Some(articles) => {
                assert(articles@.map_values(|d: Document| d@) == document_views(articles@));
                Self::from_articles(&articles)
            },
        }
    }
}


impl Default for Collaborator {
    fn default() -> (c: Self)
        ensures
            c@ == (CollaboratorView { name: Seq::<char>::empty(), avatar: Seq::<char>::empty() }),
    {
        Collaborator { name: String::new(), avatar: String::new() }
    }
}

impl Default for Repository {
    fn default() -> (r: Self)
        ensures
            r@ == (RepositoryView {
                author: Seq::<char>::empty(),
                name: Seq::<char>::empty(),
                link: Seq::<char>::empty(),
                description: Seq::<char>::empty(),
                star_count: 0,
                add: Seq::<char>::empty(),
                forks: 0,
                language: Seq::<char>::empty(),
                build_by: Seq::<CollaboratorView>::empty(),
            }),
    {
        let r = Repository {
            author: String::new(),
            name: String::new(),
            link: String::new(),
            description: String::new(),
            star_count: 0,
            add: String::new(),
            forks: 0,
            language: String::new(),
            build_by: Vec::new(),
        };
        assert(collaborator_views(r.build_by@) =~= Seq::<CollaboratorView>::empty());
        r
    }
}

impl Default for Developer {
    fn default() -> (d: Self)
        ensures
            d@ == (DeveloperView {
                name: Seq::<char>::empty(),
                avatar: Seq::<char>::empty(),
                popular_repo: Seq::<char>::empty(),
                description: Seq::<char>::empty(),
            }),
    {
        Developer {
            name: String::new(),
            avatar: String::new(),
            popular_repo: String::new(),
            description: String::new(),
        }
    }
}

/// Each repository as a record, in order.
pub fn repositories_as_user_data(rs: Vec<Repository>) -> (r: Vec<UserDataType>)
    ensures
        user_data_views(r@) == repository_views(rs@).map_values(
            |v: RepositoryView| UserDataView::Repository(v),
        ),
{
    let ghost src = rs@;
    let mut out: Vec<UserDataType> = Vec::new();
    for x in it: rs.into_iter()
        invariant
            it.seq() == src,
            user_data_views(out@) == repository_views(src.take(it.index() as int)).map_values(
                |v: RepositoryView| UserDataView::Repository(v),
            ),
    {
        let ghost i = it.index();
        let ghost before = out@;
        assert(x == src[i as int]);
        let u = UserDataType::Repository(x);
        out.push(u);
        assert(src.take(i + 1) == src.take(i as int).push(x));
        assert(user_data_views(out@) =~= user_data_views(before).push(u@));
        assert(repository_views(src.take(i + 1)) =~= repository_views(src.take(i as int)).push(x@));
        assert(user_data_views(out@) =~= repository_views(src.take(i + 1)).map_values(
            |v: RepositoryView| UserDataView::Repository(v),
        ));
    }
    assert(src.take(src.len() as int) == src);
    out
}

/// Each developer as a record, in order.
pub fn developers_as_user_data(ds: Vec<Developer>) -> (r: Vec<UserDataType>)
    ensures
        user_data_views(r@) == developer_views(ds@).map_values(
            |v: DeveloperView| UserDataView::Developer(v),
        ),
{
    let ghost src = ds@;
    let mut out: Vec<UserDataType> = Vec::new();
    for x in it: ds.into_iter()
        invariant
            it.seq() == src,
            user_data_views(out@) == developer_views(src.take(it.index() as int)).map_values(
                |v: DeveloperView| UserDataView::Developer(v),
            ),
    {
        let ghost i = it.index();
        let ghost before = out@;
        assert(x == src[i as int]);
        let u = UserDataType::Developer(x);
        out.push(u);
        assert(src.take(i + 1) == src.take(i as int).push(x));
        assert(user_data_views(out@) =~= user_data_views(before).push(u@));
        assert(developer_views(src.take(i + 1)) =~= developer_views(src.take(i as int)).push(x@));
        assert(user_data_views(out@) =~= developer_views(src.take(i + 1)).map_values(
            |v: DeveloperView| UserDataView::Developer(v),
        ));
    }
    assert(src.take(src.len() as int) == src);
    out
}


proof fn lemma_collaborators_count(ev: Seq<EventView>, links: Seq<usize>)
    ensures
        collaborators_at(ev, links) matches Some(cs) ==> {
            &&& cs.len() == links.len()
            &&& forall|j: int| 0 <= j < cs.len() ==> lacks(#[trigger] cs[j].name, '@')
            &&& forall|j: int| 0 <= j < cs.len() ==> Some(#[trigger] cs[j]) == collaborator_at(ev, links[j])
        },
    decreases links.len(),
{
    if links.len() > 0 {
        lemma_collaborators_count(ev, links.drop_last());
        match first(select(ev, Some(links.last()), by_tag("img"@))) {
            Some(img) => match attr(ev, img, "alt"@) {
                Some(alt) => lemma_remove_char_lacks(alt, '@'),
                None => {},
            },
            None => {},
        }
        if let Some(cs) = collaborators_at(ev, links) {
            let prev = collaborators_at(ev, links.drop_last())->0;
            assert forall|j: int| 0 <= j < cs.len() implies lacks(#[trigger] cs[j].name, '@') && Some(cs[j])
                == collaborator_at(ev, links[j]) by {
                if j < prev.len() {
                    assert(cs[j] == prev[j]);
                    assert(links.drop_last()[j] == links[j]);
                }
            }
        }
    }
}

/// Whether the element at a position has no `itemprop` attribute.
pub open spec fn without_itemprop(ev: Seq<EventView>) -> spec_fn(usize) -> bool {
    |k: usize| attr(ev, k, "itemprop"@) is None
}

proof fn lemma_unlabelled_filter(ev: Seq<EventView>, ks: Seq<usize>)
    ensures
        unlabelled(ev, ks) == ks.filter(without_itemprop(ev)),
    decreases ks.len(),
{
    reveal(Seq::filter);
    if ks.len() > 0 {
        lemma_unlabelled_filter(ev, ks.drop_last());
    }
}

/// What every repository read from a single article satisfies: its author
/// has no space, its name no `/`, its trend line (`add`) neither starts nor
/// ends with white space, its contributors' names hold no `@`, and its link
/// starts with `https://github.com`.
pub open spec fn well_read_repository(r: RepositoryView) -> bool {
    &&& lacks(r.author, ' ')
    &&& lacks(r.name, '/')
    &&& is_trimmed(r.add)
    &&& site().is_prefix_of(r.link)
    &&& forall|j: int| 0 <= j < r.build_by.len() ==> lacks(#[trigger] r.build_by[j].name, '@')
}

proof fn lemma_repository_at_well_read(ev: Seq<EventView>, art: usize)
    ensures
        repository_at(ev, art) matches Some(r) ==> well_read_repository(r),
{
    if let Some(r) = repository_at(ev, art) {
        let h2 = first(select(ev, Some(art), by_attribute("h2"@, "class"@, "h3 lh-condensed"@)))->0;
        let a = first(select(ev, Some(h2), by_tag("a"@)))->0;
        let href = attr(ev, a, "href"@)->0;
        assert((site() + href).subrange(0, site().len() as int) =~= site());
        let words = split(concat_trimmed(texts(ev, a)), ' ');
        lemma_split_pieces_lack(concat_trimmed(texts(ev, a)), ' ');
        assert(lacks(words[0], ' '));
        lemma_remove_char_lacks(words[1], '/');
        let spans = unlabelled(ev, select(ev, Some(art), by_tag("span"@)));
        lemma_trim_is_trimmed(concat(texts(ev, spans.last())));
        lemma_collaborators_count(ev, select(ev, Some(spans[spans.len() - 2]), by_tag("a"@)));
    }
}

/// What a repository read from an article is made of, part by part, in
/// terms of the article alone: its link is `https://github.com` followed by
/// the `href` of the first link in the first `h2` of class `h3
/// lh-condensed`; its author and name are the first two space-separated
/// words of that link's text pieces, each trimmed and joined (the name
/// without `/`); its description is the trimmed text pieces of the first
/// `p`, joined, or empty without one; its language is the whole text of the
/// first `span[itemprop="programmingLanguage"]` inside the third `div`, or
/// empty without one; its star and fork counts are read from the links to
/// the repository's stargazers and forks inside that `div`; its trend line
/// is the trimmed text of the last `span` without `itemprop`; and it has
/// exactly one contributor per link inside the second-to-last such `span`,
/// in order, the `j`-th read from the first image of the `j`-th link: its
/// `alt` without `@` and its `src`.
pub proof fn law_repository_parts(article: Seq<EventView>)
    ensures
        repository_of(article) matches Some(r) ==> {
            let divs = select(article, Some(0), by_tag("div"@));
            let spans = select(article, Some(0), by_tag("span"@)).filter(without_itemprop(article));
            &&& first(select(article, Some(0), by_attribute("h2"@, "class"@, "h3 lh-condensed"@))) matches Some(h2)
            &&& first(select(article, Some(h2), by_tag("a"@))) matches Some(a)
            &&& attr(article, a, "href"@) matches Some(href)
            &&& r.link == site() + href
            &&& split(concat_trimmed(texts(article, a)), ' ').len() >= 2
            &&& r.author == split(concat_trimmed(texts(article, a)), ' ')[0]
            &&& r.name == remove_char(split(concat_trimmed(texts(article, a)), ' ')[1], '/')
            &&& r.description == match first(select(article, Some(0), by_tag("p"@))) {
                Some(p) => concat_trimmed(texts(article, p)),
                None => Seq::<char>::empty(),
            }
            &&& divs.len() >= 3
            &&& r.language == match first(
                select(article, Some(divs[2]), by_attribute("span"@, "itemprop"@, "programmingLanguage"@)),
            ) {
                Some(sp) => concat(texts(article, sp)),
                None => Seq::<char>::empty(),
            }
            &&& css_string(href + "/stargazers"@) matches Some(star_href)
            &&& first(select(article, Some(divs[2]), by_attribute("a"@, "href"@, star_href))) matches Some(sa)
            &&& parse_u32(split(trim(remove_char(concat(texts(article, sa)), ',')), ' ')[0]) == Some(
                r.star_count,
            )
            &&& css_string(replace_all(href + "/stargazers"@, "/stargazers"@, "/forks"@)) matches Some(
                fork_href,
            )
            &&& first(select(article, Some(divs[2]), by_attribute("a"@, "href"@, fork_href))) matches Some(fa)
            &&& parse_u32(trim(remove_char(concat(texts(article, fa)), ','))) == Some(r.forks)
            &&& spans.len() >= 2
            &&& r.add == trim(concat(texts(article, spans.last())))
            &&& r.build_by.len() == select(article, Some(spans[spans.len() - 2]), by_tag("a"@)).len()
            &&& forall|j: int|
                #![trigger r.build_by[j]]
                #![trigger select(article, Some(spans[spans.len() - 2]), by_tag("a"@))[j]]
                0 <= j < r.build_by.len() ==> {
                    let link = select(article, Some(spans[spans.len() - 2]), by_tag("a"@))[j];
                    &&& first(select(article, Some(link), by_tag("img"@))) matches Some(img)
                    &&& attr(article, img, "src"@) == Some(r.build_by[j].avatar)
                    &&& attr(article, img, "alt"@) matches Some(alt)
                    &&& r.build_by[j].name == remove_char(alt, '@')
                }
        },
{
    if let Some(r) = repository_of(article) {
        let ks = select(article, Some(0), by_tag("span"@));
        lemma_unlabelled_filter(article, ks);
        let spans = ks.filter(without_itemprop(article));
        assert(spans == unlabelled(article, ks));
        let links = select(article, Some(spans[spans.len() - 2]), by_tag("a"@));
        lemma_collaborators_count(article, links);
        assert forall|j: int|
            #![trigger r.build_by[j]]
            #![trigger select(article, Some(spans[spans.len() - 2]), by_tag("a"@))[j]]
            0 <= j < r.build_by.len() implies {
                let link = select(article, Some(spans[spans.len() - 2]), by_tag("a"@))[j];
                &&& first(select(article, Some(link), by_tag("img"@))) matches Some(img)
                &&& attr(article, img, "src"@) == Some(r.build_by[j].avatar)
                &&& attr(article, img, "alt"@) matches Some(alt)
                &&& r.build_by[j].name == remove_char(alt, '@')
            } by {
            assert(Some(r.build_by[j]) == collaborator_at(article, links[j]));
        }
    }
}

/// Reading a list of articles reads each article by itself: one repository
/// per article, the `k`-th from the `k`-th article alone, and every one of
/// them well read.
pub proof fn law_repositories_per_article(articles: Seq<Seq<EventView>>)
    ensures
        repositories_of(articles) matches Some(rs) ==> {
            &&& rs.len() == articles.len()
            &&& forall|k: int|
                0 <= k < rs.len() ==> Some(#[trigger] rs[k]) == repository_of(articles[k])
                    && well_read_repository(rs[k])
        },
    decreases articles.len(),
{
    if articles.len() > 0 {
        law_repositories_per_article(articles.drop_last());
        lemma_repository_at_well_read(articles.last(), 0);
        if let Some(rs) = repositories_of(articles) {
            let prev = repositories_of(articles.drop_last())->0;
            assert forall|k: int| 0 <= k < rs.len() implies Some(#[trigger] rs[k]) == repository_of(
                articles[k],
            ) && well_read_repository(rs[k]) by {
                if k < prev.len() {
                    assert(rs[k] == prev[k]);
                    assert(articles.drop_last()[k] == articles[k]);
                }
            }
        }
    }
}

/// Reading the articles `a` and then the articles `b` gives the repositories
/// of `a` followed by those of `b`: nothing read from one article carries
/// over into the next.
pub proof fn law_repositories_concatenate(a: Seq<Seq<EventView>>, b: Seq<Seq<EventView>>)
    ensures
        repositories_of(a + b) == match (repositories_of(a), repositories_of(b)) {
            (Some(x), Some(y)) => Some(x + y),
            _ => None::<Seq<RepositoryView>>,
        },
    decreases b.len(),
{
    if b.len() == 0 {
        assert(a + b == a);
        if let Some(x) = repositories_of(a) {
            assert(x + Seq::<RepositoryView>::empty() == x);
        }
    } else {
        law_repositories_concatenate(a, b.drop_last());
        assert((a + b).drop_last() == a + b.drop_last());
        assert((a + b).last() == b.last());
        if let (Some(x), Some(y)) = (repositories_of(a), repositories_of(b.drop_last())) {
            if let Some(r) = repository_of(b.last()) {
                assert((x + y).push(r) == x + y.push(r));
            }
        }
    }
}

/// A page is read as one repository per element that scraper's `Html::select`
/// yields for `article[class="Box-row"]`, in its order, each from its own article
/// alone, and every one well read.
pub proof fn law_repositories_of_page(source: Seq<char>)
    ensures
        repositories_of_page(source) matches Some(rs) ==> {
            &&& html_selected_walks(source, "article[class=\"Box-row\"]"@) is Some
            &&& rs.len() == html_selected_walks(source, "article[class=\"Box-row\"]"@)->0.len()
            &&& forall|k: int|
                0 <= k < rs.len() ==> Some(#[trigger] rs[k]) == repository_of(
                    html_selected_walks(source, "article[class=\"Box-row\"]"@)->0[k],
                ) && well_read_repository(rs[k])
        },
{
    if let Some(articles) = html_selected_walks(source, "article[class=\"Box-row\"]"@) {
        law_repositories_per_article(articles);
    }
}

/// What every developer read from a single article satisfies: a name and a
/// description that neither start nor end with white space, and a link to
/// the popular repository that is empty or starts with `https://github.com`.
pub open spec fn well_read_developer(d: DeveloperView) -> bool {
    &&& is_trimmed(d.name)
    &&& is_trimmed(d.description)
    &&& (d.popular_repo.len() == 0 || site().is_prefix_of(d.popular_repo))
}

proof fn lemma_developer_at_well_read(ev: Seq<EventView>, art: usize)
    ensures
        developer_at(ev, art) matches Some(d) ==> well_read_developer(d),
{
    if let Some(d) = developer_at(ev, art) {
        let h1 = first(select(ev, Some(art), by_tag("h1"@)))->0;
        lemma_trim_is_trimmed(concat(texts(ev, h1)));
        let nested = first(select(ev, Some(art), by_tag("article"@)));
        if let Some(s) = nested {
            let divs = select(ev, Some(s), by_tag("div"@));
            if divs.len() > 1 {
                lemma_trim_is_trimmed(concat(texts(ev, divs[1])));
            }
            if let Some(h) = first(select(ev, Some(s), by_tag("h1"@))) {
                let a = first(select(ev, Some(h), by_tag("a"@)))->0;
                let href = attr(ev, a, "href"@)->0;
                assert((site() + href).subrange(0, site().len() as int) =~= site());
            }
        }
    }
}

/// What a developer read from an article is made of, part by part, in terms
/// of the article alone: the avatar is the `src` of the article's first
/// image; the name is the whole text of its first `h1`, trimmed; the
/// description is the trimmed text of the second `div` of the first nested
/// `article` (empty without one); and the link to the popular repository is
/// `https://github.com` followed by the `href` of the first link in the
/// first `h1` of that nested article (empty without a nested article or
/// without a heading in it).
pub proof fn law_developer_parts(article: Seq<EventView>)
    ensures
        developer_of(article) matches Some(d) ==> {
            let nested = first(select(article, Some(0), by_tag("article"@)));
            &&& first(select(article, Some(0), by_tag("img"@))) matches Some(img)
            &&& attr(article, img, "src"@) == Some(d.avatar)
            &&& first(select(article, Some(0), by_tag("h1"@))) matches Some(h1)
            &&& d.name == trim(concat(texts(article, h1)))
            &&& d.description == match nested {
                None => Seq::<char>::empty(),
                Some(s) => if select(article, Some(s), by_tag("div"@)).len() > 1 {
                    trim(concat(texts(article, select(article, Some(s), by_tag("div"@))[1])))
                } else {
                    Seq::<char>::empty()
                },
            }
            &&& Some(d.popular_repo) == match nested {
                None => Some(Seq::<char>::empty()),
                Some(s) => match first(select(article, Some(s), by_tag("h1"@))) {
                    None => Some(Seq::<char>::empty()),
                    Some(h) => match first(select(article, Some(h), by_tag("a"@))) {
                        None => None,
                        Some(a) => match attr(article, a, "href"@) {
                            None => None,
                            Some(href) => Some(site() + href),
                        },
                    },
                },
            }
        },
{
}

/// Reading a list of articles reads each article by itself: one developer
/// per article, the `k`-th from the `k`-th article alone, and every one of
/// them well read.
pub proof fn law_developers_per_article(articles: Seq<Seq<EventView>>)
    ensures
        developers_of(articles) matches Some(ds) ==> {
            &&& ds.len() == articles.len()
            &&& forall|k: int|
                0 <= k < ds.len() ==> Some(#[trigger] ds[k]) == developer_of(articles[k])
                    && well_read_developer(ds[k])
        },
    decreases articles.len(),
{
    if articles.len() > 0 {
        law_developers_per_article(articles.drop_last());
        lemma_developer_at_well_read(articles.last(), 0);
        if let Some(ds) = developers_of(articles) {
            let prev = developers_of(articles.drop_last())->0;
            assert forall|k: int| 0 <= k < ds.len() implies Some(#[trigger] ds[k]) == developer_of(
                articles[k],
            ) && well_read_developer(ds[k]) by {
                if k < prev.len() {
                    assert(ds[k] == prev[k]);
                    assert(articles.drop_last()[k] == articles[k]);
                }
            }
        }
    }
}

/// Reading the articles `a` and then the articles `b` gives the developers
/// of `a` followed by those of `b`: nothing read from one article carries
/// over into the next.
pub proof fn law_developers_concatenate(a: Seq<Seq<EventView>>, b: Seq<Seq<EventView>>)
    ensures
        developers_of(a + b) == match (developers_of(a), developers_of(b)) {
            (Some(x), Some(y)) => Some(x + y),
            _ => None::<Seq<DeveloperView>>,
        },
    decreases b.len(),
{
    if b.len() == 0 {
        assert(a + b == a);
        if let Some(x) = developers_of(a) {
            assert(x + Seq::<DeveloperView>::empty() == x);
        }
    } else {
        law_developers_concatenate(a, b.drop_last());
        assert((a + b).drop_last() == a + b.drop_last());
        assert((a + b).last() == b.last());
        if let (Some(x), Some(y)) = (developers_of(a), developers_of(b.drop_last())) {
            if let Some(d) = developer_of(b.last()) {
                assert((x + y).push(d) == x + y.push(d));
            }
        }
    }
}

/// A page is read as one developer per element that scraper's `Html::select`
/// yields for `article[class="Box-row d-flex"]`, in its order, each from its own article
/// alone, and every one well read.
pub proof fn law_developers_of_page(source: Seq<char>)
    ensures
        developers_of_page(source) matches Some(ds) ==> {
            &&& html_selected_walks(source, "article[class=\"Box-row d-flex\"]"@) is Some
            &&& ds.len() == html_selected_walks(source, "article[class=\"Box-row d-flex\"]"@)->0.len()
            &&& forall|k: int|
                0 <= k < ds.len() ==> Some(#[trigger] ds[k]) == developer_of(
                    html_selected_walks(source, "article[class=\"Box-row d-flex\"]"@)->0[k],
                ) && well_read_developer(ds[k])
        },
{
    if let Some(articles) = html_selected_walks(source, "article[class=\"Box-row d-flex\"]"@) {
        law_developers_per_article(articles);
    }
}

} // verus!
