use ghtrending::dom::{Attribute, Document, NodeEvent, Selector};

#[test]
fn test_parse_input_attr() {
    let fragment = Document::parse(r#"<input name="foo" value="bar">"#);
    let selector = Selector::with_attribute("input", "name", "foo");

    let input = fragment.select(&selector)[0];
    assert_eq!(fragment.attr(input, "name"), Some("foo".to_string()));
    assert_eq!(fragment.attr(input, "value"), Some("bar".to_string()));
}

#[test]
fn test_parse_article() {
    let fragement = Document::parse(r#"<article class="Box-row">...</article>"#);
    let selector = Selector::with_attribute("article", "class", "Box-row");

    let article = fragement.select(&selector)[0];
    assert_eq!(fragement.attr(article, "class"), Some("Box-row".to_string()));
    assert_eq!(fragement.texts(article), vec!["...".to_string()]);
}

#[test]
fn select_within_stays_inside_the_element() {
    let doc = Document::parse("<div id=\"x\"><p>a</p><p>b</p></div><p>c</p>");
    let div = doc.select(&Selector::tag("div"))[0];
    let inner = doc.select_within(div, &Selector::tag("p"));
    assert_eq!(inner.len(), 2);
    assert_eq!(doc.select(&Selector::tag("p")).len(), 3);
    assert_eq!(doc.texts(inner[1]), vec!["b".to_string()]);
    assert_eq!(doc.texts(div), vec!["a".to_string(), "b".to_string()]);
    assert_eq!(doc.first_within(inner[0], &Selector::tag("p")), None);
    assert_eq!(doc.attr(div, "id"), Some("x".to_string()));
    assert_eq!(doc.attr(div, "class"), None);
}

#[test]
fn attribute_selector_needs_the_exact_value() {
    let doc = Document::parse("<a href=\"/x\">1</a><a href=\"/x/y\">2</a><a>3</a>");
    let hits = doc.select(&Selector::with_attribute("a", "href", "/x/y"));
    assert_eq!(hits.len(), 1);
    assert_eq!(doc.texts(hits[0]), vec!["2".to_string()]);
    assert_eq!(doc.select(&Selector::tag("a")).len(), 3);
}

fn element(name: &str, attributes: Vec<(&str, &str)>) -> NodeEvent {
    NodeEvent::OpenElement {
        name: name.to_string(),
        attributes: attributes
            .into_iter()
            .map(|(n, v)| Attribute { namespace: String::new(), name: n.to_string(), value: v.to_string() })
            .collect(),
    }
}

#[test]
fn a_document_written_by_hand_is_read_the_same_way() {
    // <div class="x"><span>a</span>b</div><span>c</span>
    let doc = Document {
        events: vec![
            NodeEvent::OpenOther,
            element("div", vec![("class", "x")]),
            element("span", vec![]),
            NodeEvent::OpenText("a".to_string()),
            NodeEvent::Close,
            NodeEvent::Close,
            NodeEvent::OpenText("b".to_string()),
            NodeEvent::Close,
            NodeEvent::Close,
            element("span", vec![]),
            NodeEvent::OpenText("c".to_string()),
            NodeEvent::Close,
            NodeEvent::Close,
            NodeEvent::Close,
        ],
    };
    assert_eq!(doc.select(&Selector::tag("span")), vec![2, 9]);
    assert_eq!(doc.select(&Selector::with_attribute("div", "class", "x")), vec![1]);
    assert_eq!(doc.select_within(1, &Selector::tag("span")), vec![2]);
    assert_eq!(doc.texts(1), vec!["a".to_string(), "b".to_string()]);
    assert_eq!(doc.texts(9), vec!["c".to_string()]);
    assert_eq!(doc.attr(1, "class"), Some("x".to_string()));
    assert_eq!(doc.attr(3, "class"), None);
}

#[test]
fn selection_agrees_with_scraper() {
    let page = r#"<html><body>
      <article class="Box-row"><h2 class="h3 lh-condensed"><a href="/a/b">a / b</a></h2>
        <span itemprop="programmingLanguage">Go</span><span>x</span></article>
      <table><tr><td><article class="Box-row"><p>in a table</p></article></td></tr></table>
      <article class="Box-row other"><p>not matched</p></article>
    </body></html>"#;
    let html = scraper::Html::parse_document(page);
    let doc = Document::parse(page);
    for (tag, attr) in [
        ("article", Some(("class", "Box-row"))),
        ("span", None),
        ("span", Some(("itemprop", "programmingLanguage"))),
        ("p", None),
        ("a", Some(("href", "/a/b"))),
    ] {
        let css = match attr {
            Some((n, v)) => format!("{}[{}=\"{}\"]", tag, n, v),
            None => tag.to_string(),
        };
        let theirs: Vec<Vec<String>> = html
            .select(&scraper::Selector::parse(&css).unwrap())
            .map(|e| e.text().map(|t| t.to_string()).collect())
            .collect();
        let sel = match attr {
            Some((n, v)) => Selector::with_attribute(tag, n, v),
            None => Selector::tag(tag),
        };
        let ours: Vec<Vec<String>> = doc.select(&sel).into_iter().map(|k| doc.texts(k)).collect();
        assert_eq!(ours, theirs, "selector {}", css);
    }
}
