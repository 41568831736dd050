//! A parsed HTML document held as plain values, and the selection of its
//! elements by tag name and attribute value.
//!
//! The document is the list of its nodes in document order, each node given
//! by an opening event and, after all of its descendants, a closing event.

use vstd::prelude::*;
use ego_tree::iter::Edge;
use scraper::{Html, Node};

verus! {

/// An attribute of an element: its namespace (empty for ordinary HTML
/// attributes), its local name and its value.
pub struct Attribute {
    pub namespace: String,
    pub name: String,
    pub value: String,
}

/// One event of a document walked in document order.
pub enum NodeEvent {
    /// The start of an element, with its local name and its attributes in
    /// source order.
    OpenElement { name: String, attributes: Vec<Attribute> },
    /// The start of a text node.
    OpenText(String),
    /// The start of any other node (the document itself, a doctype, a comment,
    /// a processing instruction).
    OpenOther,
    /// The end of the node opened last and not yet closed.
    Close,
}

/// A parsed HTML document: the events of a walk over its node tree.
pub struct Document {
    pub events: Vec<NodeEvent>,
}

/// A selector of the form `tag` or `tag[attribute="value"]`: it matches the
/// elements of that local name which, for the second form, have an attribute
/// of that name, in no namespace, with exactly that value. scraper's
/// selectors compare values exactly too, except for a list of HTML
/// attributes (`type`, `lang`, `rel` and the like) on HTML elements, which
/// they compare without regard to ASCII case; this selector compares those
/// exactly as well. The page readers select by `class`, `itemprop` and
/// `href` only, which scraper compares exactly.
pub struct Selector {
    pub tag: String,
    pub attribute: Option<(String, String)>,
}

/// The model of an [`Attribute`].
pub struct AttributeView {
    pub namespace: Seq<char>,
    pub name: Seq<char>,
    pub value: Seq<char>,
}

/// The model of a [`NodeEvent`].
pub enum EventView {
    OpenElement { name: Seq<char>, attributes: Seq<AttributeView> },
    OpenText(Seq<char>),
    OpenOther,
    Close,
}

/// The model of a [`Selector`].
pub struct SelectorView {
    pub tag: Seq<char>,
    pub attribute: Option<(Seq<char>, Seq<char>)>,
}

impl View for Attribute {
    type V = AttributeView;

    open spec fn view(&self) -> AttributeView {
        AttributeView { namespace: self.namespace@, name: self.name@, value: self.value@ }
    }
}

/// The models of a list of attributes.
pub open spec fn attribute_views(attributes: Seq<Attribute>) -> Seq<AttributeView> {
    attributes.map_values(|a: Attribute| a@)
}

impl View for NodeEvent {
    type V = EventView;

    open spec fn view(&self) -> EventView {
        match self {
            NodeEvent::OpenElement { name, attributes } => EventView::OpenElement {
                name: name@,
                attributes: attribute_views(attributes@),
            },
            NodeEvent::OpenText(t) => EventView::OpenText(t@),
            NodeEvent::OpenOther => EventView::OpenOther,
            NodeEvent::Close => EventView::Close,
        }
    }
}

/// The models of a list of events.
pub open spec fn event_views(events: Seq<NodeEvent>) -> Seq<EventView> {
    events.map_values(|e: NodeEvent| e@)
}

impl View for Document {
    type V = Seq<EventView>;

    open spec fn view(&self) -> Seq<EventView> {
        event_views(self.events@)
    }
}

impl View for Selector {
    type V = SelectorView;

    open spec fn view(&self) -> SelectorView {
        SelectorView {
            tag: self.tag@,
            attribute: match self.attribute {
                Some((k, v)) => Some((k@, v@)),
                None => None,
            },
        }
    }
}

/// The events of the document that `scraper::Html::parse_document` builds
/// from `source`, walked in document order.
pub uninterp spec fn html_document_events(source: Seq<char>) -> Seq<EventView>;

/// Parses `content` with `scraper::Html::parse_document` and walks the tree
/// that it builds with `ego_tree`'s `traverse`, turning each edge into an
/// event: the contract claims only that the result is the document that this
/// parse gives for `content`, which the name [`html_document_events`] stands
/// for. Attributes come in source order (scraper's `deterministic` feature).
#[verifier::external_body]
fn scraper_document_events(content: &str) -> (events: Vec<NodeEvent>)
    ensures
        event_views(events@) == html_document_events(content@),
{
    let html = Html::parse_document(content);
    html.tree.root().traverse().map(|edge| match edge {
        Edge::Open(node) => match node.value() {
            Node::Element(e) => NodeEvent::OpenElement {
                name: e.name().to_string(),
                attributes: e.attrs.iter().map(|(k, v)| Attribute {
                    namespace: k.ns.to_string(), name: k.local.to_string(), value: v.to_string() }).collect(),
            },
            Node::Text(t) => NodeEvent::OpenText(t.to_string()),
            Node::Document | Node::Fragment | Node::Doctype(_) | Node::Comment(_)
            | Node::ProcessingInstruction(_) => NodeEvent::OpenOther,
        },
        Edge::Close(_) => NodeEvent::Close,
    }).collect()
}

/// The walks, one per element in the order that scraper's `Html::select`
/// yields them, of the elements that the CSS selector `selector` matches in
/// the document that `scraper::Html::parse_document` builds from `source`;
/// `None` if `scraper::Selector::parse` refuses `selector`.
pub uninterp spec fn html_selected_walks(source: Seq<char>, selector: Seq<char>) -> Option<Seq<Seq<EventView>>>;

/// The models of the walks.
pub open spec fn walk_views(walks: Seq<Vec<NodeEvent>>) -> Seq<Seq<EventView>> {
    walks.map_values(|w: Vec<NodeEvent>| event_views(w@))
}

/// Parses `content` with `scraper::Html::parse_document` and `selector` with
/// `scraper::Selector::parse`, and for each element that `Html::select`
/// yields, in its order, walks the element with `ego_tree`'s `traverse`,
/// turning each edge into an event as [`scraper_document_events`] does. The
/// contract claims only that the result is what these calls give for
/// `content` and `selector`, which the name [`html_selected_walks`] stands
/// for: `None` where the selector does not parse.
#[verifier::external_body]
fn scraper_selected_walks(content: &str, selector: &str) -> (walks: Option<Vec<Vec<NodeEvent>>>)
    ensures
        match walks {
            Some(w) => html_selected_walks(content@, selector@) == Some(walk_views(w@)),
            None => html_selected_walks(content@, selector@) is None,
        },
{
    let sel = scraper::Selector::parse(selector).ok()?;
    Some(Html::parse_document(content).select(&sel).map(|el| el.traverse().map(|edge| match edge {
        Edge::Open(node) => match node.value() {
            Node::Element(e) => NodeEvent::OpenElement { name: e.name().to_string(),
                attributes: e.attrs.iter().map(|(k, v)| Attribute {
                    namespace: k.ns.to_string(), name: k.local.to_string(), value: v.to_string() }).collect() },
            Node::Text(t) => NodeEvent::OpenText(t.to_string()),
            _ => NodeEvent::OpenOther,
        },
        Edge::Close(_) => NodeEvent::Close,
    }).collect()).collect())
}

/// How an event changes the nesting depth.
pub open spec fn event_delta(e: EventView) -> int {
    if e is Close {
        -1
    } else {
        1
    }
}

/// The nesting depth after the first `n` events.
pub open spec fn depth(ev: Seq<EventView>, n: int) -> int
    decreases n,
{
    if n <= 0 {
        0
    } else {
        depth(ev, n - 1) + event_delta(ev[n - 1])
    }
}

/// Whether the event at `k` lies within the node opened at `scope` (for
/// `Some(scope)`), or within the document (for `None`).
pub open spec fn within(ev: Seq<EventView>, scope: Option<usize>, k: int) -> bool {
    match scope {
        None => 0 <= k < ev.len(),
        Some(s) => {
            &&& s < k < ev.len()
            &&& forall|m: int| s < m <= k ==> #[trigger] depth(ev, m) > depth(ev, s as int)
        },
    }
}

/// Whether one of `attributes` is in no namespace, named `name`, with value
/// `value`.
pub open spec fn has_attribute(attributes: Seq<AttributeView>, name: Seq<char>, value: Seq<char>) -> bool {
    exists|j: int|
        #![trigger attributes[j]]
        0 <= j < attributes.len() && attributes[j].namespace.len() == 0 && attributes[j].name == name
            && attributes[j].value == value
}

/// Whether `e` opens an element that `sel` matches.
pub open spec fn matches(e: EventView, sel: SelectorView) -> bool {
    match e {
        EventView::OpenElement { name, attributes } => {
            &&& name == sel.tag
            &&& match sel.attribute {
                None => true,
                Some((k, v)) => has_attribute(attributes, k, v),
            }
        },
        _ => false,
    }
}

/// Whether `e` is wanted: an element that `sel` matches, or a text node when
/// `sel` is `None`.
pub open spec fn wanted(e: EventView, sel: Option<SelectorView>) -> bool {
    match sel {
        Some(s) => matches(e, s),
        None => e is OpenText,
    }
}

/// The positions below `n`, in increasing order, of the wanted events within
/// `scope`.
pub open spec fn positions_upto(
    ev: Seq<EventView>,
    scope: Option<usize>,
    sel: Option<SelectorView>,
    n: int,
) -> Seq<usize>
    decreases n,
{
    if n <= 0 {
        Seq::<usize>::empty()
    } else {
        let r = positions_upto(ev, scope, sel, n - 1);
        if within(ev, scope, n - 1) && wanted(ev[n - 1], sel) {
            r.push((n - 1) as usize)
        } else {
            r
        }
    }
}

/// The positions, in document order, of the wanted events within `scope`.
pub open spec fn positions(ev: Seq<EventView>, scope: Option<usize>, sel: Option<SelectorView>) -> Seq<usize> {
    positions_upto(ev, scope, sel, ev.len() as int)
}

/// The positions of the elements that `sel` matches within `scope`, in
/// document order: for `Some(scope)` what scraper's `ElementRef::select`
/// yields on the element opened at `scope`. For `None`, the elements of the
/// whole document in document order; scraper's `Html::select` yields the
/// same elements but in the order the parser created them, which differs
/// where the parser moved a node ahead of ones made before it (as foster
/// parenting does with content misplaced inside a table).
pub open spec fn select(ev: Seq<EventView>, scope: Option<usize>, sel: SelectorView) -> Seq<usize> {
    positions(ev, scope, Some(sel))
}

/// The text of the event at `k`, empty if it is not a text node.
pub open spec fn text_of(e: EventView) -> Seq<char> {
    match e {
        EventView::OpenText(t) => t,
        _ => Seq::<char>::empty(),
    }
}

/// The text nodes within the element opened at `scope`, in document order:
/// what scraper's `ElementRef::text` yields.
pub open spec fn texts(ev: Seq<EventView>, scope: usize) -> Seq<Seq<char>> {
    positions(ev, Some(scope), None).map_values(|k: usize| text_of(ev[k as int]))
}

/// The value of the first attribute in no namespace named `name`.
pub open spec fn attribute_value(attributes: Seq<AttributeView>, name: Seq<char>) -> Option<Seq<char>>
    decreases attributes.len(),
{
    if attributes.len() == 0 {
        None
    } else if attributes[0].namespace.len() == 0 && attributes[0].name == name {
        Some(attributes[0].value)
    } else {
        attribute_value(attributes.drop_first(), name)
    }
}

/// The value of the attribute `name` of the element opened at `el`: what
/// scraper's `ElementRef::attr` gives.
pub open spec fn attr(ev: Seq<EventView>, el: usize, name: Seq<char>) -> Option<Seq<char>> {
    match ev[el as int] {
        EventView::OpenElement { attributes, .. } => attribute_value(attributes, name),
        _ => None,
    }
}

proof fn lemma_positions_past_scope(
    ev: Seq<EventView>,
    s: usize,
    sel: Option<SelectorView>,
    k: int,
    n: int,
)
    requires
        s < k <= n <= ev.len(),
        depth(ev, k) <= depth(ev, s as int),
    ensures
        positions_upto(ev, Some(s), sel, n) == positions_upto(ev, Some(s), sel, k),
    decreases n,
{
    if n > k {
        lemma_positions_past_scope(ev, s, sel, k, n - 1);
        assert(!within(ev, Some(s), n - 1) || depth(ev, k) > depth(ev, s as int));
    }
}

impl Selector {
    /// The selector `tag`.
    pub fn tag(tag: &str) -> (s: Selector)
        ensures
            s@.tag == tag@,
            s@.attribute is None,
    {
        Selector { tag: String::from_str(tag), attribute: None }
    }

    /// The selector `tag[name="value"]`.
    pub fn with_attribute(tag: &str, name: &str, value: &str) -> (s: Selector)
        ensures
            s@.tag == tag@,
            s@.attribute == Some((name@, value@)),
    {
        Selector {
            tag: String::from_str(tag),
            attribute: Some((String::from_str(name), String::from_str(value))),
        }
    }
}

/// Whether the event `e` is wanted.
fn is_wanted(e: &NodeEvent, sel: Option<&Selector>) -> (b: bool)
    ensures
        b == wanted(e@, match sel {
            Some(s) => Some(s@),
            None => None,
        }),
{
    match sel {
        None => match e {
            NodeEvent::OpenText(_) => true,
            _ => false,
        },
        Some(s) => match e {
            NodeEvent::OpenElement { name, attributes } => {
                if !(*name == s.tag) {
                    return false;
                }
                match &s.attribute {
                    None => true,
                    Some((k, v)) => {
                        let n = attributes.len();
                        for j in 0..n
                            invariant
                                n == attributes@.len(),
                                name@ == s.tag@,
                                s.attribute == Some((*k, *v)),
                                sel == Some(s),
                                *e == (NodeEvent::OpenElement { name: *name, attributes: *attributes }),
                                forall|i: int|
                                    #![trigger attribute_views(attributes@)[i]]
                                    0 <= i < j ==> !(attribute_views(attributes@)[i].namespace.len() == 0
                                        && attribute_views(attributes@)[i].name == k@
                                        && attribute_views(attributes@)[i].value == v@),
                        {
                            let a = &attributes[j];
                            if a.namespace.as_str().is_empty() && a.name == *k && a.value == *v {
                                assert(attribute_views(attributes@)[j as int] == a@);
                                assert(has_attribute(attribute_views(attributes@), k@, v@));
                                return true;
                            }
                        }
                        false
                    },
                }
            },
            _ => false,
        },
    }
}

proof fn lemma_positions_bounded(ev: Seq<EventView>, scope: Option<usize>, sel: Option<SelectorView>, n: int)
    requires
        n <= usize::MAX,
    ensures
        forall|j: int|
            0 <= j < positions_upto(ev, scope, sel, n).len() ==> (#[trigger] positions_upto(
                ev,
                scope,
                sel,
                n,
            )[j]) < n,
    decreases n,
{
    if n > 0 {
        lemma_positions_bounded(ev, scope, sel, n - 1);
        let r = positions_upto(ev, scope, sel, n - 1);
        assert forall|j: int|
            0 <= j < positions_upto(ev, scope, sel, n).len() implies (#[trigger] positions_upto(
            ev,
            scope,
            sel,
            n,
        )[j]) < n by {
            if j < r.len() {
                assert(positions_upto(ev, scope, sel, n)[j] == r[j]);
            }
        }
    }
}

proof fn lemma_positions_before_scope(ev: Seq<EventView>, s: usize, sel: Option<SelectorView>, k: int)
    requires
        k <= s + 1,
    ensures
        positions_upto(ev, Some(s), sel, k) == Seq::<usize>::empty(),
    decreases k,
{
    if k > 0 {
        lemma_positions_before_scope(ev, s, sel, k - 1);
    }
}

/// The first of `s`, if any.
pub open spec fn first(s: Seq<usize>) -> Option<usize> {
    if s.len() > 0 {
        Some(s[0])
    } else {
        None
    }
}

/// The view of an optional string.
pub open spec fn opt_view(o: Option<String>) -> Option<Seq<char>> {
    match o {
        Some(s) => Some(s@),
        None => None,
    }
}

/// The view of an optional selector.
pub open spec fn opt_selector(sel: Option<&Selector>) -> Option<SelectorView> {
    match sel {
        Some(s) => Some(s@),
        None => None,
    }
}

impl Document {
    /// Parses `content` as an HTML document (scraper's `Html::parse_document`).
    pub fn parse(content: &str) -> (d: Document)
        ensures
            d@ == html_document_events(content@),
    {
        Document { events: scraper_document_events(content) }
    }

    /// The elements of the page `content` that the CSS selector `selector`
    /// matches, each as its own document (the walk of the element, opened at
    /// position 0), in the order of scraper's `Html::select`; `None` if
    /// scraper's `Selector::parse` refuses `selector`.
    pub fn select_subtrees(content: &str, selector: &str) -> (r: Option<Vec<Document>>)
        ensures
            match r {
                Some(ds) => html_selected_walks(content@, selector@) == Some(
                    ds@.map_values(|d: Document| d@),
                ),
                None => html_selected_walks(content@, selector@) is None,
            },
    {
        match scraper_selected_walks(content, selector) {
            None => None,
            Some(walks) => {
                let ghost ws = walks@;
                let mut out: Vec<Document> = Vec::new();
                for w in it: walks.into_iter()
                    invariant
                        it.seq() == ws,
                        out@.map_values(|d: Document| d@) == walk_views(ws.take(it.index() as int)),
                {
                    let ghost i = it.index();
                    let ghost before = out@;
                    assert(w == ws[i as int]);
                    out.push(Document { events: w });
                    assert(ws.take(i + 1) == ws.take(i as int).push(w));
                    assert(out@.map_values(|d: Document| d@) =~= before.map_values(|d: Document| d@).push(
                        event_views(w@),
                    ));
                    assert(walk_views(ws.take(i + 1)) =~= walk_views(ws.take(i as int)).push(event_views(w@)));
                }
                assert(ws.take(ws.len() as int) == ws);
                Some(out)
            },
        }
    }

    /// The positions of the wanted events within `scope`, in document order.
    fn positions_within(&self, scope: Option<usize>, sel: Option<&Selector>) -> (r: Vec<usize>)
        requires
            scope matches Some(s) ==> s < self@.len(),
        ensures
            r@ == positions(self@, scope, opt_selector(sel)),
            forall|j: int| 0 <= j < r@.len() ==> (#[trigger] r@[j]) < self@.len(),
    {
        let n = self.events.len();
        proof {
            lemma_positions_bounded(self@, scope, opt_selector(sel), n as int);
        }
        let ghost ev = self@;
        let ghost sv = opt_selector(sel);
        let mut out: Vec<usize> = Vec::new();
        match scope {
            None => {
                for k in 0..n
                    invariant
                        n == ev.len(),
                        ev == self@,
                        sv == opt_selector(sel),
                        scope is None,
                        out@ == positions_upto(ev, scope, sv, k as int),
                {
                    assert(ev[k as int] == self.events@[k as int]@);
                    if is_wanted(&self.events[k], sel) {
                        out.push(k);
                    }
                }
                out
            },
            Some(s) => {
                proof {
                    lemma_positions_before_scope(ev, s, sv, s + 1);
                }
                assert(ev[s as int] == self.events@[s as int]@);
                let mut rel: usize = match &self.events[s] {
                    NodeEvent::Close => 0,
                    _ => 1,
                };
                if rel == 0 {
                    proof {
                        lemma_positions_past_scope(ev, s, sv, s + 1, n as int);
                    }
                    return out;
                }
                let mut k: usize = s + 1;
                while k < n
                    invariant
                        s < k <= n,
                        n == ev.len(),
                        ev == self@,
                        sv == opt_selector(sel),
                        scope == Some(s),
                        1 <= rel <= k - s,
                        rel == depth(ev, k as int) - depth(ev, s as int),
                        forall|m: int| s < m <= k ==> #[trigger] depth(ev, m) > depth(ev, s as int),
                        out@ == positions_upto(ev, scope, sv, k as int),
                    decreases n - k,
                {
                    assert(ev[k as int] == self.events@[k as int]@);
                    assert(within(ev, scope, k as int));
                    if is_wanted(&self.events[k], sel) {
                        out.push(k);
                    }
                    match &self.events[k] {
                        NodeEvent::Close => {
                            if rel == 1 {
                                proof {
                                    lemma_positions_past_scope(ev, s, sv, k + 1, n as int);
                                    lemma_positions_bounded(ev, scope, sv, n as int);
                                }
                                return out;
                            }
                            rel = rel - 1;
                        },
                        _ => {
                            rel = rel + 1;
                        },
                    }
                    k = k + 1;
                }
                out
            },
        }
    }

    /// The positions of the elements of the document that `sel` matches, in
    /// document order.
    pub fn select(&self, sel: &Selector) -> (r: Vec<usize>)
        ensures
            r@ == select(self@, None, sel@),
            forall|j: int| 0 <= j < r@.len() ==> (#[trigger] r@[j]) < self@.len(),
    {
        self.positions_within(None, Some(sel))
    }

    /// The positions of the elements within the element opened at `scope`
    /// that `sel` matches, in document order (scraper's `ElementRef::select`).
    pub fn select_within(&self, scope: usize, sel: &Selector) -> (r: Vec<usize>)
        requires
            scope < self@.len(),
        ensures
            r@ == select(self@, Some(scope), sel@),
            forall|j: int| 0 <= j < r@.len() ==> (#[trigger] r@[j]) < self@.len(),
    {
        self.positions_within(Some(scope), Some(sel))
    }

    /// The first element within `scope` that `sel` matches.
    pub fn first_within(&self, scope: usize, sel: &Selector) -> (r: Option<usize>)
        requires
            scope < self@.len(),
        ensures
            r == first(select(self@, Some(scope), sel@)),
            r matches Some(i) ==> i < self@.len(),
    {
        let all = self.select_within(scope, sel);
        if all.len() > 0 {
            Some(all[0])
        } else {
            None
        }
    }

    /// The text nodes within the element opened at `el`, in document order
    /// (scraper's `ElementRef::text`).
    pub fn texts(&self, el: usize) -> (r: Vec<String>)
        requires
            el < self@.len(),
        ensures
            crate::text::views(r@) == texts(self@, el),
    {
        let ps = self.positions_within(Some(el), None);
        let ghost ev = self@;
        let n = ps.len();
        let mut out: Vec<String> = Vec::new();
        for i in 0..n
            invariant
                n == ps@.len(),
                ev == self@,
                ps@ == positions(ev, Some(el), None),
                forall|j: int| 0 <= j < n ==> (#[trigger] ps@[j]) < ev.len(),
                crate::text::views(out@) == ps@.take(i as int).map_values(|k: usize| text_of(ev[k as int])),
        {
            let k = ps[i];
            assert(ev[k as int] == self.events@[k as int]@);
            let t = match &self.events[k] {
                NodeEvent::OpenText(t) => t.clone(),
                _ => String::new(),
            };
            let ghost before = out@;
            assert(t@ == text_of(ev[k as int]));
            out.push(t);
            assert(crate::text::views(out@) =~= crate::text::views(before).push(t@));
            assert(ps@.take(i + 1) == ps@.take(i as int).push(k));
            assert(crate::text::views(out@) =~= ps@.take(i + 1).map_values(|k: usize| text_of(ev[k as int])));
        }
        assert(ps@.take(n as int) == ps@);
        out
    }

    /// The value of the attribute `name` of the element opened at `el`
    /// (scraper's `ElementRef::attr`).
    pub fn attr(&self, el: usize, name: &str) -> (r: Option<String>)
        requires
            el < self@.len(),
        ensures
            opt_view(r) == attr(self@, el, name@),
    {
        let ghost ev = self@;
        assert(ev[el as int] == self.events@[el as int]@);
        match &self.events[el] {
            NodeEvent::OpenElement { attributes, .. } => {
                let key = String::from_str(name);
                let n = attributes.len();
                let ghost avs = attribute_views(attributes@);
                assert(avs.skip(0) == avs);
                for j in 0..n
                    invariant
                        n == attributes@.len(),
                        avs == attribute_views(attributes@),
                        key@ == name@,
                        attr(self@, el, name@) == attribute_value(avs, name@),
                        attribute_value(avs, name@) == attribute_value(avs.skip(j as int), name@),
                {
                    let a = &attributes[j];
                    assert(avs.skip(j as int)[0] == a@);
                    assert(avs.skip(j as int).drop_first() == avs.skip(j + 1));
                    if a.namespace.as_str().is_empty() && a.name == key {
                        return Some(a.value.clone());
                    }
                }
                assert(avs.skip(n as int).len() == 0);
                None
            },
            _ => None,
        }
    }
}

proof fn lemma_positions_upto_exact(ev: Seq<EventView>, scope: Option<usize>, sel: Option<SelectorView>, n: int)
    requires
        0 <= n <= ev.len(),
        ev.len() <= usize::MAX,
    ensures
        forall|j: int|
            0 <= j < positions_upto(ev, scope, sel, n).len() ==> (#[trigger] positions_upto(
                ev,
                scope,
                sel,
                n,
            )[j]) < n && within(ev, scope, positions_upto(ev, scope, sel, n)[j] as int) && wanted(
                ev[positions_upto(ev, scope, sel, n)[j] as int],
                sel,
            ),
        forall|i: int, j: int|
            0 <= i < j < positions_upto(ev, scope, sel, n).len() ==> (#[trigger] positions_upto(
                ev,
                scope,
                sel,
                n,
            )[i]) < (#[trigger] positions_upto(ev, scope, sel, n)[j]),
        forall|k: int|
            0 <= k < n && within(ev, scope, k) && wanted(#[trigger] ev[k], sel) ==> positions_upto(
                ev,
                scope,
                sel,
                n,
            ).contains(k as usize),
    decreases n,
{
    if n > 0 {
        lemma_positions_upto_exact(ev, scope, sel, n - 1);
        let r = positions_upto(ev, scope, sel, n - 1);
        let p = positions_upto(ev, scope, sel, n);
        assert forall|j: int| 0 <= j < p.len() implies (#[trigger] p[j]) < n && within(
            ev,
            scope,
            p[j] as int,
        ) && wanted(ev[p[j] as int], sel) by {
            if j < r.len() {
                assert(p[j] == r[j]);
            }
        }
        assert forall|i: int, j: int| 0 <= i < j < p.len() implies (#[trigger] p[i]) < (#[trigger] p[j]) by {
            if j < r.len() {
                assert(p[i] == r[i] && p[j] == r[j]);
            } else {
                assert(p[i] == r[i]);
            }
        }
        assert forall|k: int| 0 <= k < n && within(ev, scope, k) && wanted(#[trigger] ev[k], sel) implies p.contains(
            k as usize,
        ) by {
            if k < n - 1 {
                let i = choose|i: int| 0 <= i < r.len() && r[i] == k as usize;
                assert(p[i] == r[i]);
            } else {
                assert(p[r.len() as int] == k as usize);
            }
        }
    }
}

/// What a selection holds, and only that: the positions that `select`
/// gives for the selector `tag` or `tag[name="value"]` within `scope` are,
/// in strictly increasing (document) order, exactly the positions within
/// `scope` of the elements whose local name is `tag` itself (no other name,
/// not even one that starts with it) and which, for the second form, have an
/// attribute in no namespace named `name` whose value is `value`.
pub proof fn law_select_exact(ev: Seq<EventView>, scope: Option<usize>, sel: SelectorView)
    requires
        ev.len() <= usize::MAX,
    ensures
        forall|j: int|
            #![trigger select(ev, scope, sel)[j]]
            0 <= j < select(ev, scope, sel).len() ==> {
                let k = select(ev, scope, sel)[j] as int;
                &&& within(ev, scope, k)
                &&& ev[k] is OpenElement
                &&& ev[k]->name == sel.tag
                &&& match sel.attribute {
                    None => true,
                    Some((n, v)) => exists|i: int|
                        #![trigger ev[k]->attributes[i]]
                        0 <= i < ev[k]->attributes.len() && ev[k]->attributes[i].namespace.len() == 0
                            && ev[k]->attributes[i].name == n && ev[k]->attributes[i].value == v,
                }
            },
        forall|i: int, j: int|
            0 <= i < j < select(ev, scope, sel).len() ==> (#[trigger] select(ev, scope, sel)[i]) < (
            #[trigger] select(ev, scope, sel)[j]),
        forall|k: int|
            #![trigger ev[k]]
            within(ev, scope, k) && ev[k] is OpenElement && ev[k]->name == sel.tag && match sel.attribute {
                None => true,
                Some((n, v)) => exists|i: int|
                    #![trigger ev[k]->attributes[i]]
                    0 <= i < ev[k]->attributes.len() && ev[k]->attributes[i].namespace.len() == 0
                        && ev[k]->attributes[i].name == n && ev[k]->attributes[i].value == v,
            } ==> select(ev, scope, sel).contains(k as usize),
{
    lemma_positions_upto_exact(ev, scope, Some(sel), ev.len() as int);
    assert forall|k: int|
        #![trigger ev[k]]
        within(ev, scope, k) && ev[k] is OpenElement && ev[k]->name == sel.tag && match sel.attribute {
            None => true,
            Some((n, v)) => exists|i: int|
                #![trigger ev[k]->attributes[i]]
                0 <= i < ev[k]->attributes.len() && ev[k]->attributes[i].namespace.len() == 0
                    && ev[k]->attributes[i].name == n && ev[k]->attributes[i].value == v,
        } implies select(ev, scope, sel).contains(k as usize) by {
        assert(0 <= k < ev.len());
        assert(wanted(ev[k], Some(sel)));
    }
}

/// The texts within an element are exactly its text nodes: the positions of
/// the text nodes within the element opened at `el`, in strictly increasing
/// (document) order, are all and only the text nodes within it, and the
/// `j`-th text is the whole text of the `j`-th of them.
pub proof fn law_texts_exact(ev: Seq<EventView>, el: usize)
    requires
        ev.len() <= usize::MAX,
    ensures
        texts(ev, el).len() == positions(ev, Some(el), None).len(),
        forall|j: int|
            #![trigger positions(ev, Some(el), None)[j]]
            0 <= j < positions(ev, Some(el), None).len() ==> {
                let k = positions(ev, Some(el), None)[j] as int;
                &&& within(ev, Some(el), k)
                &&& ev[k] is OpenText
                &&& texts(ev, el)[j] == ev[k]->0
            },
        forall|i: int, j: int|
            0 <= i < j < positions(ev, Some(el), None).len() ==> (#[trigger] positions(
                ev,
                Some(el),
                None,
            )[i]) < (#[trigger] positions(ev, Some(el), None)[j]),
        forall|k: int|
            #![trigger ev[k]]
            within(ev, Some(el), k) && ev[k] is OpenText ==> positions(ev, Some(el), None).contains(
                k as usize,
            ),
{
    lemma_positions_upto_exact(ev, Some(el), None, ev.len() as int);
    assert forall|k: int|
        #![trigger ev[k]]
        within(ev, Some(el), k) && ev[k] is OpenText implies positions(ev, Some(el), None).contains(
            k as usize,
        ) by {
        assert(wanted(ev[k], None));
    }
}

proof fn lemma_attribute_value_first(attributes: Seq<AttributeView>, name: Seq<char>)
    ensures
        match attribute_value(attributes, name) {
            Some(v) => exists|i: int|
                #![trigger attributes[i]]
                0 <= i < attributes.len() && attributes[i].namespace.len() == 0 && attributes[i].name
                    == name && attributes[i].value == v && forall|h: int|
                    #![trigger attributes[h]]
                    0 <= h < i ==> !(attributes[h].namespace.len() == 0 && attributes[h].name == name),
            None => forall|i: int|
                #![trigger attributes[i]]
                0 <= i < attributes.len() ==> !(attributes[i].namespace.len() == 0 && attributes[i].name
                    == name),
        },
    decreases attributes.len(),
{
    if attributes.len() > 0 {
        let rest = attributes.drop_first();
        lemma_attribute_value_first(rest, name);
        if attributes[0].namespace.len() == 0 && attributes[0].name == name {
            assert(attributes[0].value == attribute_value(attributes, name)->0);
        } else {
            match attribute_value(rest, name) {
                Some(v) => {
                    let i = choose|i: int|
                        #![trigger rest[i]]
                        0 <= i < rest.len() && rest[i].namespace.len() == 0 && rest[i].name == name
                            && rest[i].value == v && forall|h: int|
                            #![trigger rest[h]]
                            0 <= h < i ==> !(rest[h].namespace.len() == 0 && rest[h].name == name);
                    assert(attributes[i + 1] == rest[i]);
                    assert forall|h: int|
                        #![trigger attributes[h]]
                        0 <= h < i + 1 implies !(attributes[h].namespace.len() == 0 && attributes[h].name
                            == name) by {
                        if h > 0 {
                            assert(attributes[h] == rest[h - 1]);
                        }
                    }
                },
                None => {
                    assert forall|i: int|
                        #![trigger attributes[i]]
                        0 <= i < attributes.len() implies !(attributes[i].namespace.len() == 0
                            && attributes[i].name == name) by {
                        if i > 0 {
                            assert(attributes[i] == rest[i - 1]);
                        }
                    }
                },
            }
        }
    }
}

/// The value read for the attribute `name` of the element opened at `el`
/// is that of the element's first attribute in no namespace named `name`;
/// there is none where the element has no such attribute, and none for a
/// node that is not an element.
pub proof fn law_attr_first(ev: Seq<EventView>, el: usize, name: Seq<char>)
    requires
        el < ev.len(),
    ensures
        match ev[el as int] {
            EventView::OpenElement { attributes, .. } => match attr(ev, el, name) {
                Some(v) => exists|i: int|
                    #![trigger attributes[i]]
                    0 <= i < attributes.len() && attributes[i].namespace.len() == 0 && attributes[i].name
                        == name && attributes[i].value == v && forall|h: int|
                        #![trigger attributes[h]]
                        0 <= h < i ==> !(attributes[h].namespace.len() == 0 && attributes[h].name == name),
                None => forall|i: int|
                    #![trigger attributes[i]]
                    0 <= i < attributes.len() ==> !(attributes[i].namespace.len() == 0
                        && attributes[i].name == name),
            },
            _ => attr(ev, el, name) is None,
        },
{
    if let EventView::OpenElement { attributes, .. } = ev[el as int] {
        lemma_attribute_value_first(attributes, name);
    }
}

} // verus!
