use vstd::prelude::*;
use ego_tree::iter::Edge;
use scraper::{Html, Node, Selector};
use crate::links::{dedup_in_order, law_unique_in_order, texts, unique_in_order};
use crate::text::{
    chars_of, description_text, is_whitespace_cut_of, lemma_trim_is_whitespace_cut, owned,
    remove_punctuation, same_text, spec_description_text, spec_remove_punctuation, trim,
    trim_string,
};

verus! {

/// One node boundary met while walking a parsed HTML document in document
/// order: an element opens or closes, or a text node is met. Everything else
/// (comments, doctypes, the close of a text node, ...) is `Other`.
pub enum DocEvent {
    OpenElement(String),
    CloseElement(String),
    Text(String),
    Other,
}

/// The view of a `DocEvent`: names and texts as character sequences.
pub enum DocEventView {
    OpenElement(Seq<char>),
    CloseElement(Seq<char>),
    Text(Seq<char>),
    Other,
}

impl View for DocEvent {
    type V = DocEventView;

    open spec fn view(&self) -> DocEventView {
        match self {
            DocEvent::OpenElement(n) => DocEventView::OpenElement(n@),
            DocEvent::CloseElement(n) => DocEventView::CloseElement(n@),
            DocEvent::Text(t) => DocEventView::Text(t@),
            DocEvent::Other => DocEventView::Other,
        }
    }
}

/// The views of a list of events.
pub open spec fn events_view(v: Seq<DocEvent>) -> Seq<DocEventView> {
    v.map_values(|e: DocEvent| e@)
}

/// The events of walking the document that `html` parses to.
pub uninterp spec fn document_events(html: Seq<char>) -> Seq<DocEventView>;

/// Parses `html` as a document and walks its tree.
///
/// Trusted: calls `scraper::Html::parse_document`, then walks the tree with
/// `ego_tree::NodeRef::traverse`, turning each edge into a `DocEvent` by its
/// node kind, one event per edge. The contract claims only that the result is
/// a function of `html` alone (what the HTML parser builds is not stated).
#[verifier::external_body]
fn parse_document_events(html: &str) -> (r: Vec<DocEvent>)
    ensures
        events_view(r@) == document_events(html@),
{
    let mut out = Vec::new();
    for edge in Html::parse_document(html).tree.root().traverse() {
        out.push(match edge {
            Edge::Open(node) => match node.value() {
                Node::Element(el) => DocEvent::OpenElement(el.name().to_string()),
                Node::Text(t) => DocEvent::Text(t.to_string()),
                _ => DocEvent::Other,
            },
            Edge::Close(node) => match node.value() {
                Node::Element(el) => DocEvent::CloseElement(el.name().to_string()),
                _ => DocEvent::Other,
            },
        });
    }
    out
}

/// Elements whose text is left out of a description: `script` and `style`.
pub open spec fn is_hidden_tag(name: Seq<char>) -> bool {
    name == "script"@ || name == "style"@
}

/// After the events `events`: how many `script`/`style` elements are open
/// (opens minus closes), and the text collected so far: each text node met
/// while none is open, followed by a space.
pub open spec fn scan_events(events: Seq<DocEventView>) -> (int, Seq<char>)
    decreases events.len(),
{
    if events.len() == 0 {
        (0, Seq::empty())
    } else {
        let (depth, text) = scan_events(events.drop_last());
        match events.last() {
            DocEventView::OpenElement(n) => if is_hidden_tag(n) {
                (depth + 1, text)
            } else {
                (depth, text)
            },
            DocEventView::CloseElement(n) => if is_hidden_tag(n) {
                (depth - 1, text)
            } else {
                (depth, text)
            },
            DocEventView::Text(t) => if depth == 0 {
                (depth, text + t.push(' '))
            } else {
                (depth, text)
            },
            DocEventView::Other => (depth, text),
        }
    }
}

/// The visible text of a walk: every text node outside `script` and `style`,
/// each followed by a space.
pub open spec fn visible_text(events: Seq<DocEventView>) -> Seq<char> {
    scan_events(events).1
}

/// An item description from the walk of its description page.
pub open spec fn spec_description_from_events(events: Seq<DocEventView>) -> Seq<char> {
    spec_description_text(visible_text(events))
}

/// An item description from the HTML of its description page.
pub open spec fn spec_description_from_html(html: Seq<char>) -> Seq<char> {
    spec_description_from_events(document_events(html))
}

/// Whether an element name is `script` or `style`.
pub fn hidden_tag(name: &String) -> (r: bool)
    ensures
        r == is_hidden_tag(name@),
{
    same_text(name.as_str(), "script") || same_text(name.as_str(), "style")
}

/// Collects the visible text of a walk.
pub fn collect_visible_text(events: &Vec<DocEvent>) -> (r: Vec<char>)
    ensures
        r@ == visible_text(events_view(events@)),
{
    let mut out: Vec<char> = Vec::new();
    let mut depth: i128 = 0;
    let mut i: usize = 0;
    while i < events.len()
        invariant
            i <= events.len(),
            -(i as int) <= depth <= i as int,
            (depth as int, out@) == scan_events(events_view(events@.subrange(0, i as int))),
        decreases events.len() - i,
    {
        let ghost pre = events_view(events@.subrange(0, i as int));
        let ghost cur = events_view(events@.subrange(0, i + 1));
        assert(cur.drop_last() == pre);
        assert(cur.last() == events@[i as int]@);
        match &events[i] {
            DocEvent::OpenElement(n) => {
                if hidden_tag(n) {
                    depth = depth + 1;
                }
            },
            DocEvent::CloseElement(n) => {
                if hidden_tag(n) {
                    depth = depth - 1;
                }
            },
            DocEvent::Text(t) => {
                if depth == 0 {
                    let ghost before = out@;
                    let cs = chars_of(t.as_str());
                    let mut k: usize = 0;
                    while k < cs.len()
                        invariant
                            k <= cs.len(),
                            out@ == before + cs@.subrange(0, k as int),
                        decreases cs.len() - k,
                    {
                        out.push(cs[k]);
                        assert(cs@.subrange(0, k + 1) == cs@.subrange(0, k as int).push(cs@[k as int]));
                        k = k + 1;
                    }
                    out.push(' ');
                    assert(cs@.subrange(0, cs.len() as int) == cs@);
                    assert(out@ == before + t@.push(' '));
                }
            },
            DocEvent::Other => {},
        }
        i = i + 1;
    }
    assert(events@.subrange(0, events.len() as int) == events@);
    out
}

/// An item description from the walk of its description page: the visible
/// text, without its first word, with runs of whitespace made single spaces.
pub fn description_from_events(events: &Vec<DocEvent>) -> (r: String)
    ensures
        r@ == spec_description_from_events(events_view(events@)),
{
    let raw = collect_visible_text(events);
    description_text(&raw)
}

/// An item description from the HTML of its description page.
pub fn description_from_html(html: &str) -> (r: String)
    ensures
        r@ == spec_description_from_html(html@),
{
    let events = parse_document_events(html);
    description_from_events(&events)
}


/// One element that a CSS selector matched: its text (all its descendant
/// text nodes, concatenated) and the values of the attributes asked for, in
/// the order asked (`None` where the element lacks one).
pub struct MatchedElement {
    pub text: String,
    pub attributes: Vec<Option<String>>,
}

/// The view of a matched element: its text and its attribute values.
pub open spec fn matched_view(m: MatchedElement) -> (Seq<char>, Seq<Option<Seq<char>>>) {
    (m.text@, m.attributes.deep_view())
}

/// The views of a list of matched elements.
pub open spec fn matches_view(v: Seq<MatchedElement>) -> Seq<(Seq<char>, Seq<Option<Seq<char>>>)> {
    v.map_values(|m: MatchedElement| matched_view(m))
}

/// The elements of the document `html` that `selector` matches, in the order
/// the selection yields them, each with its text and the values of the
/// attributes `names`; `None` when `selector` is not a valid CSS selector.
pub uninterp spec fn selected_elements(
    html: Seq<char>,
    selector: Seq<char>,
    names: Seq<Seq<char>>,
) -> Option<Seq<(Seq<char>, Seq<Option<Seq<char>>>)>>;

/// Selects elements of an HTML document.
///
/// Trusted: calls `scraper::Selector::parse` (`None` on its error),
/// `scraper::Html::parse_document` and `scraper::Html::select`, and for each
/// element yielded `scraper::ElementRef::text` (concatenated) and
/// `scraper::ElementRef::attr` for each name. The contract claims that the
/// result is a function of the arguments alone and that each element carries
/// one value per name asked; what the parser and the selector engine compute is
/// not stated.
#[verifier::external_body]
fn select_elements(html: &str, selector: &str, names: &Vec<String>) -> (r: Option<
    Vec<MatchedElement>,
>)
    ensures
        r matches Some(v) ==> forall|i: int|
            0 <= i < v@.len() ==> (#[trigger] v@[i]).attributes@.len() == names@.len(),
        r matches Some(v) ==> selected_elements(html@, selector@, texts(names@)) == Some(
            matches_view(v@),
        ),
        r is None ==> selected_elements(html@, selector@, texts(names@)) is None,
{
    let sel = match Selector::parse(selector) {
        Ok(sel) => sel,
        Err(_) => return None,
    };
    let doc = Html::parse_document(html);
    let mut out = Vec::new();
    for el in doc.select(&sel) {
        let mut attributes = Vec::new();
        for name in names.iter() {
            attributes.push(el.attr(name).map(String::from));
        }
        out.push(MatchedElement { text: el.text().collect::<String>(), attributes });
    }
    Some(out)
}

/// Why reading a listing page did not give an item: `Retry` when a later try
/// may succeed, `Fail` when it will not, `InvalidSelector` when one of the
/// page's CSS selectors is refused (it names the selector).
pub enum RetryOrFail {
    Retry(String),
    Fail(String),
    InvalidSelector(String),
}

/// The view of a `RetryOrFail`.
pub enum RetryOrFailView {
    Retry(Seq<char>),
    Fail(Seq<char>),
    InvalidSelector(Seq<char>),
}

impl View for RetryOrFail {
    type V = RetryOrFailView;

    open spec fn view(&self) -> RetryOrFailView {
        match self {
            RetryOrFail::Retry(m) => RetryOrFailView::Retry(m@),
            RetryOrFail::Fail(m) => RetryOrFailView::Fail(m@),
            RetryOrFail::InvalidSelector(m) => RetryOrFailView::InvalidSelector(m@),
        }
    }
}

/// A listing: title, description, image links, seller's comment and price.
pub struct EbayItem {
    pub title: String,
    pub description: String,
    pub image_link: Vec<String>,
    pub commentaire: String,
    pub price: String,
}

/// What a listing page gives before its description is fetched: everything
/// of the item but the description, and the address of the description page.
pub struct Listing {
    pub title: String,
    pub description_url: String,
    pub image_link: Vec<String>,
    pub commentaire: String,
    pub price: String,
}

/// The view of a `Listing`.
pub struct ListingView {
    pub title: Seq<char>,
    pub description_url: Seq<char>,
    pub image_link: Seq<Seq<char>>,
    pub commentaire: Seq<char>,
    pub price: Seq<char>,
}

impl View for Listing {
    type V = ListingView;

    open spec fn view(&self) -> ListingView {
        ListingView {
            title: self.title@,
            description_url: self.description_url@,
            image_link: texts(self.image_link@),
            commentaire: self.commentaire@,
            price: self.price@,
        }
    }
}


/// The first value present among `values`, if any.
pub open spec fn first_present(values: Seq<Option<Seq<char>>>) -> Option<Seq<char>>
    decreases values.len(),
{
    if values.len() == 0 {
        None
    } else if values[0] is Some {
        values[0]
    } else {
        first_present(values.drop_first())
    }
}

/// For each matched image, in order, its first attribute value present; images
/// with none are left out.
pub open spec fn image_candidates(m: Seq<(Seq<char>, Seq<Option<Seq<char>>>)>) -> Seq<Seq<char>>
    decreases m.len(),
{
    if m.len() == 0 {
        Seq::empty()
    } else {
        let prev = image_candidates(m.drop_last());
        match first_present(m.last().1) {
            Some(link) => prev.push(link),
            None => prev,
        }
    }
}

/// The text of the first matched element, if any.
pub open spec fn first_text(m: Seq<(Seq<char>, Seq<Option<Seq<char>>>)>) -> Option<Seq<char>> {
    if m.len() > 0 {
        Some(m[0].0)
    } else {
        None
    }
}

/// The CSS selectors of a listing page: title, description frame, images,
/// price and seller's comment.
pub open spec fn title_selector() -> Seq<char> {
    "h1.x-item-title__mainTitle"@
}

pub open spec fn iframe_selector() -> Seq<char> {
    "iframe#desc_ifr"@
}

pub open spec fn image_selector() -> Seq<char> {
    "div.ux-image-carousel-container img"@
}

pub open spec fn price_selector() -> Seq<char> {
    "div.x-price-primary"@
}

pub open spec fn comment_selector() -> Seq<char> {
    "#viTabs_0_is .ux-layout-section-evo"@
}

/// The attributes that give an image's link, best first.
pub open spec fn image_attributes() -> Seq<Seq<char>> {
    seq!["data-zoom-src"@, "data-src"@, "src"@]
}

/// What a listing page gives, from what its five selections matched (`None`
/// for a selector that was refused): the title (first match, punctuation
/// removed; `"None"` without one), the description page's address (the `src`
/// of the first description frame), the image links (each image's first link
/// present, repeats left out), the price (first match, trimmed; `"None"`
/// without one) and the seller's comment (first match, trimmed; empty without
/// one). A refused selector is reported at once, the selections taken in that
/// order; no description frame asks for a retry; a frame without `src` fails.
pub open spec fn spec_listing_from_matches(
    title: Option<Seq<(Seq<char>, Seq<Option<Seq<char>>>)>>,
    iframe: Option<Seq<(Seq<char>, Seq<Option<Seq<char>>>)>>,
    images: Option<Seq<(Seq<char>, Seq<Option<Seq<char>>>)>>,
    price: Option<Seq<(Seq<char>, Seq<Option<Seq<char>>>)>>,
    comment: Option<Seq<(Seq<char>, Seq<Option<Seq<char>>>)>>,
) -> Result<ListingView, RetryOrFailView> {
    if title is None {
        Err(RetryOrFailView::InvalidSelector(title_selector()))
    } else if iframe is None {
        Err(RetryOrFailView::InvalidSelector(iframe_selector()))
    } else if iframe->0.len() == 0 {
        Err(RetryOrFailView::Retry("Description iframe not found."@))
    } else if first_present(iframe->0[0].1) is None {
        Err(RetryOrFailView::Fail("Iframe has no src"@))
    } else if images is None {
        Err(RetryOrFailView::InvalidSelector(image_selector()))
    } else if price is None {
        Err(RetryOrFailView::InvalidSelector(price_selector()))
    } else if comment is None {
        Err(RetryOrFailView::InvalidSelector(comment_selector()))
    } else {
        Ok(
            ListingView {
                title: match first_text(title->0) {
                    Some(t) => spec_remove_punctuation(t),
                    None => "None"@,
                },
                description_url: first_present(iframe->0[0].1)->0,
                image_link: unique_in_order(image_candidates(images->0)),
                commentaire: match first_text(comment->0) {
                    Some(t) => trim(t),
                    None => Seq::empty(),
                },
                price: match first_text(price->0) {
                    Some(t) => trim(t),
                    None => "None"@,
                },
            },
        )
    }
}

/// What the listing page `page` gives.
pub open spec fn spec_listing(page: Seq<char>) -> Result<ListingView, RetryOrFailView> {
    spec_listing_from_matches(
        selected_elements(page, title_selector(), Seq::empty()),
        selected_elements(page, iframe_selector(), seq!["src"@]),
        selected_elements(page, image_selector(), image_attributes()),
        selected_elements(page, price_selector(), Seq::empty()),
        selected_elements(page, comment_selector(), Seq::empty()),
    )
}

/// The view of a selection's result.
pub open spec fn selection_view(o: Option<Vec<MatchedElement>>) -> Option<
    Seq<(Seq<char>, Seq<Option<Seq<char>>>)>,
> {
    match o {
        Some(v) => Some(matches_view(v@)),
        None => None,
    }
}

/// The first value present among `values`.
pub fn pick_first_present(values: &Vec<Option<String>>) -> (r: Option<String>)
    ensures
        r matches Some(v) ==> first_present(values.deep_view()) == Some(v@),
        r is None ==> first_present(values.deep_view()) is None,
{
    let mut i: usize = 0;
    assert(values.deep_view().skip(0) == values.deep_view());
    while i < values.len()
        invariant
            i <= values.len(),
            first_present(values.deep_view()) == first_present(values.deep_view().skip(i as int)),
        decreases values.len() - i,
    {
        let ghost rest = values.deep_view().skip(i as int);
        assert(rest[0] == values.deep_view()[i as int]);
        assert(rest.drop_first() == values.deep_view().skip(i + 1));
        match &values[i] {
            Some(v) => {
                return Some(v.clone());
            },
            None => {},
        }
        i = i + 1;
    }
    None
}

/// Each matched image's first link present, in order.
pub fn collect_image_candidates(m: &Vec<MatchedElement>) -> (r: Vec<String>)
    ensures
        texts(r@) == image_candidates(matches_view(m@)),
{
    let mut out: Vec<String> = Vec::new();
    let mut i: usize = 0;
    while i < m.len()
        invariant
            i <= m.len(),
            texts(out@) == image_candidates(matches_view(m@.subrange(0, i as int))),
        decreases m.len() - i,
    {
        let ghost pre = matches_view(m@.subrange(0, i as int));
        let ghost cur = matches_view(m@.subrange(0, i + 1));
        assert(cur.drop_last() == pre);
        assert(cur.last() == matched_view(m@[i as int]));
        match pick_first_present(&m[i].attributes) {
            Some(link) => {
                out.push(link);
                assert(texts(out@) == texts(out@.drop_last()).push(out@.last()@));
            },
            None => {},
        }
        i = i + 1;
    }
    assert(m@.subrange(0, m.len() as int) == m@);
    out
}

/// The text of the first matched element, trimmed; `default` without one.
fn first_trimmed_or(m: &Vec<MatchedElement>, default: &str) -> (r: String)
    ensures
        r@ == match first_text(matches_view(m@)) {
            Some(t) => trim(t),
            None => default@,
        },
{
    if m.len() > 0 {
        trim_string(m[0].text.as_str())
    } else {
        owned(default)
    }
}


/// What a listing page gives, from what its five selections matched.
pub fn listing_from_matches(
    title: &Option<Vec<MatchedElement>>,
    iframe: &Option<Vec<MatchedElement>>,
    images: &Option<Vec<MatchedElement>>,
    price: &Option<Vec<MatchedElement>>,
    comment: &Option<Vec<MatchedElement>>,
) -> (r: Result<Listing, RetryOrFail>)
    ensures
        r matches Ok(l) ==> spec_listing_from_matches(
            selection_view(*title),
            selection_view(*iframe),
            selection_view(*images),
            selection_view(*price),
            selection_view(*comment),
        ) == Ok::<ListingView, RetryOrFailView>(l@),
        r matches Err(e) ==> spec_listing_from_matches(
            selection_view(*title),
            selection_view(*iframe),
            selection_view(*images),
            selection_view(*price),
            selection_view(*comment),
        ) == Err::<ListingView, RetryOrFailView>(e@),
{
    let title = match title {
        Some(t) => t,
        None => {
            return Err(RetryOrFail::InvalidSelector(owned("h1.x-item-title__mainTitle")));
        },
    };
    let iframe = match iframe {
        Some(f) => f,
        None => {
            return Err(RetryOrFail::InvalidSelector(owned("iframe#desc_ifr")));
        },
    };
    if iframe.len() == 0 {
        return Err(RetryOrFail::Retry(owned("Description iframe not found.")));
    }
    assert(matches_view(iframe@)[0].1 == iframe@[0].attributes.deep_view());
    let description_url = match pick_first_present(&iframe[0].attributes) {
        Some(u) => u,
        None => {
            return Err(RetryOrFail::Fail(owned("Iframe has no src")));
        },
    };
    let images = match images {
        Some(m) => m,
        None => {
            return Err(
                RetryOrFail::InvalidSelector(owned("div.ux-image-carousel-container img")),
            );
        },
    };
    let price = match price {
        Some(m) => m,
        None => {
            return Err(RetryOrFail::InvalidSelector(owned("div.x-price-primary")));
        },
    };
    let comment = match comment {
        Some(m) => m,
        None => {
            return Err(
                RetryOrFail::InvalidSelector(owned("#viTabs_0_is .ux-layout-section-evo")),
            );
        },
    };
    let title_text = if title.len() > 0 {
        remove_punctuation(title[0].text.as_str())
    } else {
        owned("None")
    };
    let candidates = collect_image_candidates(images);
    let image_link = dedup_in_order(&candidates);
    let price_text = first_trimmed_or(price, "None");
    let comment_text = first_trimmed_or(comment, "");
    assert(""@ == Seq::<char>::empty()) by {
        reveal_strlit("");
    }
    Ok(
        Listing {
            title: title_text,
            description_url,
            image_link,
            commentaire: comment_text,
            price: price_text,
        },
    )
}

/// A list of owned strings with the characters of `items`.
fn names_of(items: &[&str]) -> (r: Vec<String>)
    ensures
        texts(r@) == items@.map_values(|s: &str| s@),
{
    let mut out: Vec<String> = Vec::new();
    let mut i: usize = 0;
    while i < items.len()
        invariant
            i <= items.len(),
            out@.len() == i,
            forall|k: int| 0 <= k < i ==> (#[trigger] out@[k])@ == items@[k]@,
        decreases items.len() - i,
    {
        out.push(owned(items[i]));
        i = i + 1;
    }
    assert(texts(out@) =~= items@.map_values(|s: &str| s@));
    out
}

/// Reads a listing page: selects its title, description frame, images, price
/// and seller's comment, and makes them into a `Listing`.
pub fn extract_listing(page: &str) -> (r: Result<Listing, RetryOrFail>)
    ensures
        r matches Ok(l) ==> spec_listing(page@) == Ok::<ListingView, RetryOrFailView>(l@),
        r matches Err(e) ==> spec_listing(page@) == Err::<ListingView, RetryOrFailView>(e@),
{
    let none: Vec<String> = Vec::new();
    let src = names_of(&["src"]);
    let image_names = names_of(&["data-zoom-src", "data-src", "src"]);
    assert(texts(none@) == Seq::<Seq<char>>::empty());
    assert(texts(src@) == seq!["src"@]);
    assert(texts(image_names@) == image_attributes());
    let title = select_elements(page, "h1.x-item-title__mainTitle", &none);
    let iframe = select_elements(page, "iframe#desc_ifr", &src);
    let images = select_elements(page, "div.ux-image-carousel-container img", &image_names);
    let price = select_elements(page, "div.x-price-primary", &none);
    let comment = select_elements(page, "#viTabs_0_is .ux-layout-section-evo", &none);
    listing_from_matches(&title, &iframe, &images, &price, &comment)
}

impl Listing {
    /// The item that this listing makes with the description `description`.
    pub fn into_item(self, description: String) -> (r: EbayItem)
        ensures
            r.title@ == self.title@,
            r.description@ == description@,
            texts(r.image_link@) == texts(self.image_link@),
            r.commentaire@ == self.commentaire@,
            r.price@ == self.price@,
    {
        EbayItem {
            title: self.title,
            description,
            image_link: self.image_link,
            commentaire: self.commentaire,
            price: self.price,
        }
    }
}


/// Law: a listing read from a page holds no image link twice, and holds every
/// image's chosen link.
pub proof fn law_listing_images_unique(page: Seq<char>)
    requires
        spec_listing(page) is Ok,
    ensures
        forall|i: int, j: int|
            0 <= i < j < spec_listing(page)->Ok_0.image_link.len() ==> spec_listing(
                page,
            )->Ok_0.image_link[i] != spec_listing(page)->Ok_0.image_link[j],
        forall|x: Seq<char>|
            spec_listing(page)->Ok_0.image_link.contains(x) <==> image_candidates(
                selected_elements(page, image_selector(), image_attributes())->0,
            ).contains(x),
{
    law_unique_in_order(
        image_candidates(selected_elements(page, image_selector(), image_attributes())->0),
    );
}


/// Whether an event opens or closes an element named `script` or `style`.
pub open spec fn touches_script_or_style(e: DocEventView) -> bool {
    match e {
        DocEventView::OpenElement(n) => n == "script"@ || n == "style"@,
        DocEventView::CloseElement(n) => n == "script"@ || n == "style"@,
        _ => false,
    }
}

/// Every text of a walk, each followed by a space, in order.
pub open spec fn all_texts_spaced(events: Seq<DocEventView>) -> Seq<char>
    decreases events.len(),
{
    if events.len() == 0 {
        Seq::empty()
    } else {
        match events.last() {
            DocEventView::Text(t) => all_texts_spaced(events.drop_last()) + t.push(' '),
            _ => all_texts_spaced(events.drop_last()),
        }
    }
}

/// Law: only `script` and `style` hide text. In a walk where no element of
/// either name opens or closes (whatever other elements, such as `title`,
/// `span` or `p`, it holds), the visible text is every text of the walk, each
/// followed by a space, in order.
pub proof fn law_only_script_and_style_hide_text(events: Seq<DocEventView>)
    requires
        forall|i: int| 0 <= i < events.len() ==> !touches_script_or_style(#[trigger] events[i]),
    ensures
        visible_text(events) == all_texts_spaced(events),
        scan_events(events).0 == 0,
    decreases events.len(),
{
    if events.len() > 0 {
        let pre = events.drop_last();
        assert forall|i: int| 0 <= i < pre.len() implies !touches_script_or_style(#[trigger] pre[i]) by {
            assert(pre[i] == events[i]);
        }
        law_only_script_and_style_hide_text(pre);
        assert(!touches_script_or_style(events[events.len() - 1]));
    }
}

/// Law: the text inside a `script` or `style` element is not visible: after a
/// walk with no such element, one of them holding a text adds nothing.
pub proof fn law_script_and_style_text_hidden(
    events: Seq<DocEventView>,
    name: Seq<char>,
    t: Seq<char>,
)
    requires
        name == "script"@ || name == "style"@,
        forall|i: int| 0 <= i < events.len() ==> !touches_script_or_style(#[trigger] events[i]),
    ensures
        visible_text(
            events.push(DocEventView::OpenElement(name)).push(DocEventView::Text(t)).push(
                DocEventView::CloseElement(name),
            ),
        ) == visible_text(events),
{
    let e1 = events.push(DocEventView::OpenElement(name));
    let e2 = e1.push(DocEventView::Text(t));
    let e3 = e2.push(DocEventView::CloseElement(name));
    assert(e3.drop_last() == e2);
    assert(e2.drop_last() == e1);
    assert(e1.drop_last() == events);
    law_only_script_and_style_hide_text(events);
    assert(is_hidden_tag(name));
    assert(e1.last() == DocEventView::OpenElement(name));
    assert(scan_events(e1) == (1int, scan_events(events).1));
    assert(e2.last() == DocEventView::Text(t));
    assert(scan_events(e2) == (1int, scan_events(events).1));
    assert(e3.last() == DocEventView::CloseElement(name));
    assert(scan_events(e3) == (0int, scan_events(events).1));
}


/// Law: the seller's comment and the price of a listing are the text of the
/// first match with only the whitespace at its ends cut off; every other
/// character, punctuation included, is kept in place. Without a match the
/// comment is empty and the price is `"None"`.
pub proof fn law_listing_comment_and_price_kept(
    title: Option<Seq<(Seq<char>, Seq<Option<Seq<char>>>)>>,
    iframe: Option<Seq<(Seq<char>, Seq<Option<Seq<char>>>)>>,
    images: Option<Seq<(Seq<char>, Seq<Option<Seq<char>>>)>>,
    price: Option<Seq<(Seq<char>, Seq<Option<Seq<char>>>)>>,
    comment: Option<Seq<(Seq<char>, Seq<Option<Seq<char>>>)>>,
)
    requires
        spec_listing_from_matches(title, iframe, images, price, comment) is Ok,
    ensures
        comment->0.len() == 0 ==> spec_listing_from_matches(
            title,
            iframe,
            images,
            price,
            comment,
        )->Ok_0.commentaire.len() == 0,
        comment->0.len() > 0 ==> is_whitespace_cut_of(
            spec_listing_from_matches(title, iframe, images, price, comment)->Ok_0.commentaire,
            comment->0[0].0,
        ),
        price->0.len() == 0 ==> spec_listing_from_matches(
            title,
            iframe,
            images,
            price,
            comment,
        )->Ok_0.price == "None"@,
        price->0.len() > 0 ==> is_whitespace_cut_of(
            spec_listing_from_matches(title, iframe, images, price, comment)->Ok_0.price,
            price->0[0].0,
        ),
{
    if comment->0.len() > 0 {
        lemma_trim_is_whitespace_cut(comment->0[0].0);
    }
    if price->0.len() > 0 {
        lemma_trim_is_whitespace_cut(price->0[0].0);
    }
}

} // verus!
