use ebay_scraper::page::{
    collect_visible_text, description_from_events, description_from_html, extract_listing,
    listing_from_matches, DocEvent, MatchedElement, RetryOrFail,
};

const PAGE: &str = r#"<!DOCTYPE html><html><head><title>t</title></head><body>
<h1 class="x-item-title__mainTitle"><span>Vintage Camera, Mint!</span></h1>
<iframe id="desc_ifr" src="https://vi.vipr.ebaydesc.com/item/1"></iframe>
<div class="ux-image-carousel-container">
  <img data-zoom-src="//i.ebayimg.com/a.jpg" src="small.jpg">
  <img data-src="https://i.ebayimg.com/b.png">
  <img src="https://i.ebayimg.com/c.webp">
  <img data-zoom-src="//i.ebayimg.com/a.jpg">
  <img alt="no link">
</div>
<div class="x-price-primary">  EUR 120,00 </div>
<div id="viTabs_0_is"><div class="ux-layout-section-evo"> Very good condition </div></div>
</body></html>"#;

/// The description algorithm as the scraper's page walk gives it.
fn reference_description(html: &str) -> String {
    let soup = scraper::Html::parse_document(html);
    let mut raw_text = String::new();
    let mut forbidden_depth = 0;
    for edge in soup.tree.root().traverse() {
        match edge {
            ego_tree::iter::Edge::Open(node) => {
                if let Some(el) = node.value().as_element() {
                    if &*el.name.local == "script" || &*el.name.local == "style" {
                        forbidden_depth += 1;
                    }
                } else if let Some(t) = node.value().as_text() {
                    if forbidden_depth == 0 {
                        raw_text.push_str(t);
                        raw_text.push(' ');
                    }
                }
            }
            ego_tree::iter::Edge::Close(node) => {
                if let Some(el) = node.value().as_element() {
                    if &*el.name.local == "script" || &*el.name.local == "style" {
                        forbidden_depth -= 1;
                    }
                }
            }
        }
    }
    raw_text.split_whitespace().skip(1).collect::<Vec<_>>().join(" ")
}

fn element(text: &str, attributes: &[Option<&str>]) -> MatchedElement {
    MatchedElement {
        text: text.to_string(),
        attributes: attributes.iter().map(|a| a.map(|s| s.to_string())).collect(),
    }
}

#[test]
fn listing_from_a_page() {
    let listing = match extract_listing(PAGE) {
        Ok(l) => l,
        Err(_) => panic!("listing expected"),
    };
    assert_eq!(listing.title, "Vintage Camera Mint");
    assert_eq!(listing.description_url, "https://vi.vipr.ebaydesc.com/item/1");
    assert_eq!(
        listing.image_link,
        vec![
            "//i.ebayimg.com/a.jpg".to_string(),
            "https://i.ebayimg.com/b.png".to_string(),
            "https://i.ebayimg.com/c.webp".to_string(),
        ]
    );
    assert_eq!(listing.price, "EUR 120,00");
    assert_eq!(listing.commentaire, "Very good condition");
    let item = listing.into_item("desc".to_string());
    assert_eq!(item.description, "desc");
    assert_eq!(item.title, "Vintage Camera Mint");
}

#[test]
fn listing_defaults_without_title_price_comment() {
    let page = r#"<html><body><iframe id="desc_ifr" src="u"></iframe></body></html>"#;
    let listing = match extract_listing(page) {
        Ok(l) => l,
        Err(_) => panic!("listing expected"),
    };
    assert_eq!(listing.title, "None");
    assert_eq!(listing.price, "None");
    assert_eq!(listing.commentaire, "");
    assert!(listing.image_link.is_empty());
    assert_eq!(listing.description_url, "u");
}

#[test]
fn missing_description_frame_asks_for_retry() {
    let page = r#"<html><body><h1 class="x-item-title__mainTitle">T</h1></body></html>"#;
    match extract_listing(page) {
        Err(RetryOrFail::Retry(m)) => assert_eq!(m, "Description iframe not found."),
        _ => panic!("retry expected"),
    }
}

#[test]
fn description_frame_without_src_fails() {
    let page = r#"<html><body><iframe id="desc_ifr"></iframe></body></html>"#;
    match extract_listing(page) {
        Err(RetryOrFail::Fail(m)) => assert_eq!(m, "Iframe has no src"),
        _ => panic!("failure expected"),
    }
}

#[test]
fn refused_selector_is_reported() {
    let r = listing_from_matches(&None, &None, &None, &None, &None);
    match r {
        Err(RetryOrFail::InvalidSelector(s)) => assert_eq!(s, "h1.x-item-title__mainTitle"),
        _ => panic!("invalid selector expected"),
    }
}

#[test]
fn listing_from_given_matches() {
    let title = Some(vec![element(" A, b! ", &[]), element("second", &[])]);
    let iframe = Some(vec![element("", &[Some("https://d")])]);
    let images = Some(vec![
        element("", &[None, Some("x"), Some("y")]),
        element("", &[None, None, None]),
        element("", &[Some("z"), None, Some("w")]),
        element("", &[None, Some("x"), None]),
    ]);
    let price = Some(vec![]);
    let comment = Some(vec![element("\n ok \n", &[])]);
    let l = match listing_from_matches(&title, &iframe, &images, &price, &comment) {
        Ok(l) => l,
        Err(_) => panic!("listing expected"),
    };
    assert_eq!(l.title, "A b");
    assert_eq!(l.description_url, "https://d");
    assert_eq!(l.image_link, vec!["x".to_string(), "z".to_string()]);
    assert_eq!(l.price, "None");
    assert_eq!(l.commentaire, "ok");
}

#[test]
fn visible_text_skips_script_and_style() {
    let events = vec![
        DocEvent::OpenElement("body".to_string()),
        DocEvent::Text("Intro".to_string()),
        DocEvent::OpenElement("script".to_string()),
        DocEvent::Text("var x = 1;".to_string()),
        DocEvent::OpenElement("style".to_string()),
        DocEvent::Text("p {}".to_string()),
        DocEvent::CloseElement("style".to_string()),
        DocEvent::CloseElement("script".to_string()),
        DocEvent::Other,
        DocEvent::Text("shown  text".to_string()),
        DocEvent::CloseElement("body".to_string()),
    ];
    let raw: String = collect_visible_text(&events).into_iter().collect();
    assert_eq!(raw, "Intro shown  text ");
    assert_eq!(description_from_events(&events), "shown text");
}

#[test]
fn unmatched_close_hides_following_text() {
    let events = vec![
        DocEvent::CloseElement("style".to_string()),
        DocEvent::Text("hidden".to_string()),
        DocEvent::OpenElement("script".to_string()),
        DocEvent::Text("shown".to_string()),
    ];
    let raw: String = collect_visible_text(&events).into_iter().collect();
    assert_eq!(raw, "shown ");
}

#[test]
fn description_from_html_matches_page_walk() {
    let pages = [
        "<html><head><style>p{color:red}</style><script>var x=1;</script></head><body><p>Description</p><p>Great   item</p><script>ignored()</script><div>Fast shipping</div></body></html>",
        "<p>only</p>",
        "",
        "<div>a <b>b</b> c<style>x</style> d</div>",
    ];
    for p in pages {
        assert_eq!(description_from_html(p), reference_description(p), "{p}");
    }
    assert_eq!(description_from_html(pages[0]), "Great item Fast shipping");
}

#[test]
fn image_link_preference_order() {
    let page = r#"<html><body><iframe id="desc_ifr" src="u"></iframe>
<div class="ux-image-carousel-container">
<img src="s.jpg" data-src="d.jpg">
<img src="only-src.jpg">
<img src="s2.jpg" data-src="d2.jpg" data-zoom-src="z2.jpg">
</div>
<div class="ux-image-carousel-container"><p><img data-src="nested.png"></p></div>
<img data-zoom-src="outside.jpg">
</body></html>"#;
    let listing = match extract_listing(page) {
        Ok(l) => l,
        Err(_) => panic!("listing expected"),
    };
    assert_eq!(
        listing.image_link,
        vec![
            "d.jpg".to_string(),
            "only-src.jpg".to_string(),
            "z2.jpg".to_string(),
            "nested.png".to_string(),
        ]
    );
}
