use ebay_scraper::links::{
    data_file, dedup_in_order, detect_extension, extension_for_lowercase, image_file,
    item_folder, plan_downloads, sanitize_image_url,
};

fn strings(v: &[&str]) -> Vec<String> {
    v.iter().map(|s| s.to_string()).collect()
}

#[test]
fn sanitize_scheme_relative_gets_https() {
    assert_eq!(
        sanitize_image_url("  //i.ebayimg.com/images/g/x/s-l1600.jpg "),
        Some("https://i.ebayimg.com/images/g/x/s-l1600.jpg".to_string())
    );
}

#[test]
fn sanitize_keeps_http_links() {
    assert_eq!(sanitize_image_url("http://a/b.png"), Some("http://a/b.png".to_string()));
    assert_eq!(sanitize_image_url("\thttps://a/b.png\n"), Some("https://a/b.png".to_string()));
}

#[test]
fn sanitize_drops_other_links() {
    assert_eq!(sanitize_image_url(""), None);
    assert_eq!(sanitize_image_url("   "), None);
    assert_eq!(sanitize_image_url("data:image/png;base64,xx"), None);
    assert_eq!(sanitize_image_url("/relative/path.jpg"), None);
}

#[test]
fn sanitize_is_idempotent_on_examples() {
    for link in ["//x/y.jpg", " http://x ", "https://z"] {
        let once = sanitize_image_url(link).unwrap();
        assert_eq!(sanitize_image_url(&once), Some(once.clone()));
        assert!(once.starts_with("http"));
    }
}

#[test]
fn extension_detection() {
    assert_eq!(detect_extension("https://a/b.webp"), ".webp");
    assert_eq!(detect_extension("https://a/B.PNG"), ".png");
    assert_eq!(detect_extension("https://a/photo.JPEG?x=1"), ".jpeg");
    assert_eq!(detect_extension("https://a/photo"), ".jpg");
    assert_eq!(detect_extension("https://a/x.png.webp"), ".webp");
}

#[test]
fn extension_from_lowercase_text() {
    assert_eq!(extension_for_lowercase("a.png"), ".png");
    assert_eq!(extension_for_lowercase("a.PNG"), ".jpg");
}

#[test]
fn dedup_keeps_first_occurrences() {
    let v = strings(&["a", "b", "a", "c", "b", "d"]);
    assert_eq!(dedup_in_order(&v), strings(&["a", "b", "c", "d"]));
    assert_eq!(dedup_in_order(&Vec::new()), Vec::<String>::new());
}

#[test]
fn paths_of_an_item() {
    let folder = item_folder("/tmp/download", "123456789012");
    assert_eq!(folder, "/tmp/download/123456789012");
    assert_eq!(data_file(&folder), "/tmp/download/123456789012/data.json");
    assert_eq!(image_file(&folder, 0, "https://x/a.png"), "/tmp/download/123456789012/1.png");
    assert_eq!(image_file(&folder, 9, "https://x/a"), "/tmp/download/123456789012/10.jpg");
}

#[test]
fn download_plan_skips_bad_links_and_keeps_positions() {
    let links = strings(&["//a/1.jpg", "garbage", "https://a/3.WEBP", "  "]);
    let plan = plan_downloads(&links, "out/42");
    let got: Vec<(String, String)> = plan.into_iter().map(|d| (d.url, d.path)).collect();
    assert_eq!(
        got,
        vec![
            ("https://a/1.jpg".to_string(), "out/42/1.jpg".to_string()),
            ("https://a/3.WEBP".to_string(), "out/42/3.webp".to_string()),
        ]
    );
}

#[test]
fn download_plan_paths_are_distinct() {
    let links: Vec<String> = (0..25).map(|i| format!("https://h/{i}.png")).collect();
    let plan = plan_downloads(&links, "f");
    let mut paths: Vec<String> = plan.iter().map(|d| d.path.clone()).collect();
    let n = paths.len();
    paths.sort();
    paths.dedup();
    assert_eq!(paths.len(), n);
    assert_eq!(n, 25);
}
