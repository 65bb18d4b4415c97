use ebay_scraper::links::{data_file, image_file, list_contains};
use ebay_scraper::page::{collect_image_candidates, hidden_tag, pick_first_present, MatchedElement};
use ebay_scraper::text::{
    append_range, chars_contain, chars_range, chars_start_with, owned, split_words,
    string_from_range, trim_bounds,
};

fn chars(s: &str) -> Vec<char> {
    s.chars().collect()
}

#[test]
fn char_ranges_and_strings() {
    let v = chars("héllo wörld");
    assert_eq!(string_from_range(&v, 1, 5), "éllo");
    assert_eq!(chars_range(&v, 6, 11), chars("wörld"));
    let mut s = owned("x");
    append_range(&mut s, &v, 0, 2);
    assert_eq!(s, "xhé");
    assert_eq!(trim_bounds(&chars("  ab c \n")), (2, 6));
    assert_eq!(trim_bounds(&chars("   ")), (3, 3));
}

#[test]
fn char_searches() {
    assert!(chars_contain(&chars("abcabd"), &chars("abd")));
    assert!(!chars_contain(&chars("ab"), &chars("abc")));
    assert!(chars_start_with(&chars("https://x"), &chars("http")));
    assert!(!chars_start_with(&chars("htt"), &chars("http")));
}

#[test]
fn words_of_text() {
    let w = split_words(&chars(" one  two\tthree\n"));
    assert_eq!(w, vec![chars("one"), chars("two"), chars("three")]);
    assert!(split_words(&chars(" \n ")).is_empty());
}

#[test]
fn hidden_tags() {
    assert!(hidden_tag(&"script".to_string()));
    assert!(hidden_tag(&"style".to_string()));
    assert!(!hidden_tag(&"div".to_string()));
    assert!(!hidden_tag(&"Script".to_string()));
}

#[test]
fn image_links_of_matches() {
    let values = vec![None, Some("b".to_string()), Some("c".to_string())];
    assert_eq!(pick_first_present(&values), Some("b".to_string()));
    assert_eq!(pick_first_present(&vec![None, None]), None);
    let m = vec![
        MatchedElement { text: String::new(), attributes: vec![None, None, Some("s".to_string())] },
        MatchedElement { text: String::new(), attributes: vec![None, None, None] },
        MatchedElement { text: String::new(), attributes: vec![Some("z".to_string()), None, None] },
    ];
    assert_eq!(collect_image_candidates(&m), vec!["s".to_string(), "z".to_string()]);
}

#[test]
fn membership() {
    let v = vec!["a".to_string(), "b".to_string()];
    assert!(list_contains(&v, &"b".to_string()));
    assert!(!list_contains(&v, &"c".to_string()));
}

#[test]
fn data_file_is_not_an_image_file() {
    for i in 0..20 {
        for url in ["https://a/x.png", "https://a/y"] {
            assert_ne!(data_file("f"), image_file("f", i, url));
        }
    }
}
