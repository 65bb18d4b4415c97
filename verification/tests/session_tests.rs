use ebay_scraper::fetch::{
    attempt_pause, decide_attempt, retries_exhausted, AttemptDecision, MAX_RETRIES,
};
use ebay_scraper::page::{EbayItem, RetryOrFail};
use ebay_scraper::session::{
    after_fetch, after_restart, browser_dead, display_path, first_item_step, next_status,
    parse_item_ids, pending_ids, tab_settings, FetchReport, ItemOutcome, ItemStep, LogBuffer,
    LOG_CAPACITY, MAX_BROWSER_TRIES,
};

fn strings(v: &[&str]) -> Vec<String> {
    v.iter().map(|s| s.to_string()).collect()
}

fn item() -> EbayItem {
    EbayItem {
        title: "t".to_string(),
        description: "d".to_string(),
        image_link: vec![],
        commentaire: String::new(),
        price: "1".to_string(),
    }
}

#[test]
fn item_ids_one_per_line() {
    assert_eq!(
        parse_item_ids("123\r\n  456  \n\n\t\n789"),
        strings(&["123", "456", "789"])
    );
    assert_eq!(parse_item_ids(""), Vec::<String>::new());
    assert_eq!(parse_item_ids("\n\n"), Vec::<String>::new());
    assert_eq!(parse_item_ids("a b\n"), strings(&["a b"]));
}

#[test]
fn item_ids_match_lines_trim_filter() {
    let content = " x\n\ny \r\n z\u{a0}\n\u{3000}\nw";
    let expected: Vec<String> = content
        .lines()
        .map(|l| l.trim().to_string())
        .filter(|l| !l.is_empty())
        .collect();
    assert_eq!(parse_item_ids(content), expected);
}

#[test]
fn pending_ids_dedup_and_skip_processed() {
    let all = strings(&["1", "2", "1", "3", "4", "2"]);
    let processed = strings(&["3", "9"]);
    assert_eq!(pending_ids(&all, &processed), strings(&["1", "2", "4"]));
    assert_eq!(pending_ids(&all, &all), Vec::<String>::new());
}

#[test]
fn tab_defaults() {
    assert_eq!(tab_settings(1), (1, 4));
    assert_eq!(tab_settings(2), (1, 4));
    assert_eq!(tab_settings(6), (3, 6));
    assert_eq!(tab_settings(16), (4, 16));
    assert_eq!(tab_settings(0), (1, 4));
}

#[test]
fn status_updates() {
    assert_eq!(next_status(false, 5, 5), Some("Completed!"));
    assert_eq!(next_status(true, 2, 5), Some("Running..."));
    assert_eq!(next_status(false, 0, 0), None);
    assert_eq!(next_status(false, 2, 5), None);
}

#[test]
fn dead_browser_messages() {
    assert!(browser_dead("Error: underlying connection is closed"));
    assert!(browser_dead("connection is closed"));
    assert!(!browser_dead("Navigation timeout"));
}

#[test]
fn log_keeps_latest_lines() {
    let mut log = LogBuffer::new();
    for i in 0..(LOG_CAPACITY + 5) {
        log.push(format!("line {i}"));
    }
    assert_eq!(log.len(), LOG_CAPACITY);
    assert_eq!(log.lines()[0], "line 5");
    assert_eq!(log.lines()[LOG_CAPACITY - 1], format!("line {}", LOG_CAPACITY + 4));
    log.clear();
    assert_eq!(log.len(), 0);
    log.push("again".to_string());
    assert_eq!(log.lines(), &vec!["again".to_string()]);
}

#[test]
fn item_steps() {
    assert_eq!(first_item_step(), ItemStep::Fetch(0));
    assert_eq!(after_fetch(0, &FetchReport::Saved), ItemStep::Finished(ItemOutcome::Saved));
    assert_eq!(
        after_fetch(1, &FetchReport::WriteFailed),
        ItemStep::Finished(ItemOutcome::Failed)
    );
    assert_eq!(
        after_fetch(0, &FetchReport::Error("Title element not found yet".to_string())),
        ItemStep::Finished(ItemOutcome::Failed)
    );
    assert_eq!(
        after_fetch(2, &FetchReport::Error("underlying connection is closed".to_string())),
        ItemStep::RestartBrowser(2)
    );
    assert_eq!(after_restart(0, false), ItemStep::Finished(ItemOutcome::Failed));
    assert_eq!(after_restart(0, true), ItemStep::Fetch(1));
    assert_eq!(after_restart(MAX_BROWSER_TRIES - 1, true), ItemStep::Finished(ItemOutcome::GaveUp));
}

#[test]
fn item_work_ends_within_the_limit() {
    let mut step = first_item_step();
    let mut fetches = 0;
    loop {
        match step {
            ItemStep::Fetch(a) => {
                fetches += 1;
                step = after_fetch(a, &FetchReport::Error("connection is closed".to_string()));
            }
            ItemStep::RestartBrowser(a) => step = after_restart(a, true),
            ItemStep::Finished(o) => {
                assert_eq!(o, ItemOutcome::GaveUp);
                break;
            }
        }
    }
    assert_eq!(fetches, MAX_BROWSER_TRIES);
}

#[test]
fn pauses_between_tries() {
    for a in 0..MAX_RETRIES {
        let ms = attempt_pause(a).unwrap();
        assert!((500..1500).contains(&ms));
    }
    assert_eq!(attempt_pause(MAX_RETRIES), None);
}

#[test]
fn attempt_decisions() {
    match decide_attempt(Ok(item())) {
        AttemptDecision::Done(Ok(i)) => assert_eq!(i.title, "t"),
        _ => panic!("item expected"),
    }
    match decide_attempt(Err(RetryOrFail::Retry("Title element not found yet".to_string()))) {
        AttemptDecision::TryAgain(m) => assert_eq!(m, "Title element not found yet"),
        _ => panic!("retry expected"),
    }
    match decide_attempt(Err(RetryOrFail::Retry("the connection is closed".to_string()))) {
        AttemptDecision::Done(Err(m)) => assert_eq!(m, "the connection is closed"),
        _ => panic!("error expected"),
    }
    match decide_attempt(Err(RetryOrFail::Fail("Failed to navigate: x".to_string()))) {
        AttemptDecision::Done(Err(m)) => assert_eq!(m, "Failed to navigate: x"),
        _ => panic!("error expected"),
    }
    assert_eq!(retries_exhausted(), "Max retries reached");
}

#[test]
fn display_paths() {
    assert_eq!(display_path("/home/me/items.txt"), "/home/me/items.txt");
    let long = format!("/{}/items.txt", "a".repeat(60));
    let shown = display_path(&long);
    assert_eq!(shown, format!("...{}", &long[long.len() - 47..]));
    assert_eq!(shown.len(), 50);
    let exact = "b".repeat(50);
    assert_eq!(display_path(&exact), exact);
}
