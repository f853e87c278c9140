use shodan_pipeline::shodan::{
    build_count_url, build_search_url, fallback_query, CollectAction, CollectState,
};
use shodan_pipeline::targets::parse_target_lines;

#[test]
fn urls_are_percent_encoded() {
    let url = build_count_url("k e y", "country:CL AND org:\"x\"");
    assert!(url.starts_with("https://api.shodan.io/shodan/host/count?key=k%20e%20y&query="));
    assert!(url.contains("country%3ACL%20AND%20org%3A%22x%22"));
    let page = build_search_url("k", "q", 3);
    assert_eq!(page, "https://api.shodan.io/shodan/host/search?key=k&query=q&page=3&minify=true");
}

#[test]
fn rejected_queries_fall_back_to_the_broad_one() {
    assert_eq!(fallback_query(), "country:CL");
}

#[test]
fn collection_pages_are_clamped() {
    let st = CollectState::begin(0, 5);
    assert_eq!(st.max_pages, 1);
    let big = CollectState::begin(500, 5);
    assert_eq!(big.max_pages, 100);
    let normal = CollectState::begin(20, 5);
    assert_eq!(normal.max_pages, 20);
    assert!(normal.next_action() == CollectAction::Request);
}

#[test]
fn rate_limit_retries_once_then_skips() {
    let mut st = CollectState::begin(3, 10);
    assert!(st.on_rate_limited() == CollectAction::RetryAfterBackoff);
    assert_eq!(st.page, 1);
    assert!(st.on_rate_limited() == CollectAction::SkipPage);
    assert_eq!(st.page, 2);
    assert!(!st.retried);
}

#[test]
fn pages_absorb_until_the_limit() {
    let mut st = CollectState::begin(10, 3);
    let first = vec!["2.2.2.2".to_string(), "1.1.1.1".to_string(), "2.2.2.2".to_string()];
    let more = st.on_page(&first);
    assert!(more);
    assert_eq!(st.ips, vec!["1.1.1.1".to_string(), "2.2.2.2".to_string()]);
    assert_eq!(st.page, 2);
    let second = vec!["3.3.3.3".to_string(), "4.4.4.4".to_string()];
    let more2 = st.on_page(&second);
    assert!(!more2, "the limit stops collection");
    assert_eq!(st.ips.len(), 3);
    let mut empty_run = CollectState::begin(10, 3);
    let none: Vec<String> = Vec::new();
    assert!(!empty_run.on_page(&none), "an empty page stops collection");
}

#[test]
fn target_files_are_trimmed_and_filtered() {
    let text = " 10.0.0.1 \n\nexample.com\r\n   \n10.0.0.2";
    let lines = parse_target_lines(text);
    assert_eq!(
        lines,
        vec!["10.0.0.1".to_string(), "example.com".to_string(), "10.0.0.2".to_string()]
    );
}
