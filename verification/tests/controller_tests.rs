use shodan_pipeline::controller::{
    adaptive_decision, dedup_sort_addresses, hunt_batch_bounds, hunt_decision, merge_addresses,
    AdaptiveDecision, AdaptiveState, HuntDecision, HuntState,
};
use shodan_pipeline::models::{HostReport, PortDetail, PortState};

fn report_with_opens(ip: &str, opens: usize) -> HostReport {
    let mut ports = Vec::new();
    for k in 0..opens {
        ports.push(PortDetail { port: (8000 + k) as u16, state: PortState::Open, service: None });
    }
    HostReport { target: ip.to_string(), ip: ip.to_string(), ports }
}

#[test]
fn hunt_stops_after_the_batch_with_the_second_interesting_host() {
    let pool: Vec<String> = (0..10).map(|k| format!("10.0.0.{k}")).collect();
    let hunt_needed = 2;
    let hunt_min_open = 1;
    let hunt_batch = 3;
    let limit = 10;
    let interesting_idx = [2usize, 7usize];
    let mut st = HuntState { needed: hunt_needed, all_reports: Vec::new(), interesting: Vec::new() };
    let mut cursor = 0usize;
    let mut batches = 0usize;
    loop {
        match hunt_decision(st.needed, cursor, pool.len(), limit) {
            HuntDecision::Continue => {}
            other => {
                assert!(other == HuntDecision::TargetReached);
                break;
            }
        }
        let (start, end) = hunt_batch_bounds(cursor, hunt_batch, pool.len());
        cursor = end;
        batches += 1;
        let mut reports = Vec::new();
        for k in start..end {
            let opens = if interesting_idx.contains(&k) { 1 } else { 0 };
            reports.push(report_with_opens(&pool[k], opens));
        }
        st.absorb_batch(reports, hunt_min_open);
    }
    assert_eq!(batches, 3, "stops right after the batch holding the second interesting host");
    assert_eq!(st.needed, 0);
    assert_eq!(st.interesting.len(), 2);
    assert_eq!(st.all_reports.len(), 9);
}

#[test]
fn hunt_stops_when_the_pool_runs_out() {
    let d = hunt_decision(1, 4, 4, 10);
    assert!(d == HuntDecision::PoolExhausted);
}

#[test]
fn adaptive_expands_once_then_stops() {
    let limit = 10;
    let interesting_target = 1;
    let min_open = 1;
    let pool = dedup_sort_addresses(vec!["10.0.0.2".to_string(), "10.0.0.1".to_string()]);
    let mut st = AdaptiveState::new(pool);
    let mut expansions = 0usize;
    loop {
        let batch_targets = st.remaining();
        if !batch_targets.is_empty() {
            let mut batch = Vec::new();
            for ip in &batch_targets {
                // Newly discovered addresses are the interesting ones here.
                let opens = if ip.as_str() == "10.0.0.50" { 1 } else { 0 };
                batch.push(report_with_opens(ip, opens));
            }
            st.absorb_batch(batch, min_open);
        }
        match adaptive_decision(
            true,
            st.interesting_found,
            interesting_target,
            st.scanned.len(),
            st.pool.len(),
            limit,
        ) {
            AdaptiveDecision::Rescan => {}
            AdaptiveDecision::Expand { new_limit, extra_pages } => {
                expansions += 1;
                assert_eq!(new_limit, 7);
                assert_eq!(extra_pages, 5);
                let grew = merge_addresses(&mut st.pool, vec!["10.0.0.50".to_string()]);
                assert!(grew);
            }
            AdaptiveDecision::TargetReached => break,
            other => panic!("unexpected decision {other:?}"),
        }
    }
    assert_eq!(expansions, 1, "exactly one expansion request");
    assert_eq!(st.interesting_found, 1);
}

#[test]
fn plain_mode_runs_one_cycle() {
    let d = adaptive_decision(false, 0, 0, 2, 2, 10);
    assert!(d == AdaptiveDecision::SingleCycleDone);
}

#[test]
fn pool_is_sorted_and_unique() {
    let pool = dedup_sort_addresses(vec![
        "b".to_string(),
        "a".to_string(),
        "b".to_string(),
        "aa".to_string(),
    ]);
    assert_eq!(pool, vec!["a".to_string(), "aa".to_string(), "b".to_string()]);
}

#[test]
fn merge_keeps_order_and_skips_known() {
    let mut pool = vec!["a".to_string(), "b".to_string()];
    let grew = merge_addresses(&mut pool, vec!["b".to_string(), "c".to_string()]);
    assert!(grew);
    assert_eq!(pool, vec!["a".to_string(), "b".to_string(), "c".to_string()]);
    let again = merge_addresses(&mut pool, vec!["a".to_string()]);
    assert!(!again);
}

#[test]
fn remaining_excludes_scanned() {
    let pool = vec!["a".to_string(), "b".to_string(), "c".to_string()];
    let mut st = AdaptiveState::new(pool);
    st.absorb_batch(vec![report_with_opens("b", 0)], 1);
    let rest = st.remaining();
    assert_eq!(rest, vec!["a".to_string(), "c".to_string()]);
}
