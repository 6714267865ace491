use proxy_manager::{
    is_success_status, passes_threshold, success_rate_thousandths, ProxyManager, TaggedText,
    TestOutcome, TEST_TARGET_COUNT,
};

fn tagged(country: &str, body: &str) -> TaggedText {
    TaggedText { country: country.to_string(), body: body.to_string() }
}

fn outcome(client_ok: bool, successes: u8, elapsed_ms: u64) -> TestOutcome {
    TestOutcome { client_ok, successes, elapsed_ms, tested_at: 7 }
}

#[test]
fn threshold_two_of_three_retained() {
    assert!(passes_threshold(2, 3));
    assert_eq!(success_rate_thousandths(2, 3), 667);
}

#[test]
fn threshold_one_of_three_dropped() {
    assert!(!passes_threshold(1, 3));
    assert_eq!(success_rate_thousandths(1, 3), 333);
}

#[test]
fn threshold_exact_half_excluded() {
    assert!(!passes_threshold(1, 2));
    assert_eq!(success_rate_thousandths(1, 2), 500);
}

#[test]
fn threshold_full_success() {
    assert!(passes_threshold(3, 3));
    assert_eq!(success_rate_thousandths(3, 3), 1000);
}

#[test]
fn status_codes() {
    assert!(is_success_status(200));
    assert!(is_success_status(299));
    assert!(!is_success_status(300));
    assert!(!is_success_status(404));
    assert!(!is_success_status(199));
}

#[test]
fn fetch_appends_unfiltered() {
    let mut mgr = ProxyManager::new();
    let bodies = vec!["1.2.3.4:8080\n5.6.7.8:80\n".to_string()];
    assert!(mgr.fetch_free_proxies(&bodies, &Vec::new()).is_ok());
    let snap = mgr.unfiltered_snapshot();
    assert_eq!(snap.len(), 2);
    assert_eq!(snap[0].ip, "1.2.3.4");
    assert_eq!(snap[1].ip, "5.6.7.8");
    assert_eq!(snap[0].country, "Unknown");
}

#[test]
fn fetch_country_tagging() {
    let mut mgr = ProxyManager::new();
    let sources = vec![tagged("US", "1.2.3.4:8080\n2.3.4.5:81\n"), tagged("DE", "9.9.9.9:82\n")];
    assert!(mgr.fetch_free_proxies(&Vec::new(), &sources).is_ok());
    let snap = mgr.unfiltered_snapshot();
    assert_eq!(snap.len(), 3);
    assert_eq!(snap[0].country, "US");
    assert_eq!(snap[1].country, "US");
    assert_eq!(snap[2].country, "DE");
    assert_eq!(snap[2].ip, "9.9.9.9");
}

#[test]
fn fetch_twice_doubles_identically() {
    let mut mgr = ProxyManager::new();
    let bodies = vec!["1.2.3.4:8080\n5.6.7.8:80\n".to_string()];
    let sources = vec![tagged("FR", "7.7.7.7:70\n")];
    assert!(mgr.fetch_free_proxies(&bodies, &sources).is_ok());
    assert!(mgr.fetch_free_proxies(&bodies, &sources).is_ok());
    let snap = mgr.unfiltered_snapshot();
    assert_eq!(snap.len(), 6);
    for i in 0..3 {
        assert_eq!(snap[i].ip, snap[i + 3].ip);
        assert_eq!(snap[i].port, snap[i + 3].port);
        assert_eq!(snap[i].country, snap[i + 3].country);
        assert_eq!(snap[i].protocol, snap[i + 3].protocol);
    }
}

#[test]
fn test_cycle_retains_majority_only() {
    let mut mgr = ProxyManager::new();
    let bodies = vec!["1.1.1.1:80\n2.2.2.2:80\n3.3.3.3:80\n".to_string()];
    assert!(mgr.fetch_free_proxies(&bodies, &Vec::new()).is_ok());
    let snap = mgr.unfiltered_snapshot();
    let outcomes = vec![
        outcome(true, 3, 120),
        outcome(true, 1, 130),
        outcome(false, TEST_TARGET_COUNT, 140),
    ];
    assert!(mgr.test_proxies(&snap, &outcomes).is_ok());
    let stats = mgr.get_proxy_stats();
    assert_eq!(stats.len(), 1);
    assert_eq!(stats[0].0, "Unknown");
    assert_eq!(stats[0].1, 1);
    let best = mgr.get_best_proxy(None).expect("one record passed");
    assert_eq!(best.ip, "1.1.1.1");
    assert_eq!(best.success_rate, 1000);
    assert_eq!(best.speed, 120);
    assert_eq!(best.last_tested, 7);
}

#[test]
fn test_cycle_replaces_wholesale() {
    let mut mgr = ProxyManager::new();
    let bodies = vec!["1.1.1.1:80\n".to_string()];
    assert!(mgr.fetch_free_proxies(&bodies, &Vec::new()).is_ok());
    let snap = mgr.unfiltered_snapshot();
    assert!(mgr.test_proxies(&snap, &vec![outcome(true, 3, 50)]).is_ok());
    assert_eq!(mgr.get_proxy_stats().len(), 1);
    assert!(mgr.test_proxies(&snap, &vec![outcome(true, 0, 50)]).is_ok());
    assert_eq!(mgr.get_proxy_stats().len(), 0);
    assert_eq!(mgr.unfiltered_snapshot().len(), 1);
}

#[test]
fn best_proxy_prefers_faster_equal_rate() {
    let mut mgr = ProxyManager::new();
    let bodies = vec!["10.0.0.1:80\n10.0.0.2:80\n".to_string()];
    assert!(mgr.fetch_free_proxies(&bodies, &Vec::new()).is_ok());
    let snap = mgr.unfiltered_snapshot();
    let outcomes = vec![outcome(true, 3, 50), outcome(true, 3, 500)];
    assert!(mgr.test_proxies(&snap, &outcomes).is_ok());
    let best = mgr.get_best_proxy(Some("Unknown")).expect("pool is non-empty");
    assert_eq!(best.ip, "10.0.0.1");
}

#[test]
fn best_proxy_zero_score_is_none() {
    let mut mgr = ProxyManager::new();
    let bodies = vec!["10.0.0.1:80\n".to_string()];
    assert!(mgr.fetch_free_proxies(&bodies, &Vec::new()).is_ok());
    let snap = mgr.unfiltered_snapshot();
    assert!(mgr.test_proxies(&snap, &vec![outcome(true, 2, 667)]).is_ok());
    assert_eq!(mgr.get_proxy_stats().len(), 1);
    assert!(mgr.get_best_proxy(None).is_none());
}

#[test]
fn best_proxy_absent_country_scans_all() {
    let mut mgr = ProxyManager::new();
    let sources = vec![tagged("US", "10.0.0.1:80\n")];
    assert!(mgr.fetch_free_proxies(&Vec::new(), &sources).is_ok());
    let snap = mgr.unfiltered_snapshot();
    assert!(mgr.test_proxies(&snap, &vec![outcome(true, 3, 40)]).is_ok());
    let best = mgr.get_best_proxy(Some("ZZ")).expect("falls back to every list");
    assert_eq!(best.country, "US");
}

#[test]
fn fallback_selection_other_country() {
    let mut mgr = ProxyManager::new();
    let sources = vec![tagged("US", "1.2.3.4:8080\n")];
    assert!(mgr.fetch_free_proxies(&Vec::new(), &sources).is_ok());
    let snap = mgr.unfiltered_snapshot();
    assert!(mgr.test_proxies(&snap, &vec![outcome(true, 3, 10)]).is_ok());
    let chosen = mgr.get_proxy_by_country("XX").expect("falls back to US");
    assert_eq!(chosen.country, "US");
    assert_eq!(chosen.ip, "1.2.3.4");
}

#[test]
fn selection_empty_pool_is_none() {
    let mgr = ProxyManager::new();
    assert!(mgr.get_proxy_by_country("US").is_none());
    assert!(mgr.get_best_proxy(None).is_none());
    assert!(mgr.get_best_proxy(Some("US")).is_none());
    assert_eq!(mgr.get_proxy_stats().len(), 0);
}

#[test]
fn random_selection_returns_member() {
    let mut mgr = ProxyManager::new();
    let bodies = vec!["10.0.0.1:80\n10.0.0.2:80\n10.0.0.3:80\n".to_string()];
    assert!(mgr.fetch_free_proxies(&bodies, &Vec::new()).is_ok());
    let snap = mgr.unfiltered_snapshot();
    let outcomes = vec![outcome(true, 3, 10), outcome(true, 3, 20), outcome(true, 3, 30)];
    assert!(mgr.test_proxies(&snap, &outcomes).is_ok());
    for _ in 0..20 {
        let chosen = mgr.get_proxy_by_country("Unknown").expect("list is non-empty");
        assert!(["10.0.0.1", "10.0.0.2", "10.0.0.3"].contains(&chosen.ip.as_str()));
    }
}

#[test]
fn stats_multiple_countries_in_first_insertion_order() {
    let mut mgr = ProxyManager::new();
    let sources = vec![tagged("US", "1.1.1.1:1\n2.2.2.2:2\n"), tagged("DE", "3.3.3.3:3\n")];
    assert!(mgr.fetch_free_proxies(&Vec::new(), &sources).is_ok());
    let snap = mgr.unfiltered_snapshot();
    let outcomes = vec![outcome(true, 3, 10), outcome(true, 2, 20), outcome(true, 3, 30)];
    assert!(mgr.test_proxies(&snap, &outcomes).is_ok());
    let stats = mgr.get_proxy_stats();
    assert_eq!(stats.len(), 2);
    assert_eq!(stats[0].0, "US");
    assert_eq!(stats[0].1, 2);
    assert_eq!(stats[1].0, "DE");
    assert_eq!(stats[1].1, 1);
}
