use adsb_sim::filter_manager::FilterManager;
use adsb_sim::filter_manager::FilterResult;

#[test]
fn promotion_after_threshold_sightings() {
    let mut fm = FilterManager::new(0);
    let id = "A".to_string();
    assert_eq!(FilterResult::Pending, fm.insert(&id, 0));
    assert_eq!(FilterResult::Pending, fm.insert(&id, 0));
    assert_eq!(FilterResult::Promoted, fm.insert(&id, 0));
    assert_eq!(FilterResult::Trusted, fm.insert(&id, 0));
    assert_eq!(FilterResult::Trusted, fm.insert(&id, 0));
    let stats = fm.stats();
    assert!(stats.layer_count >= 1);
    assert_eq!(0, stats.pending);
}

#[test]
fn pending_ids_stay_independent() {
    let mut fm = FilterManager::new(0);
    let a = "AF001".to_string();
    let b = "BA002".to_string();
    assert_eq!(FilterResult::Pending, fm.insert(&a, 0));
    assert_eq!(FilterResult::Pending, fm.insert(&b, 0));
    assert_eq!(FilterResult::Pending, fm.insert(&a, 0));
    let stats = fm.stats();
    assert_eq!(2, stats.pending);
}

#[test]
fn prune_clears_pending_counters() {
    let mut fm = FilterManager::new(0);
    let a = "AF001".to_string();
    assert_eq!(FilterResult::Pending, fm.insert(&a, 0));
    assert_eq!(FilterResult::Pending, fm.insert(&a, 0));
    fm.prune(60_000, 0);
    assert_eq!(0, fm.stats().pending);
    // the count restarts: promotion needs three fresh sightings
    assert_eq!(FilterResult::Pending, fm.insert(&a, 0));
    assert_eq!(FilterResult::Pending, fm.insert(&a, 0));
    assert_eq!(FilterResult::Promoted, fm.insert(&a, 0));
}

#[test]
fn manager_stats_of_fresh_filter() {
    let fm = FilterManager::new(0);
    let stats = fm.stats();
    assert_eq!(1, stats.layer_count);
    assert_eq!(20480, stats.total_bits);
    assert_eq!(0, stats.set_bits);
    assert_eq!(976, stats.est_fpr_ppm);
    assert_eq!(0, stats.pending);
    assert_eq!(976, fm.fpr_ppm());
}

#[test]
fn manager_prune_idempotent() {
    let mut fm = FilterManager::new(0);
    for i in 0..50u32 {
        let id = format!("craft-{}", i);
        fm.insert(&id, (i as u64) * 10);
        fm.insert(&id, (i as u64) * 10);
        fm.insert(&id, (i as u64) * 10);
    }
    fm.prune(300, 600);
    let s1 = fm.stats();
    fm.prune(300, 600);
    let s2 = fm.stats();
    assert_eq!(s1, s2);
}
