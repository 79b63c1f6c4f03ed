use adsb_sim::math::Vector2D;
use adsb_sim::math::isqrt;
use adsb_sim::sim_manager::SimManager;
use adsb_sim::sim_manager::CollisionRecord;

fn find_pair<'a>(records: &'a Vec<CollisionRecord>, a: &str, b: &str) -> Option<&'a CollisionRecord> {
    records.iter().find(|r| r.id_a == a && r.id_b == b)
}

#[test]
fn cpa_self_pair_is_certain_and_immediate() {
    let p = Vector2D::new(4000, -2500);
    let v = Vector2D::new(120, -40);
    let (risk, tti) = SimManager::calculate_risk(p, v, p, v);
    assert_eq!(1000, risk);
    assert_eq!(Some(0), tti);
}

#[test]
fn cpa_identical_positions_zero_relative_velocity() {
    let p = Vector2D::new(0, 0);
    let v = Vector2D::new(250, 250);
    let (risk, tti) = SimManager::calculate_risk(p, v, p, v);
    assert_eq!(1000, risk);
    assert_eq!(Some(0), tti);
}

#[test]
fn cpa_far_parallel_tracks_carry_no_risk() {
    let p1 = Vector2D::new(0, 0);
    let p2 = Vector2D::new(2000, 0);
    let v = Vector2D::new(100, 50);
    let (risk, tti) = SimManager::calculate_risk(p1, v, p2, v);
    assert_eq!(0, risk);
    assert_eq!(None, tti);
}

#[test]
fn head_on_collision_reported() {
    let mut sim = SimManager::new(200_000);
    sim.handle_update("A".to_string(), 0, 0, 100, 0, 0, 0);
    sim.handle_update("B".to_string(), 2000, 0, -100, 0, 0, 0);
    sim.check_collisions();
    let records = sim.collision_records();
    let rec = find_pair(records, "A", "B").expect("head-on pair missing");
    assert!(rec.risk_permille >= 900, "risk {}", rec.risk_permille);
    let tti = rec.tti_ms.expect("no time to impact");
    assert!(9_000 <= tti && tti <= 11_000, "tti {}", tti);
}

#[test]
fn altitude_separation_suppresses_pair() {
    let mut sim = SimManager::new(200_000);
    sim.handle_update("A".to_string(), 0, 0, 100, 0, 0, 0);
    sim.handle_update("B".to_string(), 2000, 0, -100, 0, 100, 0);
    sim.check_collisions();
    assert!(find_pair(sim.collision_records(), "A", "B").is_none());
}

#[test]
fn out_of_range_update_drops_track() {
    let mut sim = SimManager::new(200_000);
    sim.handle_update("C".to_string(), 0, 0, 10, 0, 0, 0);
    assert!(sim.contains_track(&"C".to_string()));
    sim.handle_update("C".to_string(), 1_000_000_000, 0, 10, 0, 0, 1);
    assert!(!sim.contains_track(&"C".to_string()));
    assert_eq!(0, sim.track_count());
}

#[test]
fn blacklist_on_proximity_and_prune() {
    let mut sim = SimManager::new(200_000);
    sim.handle_update("A".to_string(), 0, 0, 10, 0, 0, 0);
    sim.handle_update("B".to_string(), 100, 0, -10, 0, 0, 0);
    sim.check_collisions();
    assert!(sim.is_blacklisted(&"A".to_string()));
    assert!(sim.is_blacklisted(&"B".to_string()));
    sim.prune(60_000, Vector2D::new(0, 0), 0);
    assert!(!sim.contains_track(&"A".to_string()));
    assert!(!sim.contains_track(&"B".to_string()));
    assert_eq!(0, sim.collision_records().len());
}

#[test]
fn prune_is_idempotent() {
    let mut sim = SimManager::new(200_000);
    sim.handle_update("A".to_string(), 0, 0, 10, 0, 0, 0);
    sim.handle_update("B".to_string(), 100, 0, -10, 0, 0, 0);
    sim.handle_update("D".to_string(), 30_000, 0, 10, 0, 0, 900_000);
    sim.check_collisions();
    sim.prune(60_000, Vector2D::new(0, 0), 900_000);
    let tracks1 = sim.track_count();
    let recs1 = sim.collision_records().len();
    sim.prune(60_000, Vector2D::new(0, 0), 900_000);
    assert_eq!(tracks1, sim.track_count());
    assert_eq!(recs1, sim.collision_records().len());
    assert!(sim.contains_track(&"D".to_string()));
}

#[test]
fn alerts_are_ranked_and_bounded() {
    let mut sim = SimManager::new(200_000);
    sim.handle_update("A".to_string(), 0, 0, 100, 0, 0, 0);
    sim.handle_update("B".to_string(), 2000, 0, -100, 0, 0, 0);
    sim.handle_update("E".to_string(), 0, 40_000, 100, 0, 0, 0);
    sim.handle_update("F".to_string(), 2500, 40_000, -100, 0, 0, 0);
    sim.check_collisions();
    let alerts = sim.collision_alerts();
    assert!(alerts.len() <= 10);
    for w in alerts.windows(2) {
        assert!(w[0].urgency >= w[1].urgency);
    }
    for a in &alerts {
        assert!(a.risk_permille > 10);
    }
}

#[test]
fn stale_tracks_expire() {
    let mut sim = SimManager::new(200_000);
    sim.handle_update("A".to_string(), 0, 0, 10, 0, 0, 0);
    sim.prune(5_000, Vector2D::new(0, 0), 10_000);
    assert!(!sim.contains_track(&"A".to_string()));
}

#[test]
fn isqrt_exact_values() {
    assert_eq!(0, isqrt(0));
    assert_eq!(1, isqrt(3));
    assert_eq!(2, isqrt(4));
    assert_eq!(3, isqrt(15));
    assert_eq!(4, isqrt(16));
    assert_eq!(1000, isqrt(1_000_000));
    assert_eq!(4_294_967_295, isqrt(u64::MAX));
}

#[test]
fn aircraft_history_is_bounded() {
    let mut sim = SimManager::new(200_000);
    for i in 0..40i64 {
        sim.handle_update("A".to_string(), i, 0, 10, 0, 0, i as u64);
    }
    let track = sim.get_track(&"A".to_string()).expect("track missing");
    assert_eq!(Vector2D::new(39, 0), track.position);
    let history = track.history_snapshot();
    assert_eq!(32, history.len());
    assert_eq!(Vector2D::new(7, 0), history[0]);
    assert_eq!(Vector2D::new(38, 0), history[31]);
}
