//! The collision engine: a track store indexed by a spatial grid, pairwise
//! Monte-Carlo closest-point-of-approach risk, a blacklist of aircraft seen
//! at sub-collision separation, and track retention.
use vstd::prelude::*;
use vstd::multiset::Multiset;
use crate::grid::{GridCoord, SpatialGrid, nearby_cell, remove_id, lemma_remove_id_membership,
    lemma_div_bounds};
use crate::math::{Vector2D, lemma_mul_bounds, lemma_mul_le, lemma_square_nonneg, isqrt};
use crate::model::Aircraft;
use crate::sim_metrics::SimulationMetrics;

verus! {

/// Lexicographic order on identifiers, by Unicode code point.
pub open spec fn lex_lt(a: Seq<char>, b: Seq<char>) -> bool
    decreases a.len(),
{
    if b.len() == 0 {
        false
    } else if a.len() == 0 {
        true
    } else if a[0] != b[0] {
        (a[0] as u32) < (b[0] as u32)
    } else {
        lex_lt(a.drop_first(), b.drop_first())
    }
}

/// The order is total: two incomparable identifiers are equal.
pub proof fn lemma_lex_trichotomy(a: Seq<char>, b: Seq<char>)
    requires
        !lex_lt(a, b),
        !lex_lt(b, a),
    ensures
        a == b,
    decreases a.len(),
{
    if a.len() == 0 || b.len() == 0 {
        assert(a =~= b);
    } else {
        assert((a[0] as u32) == (b[0] as u32));
        vstd::utf8::char_u32_cast(a[0], a[0] as u32);
        vstd::utf8::char_u32_cast(b[0], b[0] as u32);
        assert(a[0] == b[0]);
        lemma_lex_trichotomy(a.drop_first(), b.drop_first());
        assert(a =~= seq![a[0]] + a.drop_first());
        assert(b =~= seq![b[0]] + b.drop_first());
    }
}

/// Code-point lexicographic comparison of two identifiers.
pub fn str_lt(a: &String, b: &String) -> (r: bool)
    ensures
        r == lex_lt(a@, b@),
{
    let an = a.as_str().unicode_len();
    let bn = b.as_str().unicode_len();
    let mut i: usize = 0;
    proof {
        assert(a@.skip(0) =~= a@);
        assert(b@.skip(0) =~= b@);
    }
    loop
        invariant
            an == a@.len(),
            bn == b@.len(),
            0 <= i <= an,
            0 <= i <= bn,
            lex_lt(a@, b@) == lex_lt(a@.skip(i as int), b@.skip(i as int)),
        decreases an - i,
    {
        if i == an || i == bn {
            proof {
                if i == an && i < bn {
                    assert(a@.skip(i as int).len() == 0);
                    assert(b@.skip(i as int).len() > 0);
                } else if i == bn {
                    assert(b@.skip(i as int).len() == 0);
                }
            }
            return i == an && i < bn;
        }
        let ca = a.as_str().get_char(i);
        let cb = b.as_str().get_char(i);
        proof {
            assert(a@.skip(i as int)[0] == a@[i as int]);
            assert(b@.skip(i as int)[0] == b@[i as int]);
            assert(a@.skip(i as int).drop_first() =~= a@.skip(i + 1));
            assert(b@.skip(i as int).drop_first() =~= b@.skip(i + 1));
        }
        if ca as u32 != cb as u32 {
            proof {
                assert(ca != cb);
            }
            return (ca as u32) < (cb as u32);
        }
        proof {
            assert(ca == cb);
        }
        i = i + 1;
    }
}

/// First index holding a track for the id, or -1.
pub open spec fn find_track(s: Seq<(String, Aircraft)>, id: Seq<char>) -> int
    decreases s.len(),
{
    if s.len() == 0 {
        -1
    } else if s[0].0@ == id {
        0
    } else {
        let r = find_track(s.drop_first(), id);
        if r < 0 {
            -1
        } else {
            r + 1
        }
    }
}

pub proof fn lemma_find_track_props(s: Seq<(String, Aircraft)>, id: Seq<char>)
    ensures
        find_track(s, id) == -1 ==> forall|i: int| 0 <= i < s.len() ==> (#[trigger] s[i]).0@ != id,
        find_track(s, id) >= 0 ==> 0 <= find_track(s, id) < s.len() && s[find_track(s, id)].0@
            == id,
        find_track(s, id) >= 0 ==> forall|i: int|
            0 <= i < find_track(s, id) ==> (#[trigger] s[i]).0@ != id,
    decreases s.len(),
{
    if s.len() > 0 {
        lemma_find_track_props(s.drop_first(), id);
        if s[0].0@ != id {
            assert forall|i: int|
                0 <= i < s.len() && find_track(s, id) == -1 implies (#[trigger] s[i]).0@ != id by {
                if i > 0 {
                    assert(s.drop_first()[i - 1] == s[i]);
                }
            }
            if find_track(s, id) >= 0 {
                assert(s.drop_first()[find_track(s.drop_first(), id)] == s[find_track(s, id)]);
                assert forall|i: int|
                    0 <= i < find_track(s, id) implies (#[trigger] s[i]).0@ != id by {
                    if i > 0 {
                        assert(s.drop_first()[i - 1] == s[i]);
                    }
                }
            }
        }
    }
}

pub proof fn lemma_find_track_at(s: Seq<(String, Aircraft)>, id: Seq<char>, i: int)
    requires
        0 <= i < s.len(),
        s[i].0@ == id,
        forall|j: int| 0 <= j < i ==> (#[trigger] s[j]).0@ != id,
    ensures
        find_track(s, id) == i,
    decreases s.len(),
{
    if i == 0 {
    } else {
        assert(s[0].0@ != id);
        assert(s.drop_first()[i - 1] == s[i]);
        assert forall|j: int| 0 <= j < i - 1 implies (#[trigger] s.drop_first()[j]).0@ != id by {
            assert(s.drop_first()[j] == s[j + 1]);
        }
        lemma_find_track_at(s.drop_first(), id, i - 1);
    }
}

pub proof fn lemma_find_track_none(s: Seq<(String, Aircraft)>, id: Seq<char>)
    requires
        forall|j: int| 0 <= j < s.len() ==> (#[trigger] s[j]).0@ != id,
    ensures
        find_track(s, id) == -1,
    decreases s.len(),
{
    if s.len() > 0 {
        assert forall|j: int|
            0 <= j < s.drop_first().len() implies (#[trigger] s.drop_first()[j]).0@ != id by {
            assert(s.drop_first()[j] == s[j + 1]);
        }
        lemma_find_track_none(s.drop_first(), id);
    }
}

/// One entry of the collision map: an unordered pair stored with its ids in
/// lexicographic order, the Monte-Carlo risk in parts per thousand, and the
/// mean time to impact in milliseconds over the hitting trials.
#[derive(Clone, Debug)]
pub struct CollisionRecord {
    pub id_a: String,
    pub id_b: String,
    pub risk_permille: u32,
    pub tti_ms: Option<u64>,
}

/// Pairwise collision radius, squared (150 m).
pub const COLLISION_RANGE_SQ: i128 = 22500;

/// Squared safety margin added to the radar range when deciding track
/// interest: `(2 * max_speed * lookahead)^2` with 250 m/s and 30 s.
pub const SAFETY_BUFFER_SQ: u64 = 225_000_000;

/// Grid cell edge, meters.
pub const GRID_CELL_SIZE: i64 = 15_000;

/// Monte-Carlo trials per pair.
pub const CPA_TRIALS: u32 = 1000;

/// Base velocity noise, meters per second.
pub const NOISE_BASE: i64 = 5;

/// Largest velocity component a track may carry, meters per second.
pub const VEL_LIMIT: i64 = 10_000;

/// Largest world scale accepted, meters.
pub const SCALE_LIMIT: u64 = 1_000_000_000;

/// A position component within the interest region never exceeds this.
pub const POS_LIMIT: i64 = 300_000_000;

impl CollisionRecord {
    /// Ids in order, a risk that survived the reporting threshold, and a
    /// mean impact time within the lookahead horizon.
    pub open spec fn wf(self) -> bool {
        &&& lex_lt(self.id_a@, self.id_b@)
        &&& 10 < self.risk_permille <= 1000
        &&& self.tti_ms is Some
        &&& self.tti_ms->0 < 30_000
    }
}

/// The collision engine state.
pub struct SimManager {
    aircraft: Vec<(String, Aircraft)>,
    collisions: Vec<CollisionRecord>,
    adsb_blacklist: Vec<String>,
    spatial_grid: SpatialGrid,
    metrics: SimulationMetrics,
    scale: u64,
    radar_range_sq: u64,
}

impl SimManager {
    pub closed spec fn spec_tracks(self) -> Seq<(String, Aircraft)> {
        self.aircraft@
    }

    pub closed spec fn spec_collisions(self) -> Seq<CollisionRecord> {
        self.collisions@
    }

    pub closed spec fn spec_blacklist(self) -> Seq<Seq<char>> {
        self.adsb_blacklist.deep_view()
    }

    pub closed spec fn spec_grid(self) -> SpatialGrid {
        self.spatial_grid
    }

    pub closed spec fn spec_scale(self) -> u64 {
        self.scale
    }

    pub closed spec fn spec_radar_range_sq(self) -> u64 {
        self.radar_range_sq
    }

    pub open spec fn has_track(self, id: Seq<char>) -> bool {
        find_track(self.spec_tracks(), id) >= 0
    }

    pub open spec fn track_at(self, id: Seq<char>) -> Aircraft {
        self.spec_tracks()[find_track(self.spec_tracks(), id)].1
    }

    pub open spec fn blacklisted(self, id: Seq<char>) -> bool {
        self.spec_blacklist().contains(id)
    }

    /// A position is of interest when it lies within the radar range plus
    /// the safety buffer.
    pub open spec fn in_interest(self, p: Vector2D) -> bool {
        p.x * p.x + p.y * p.y <= self.spec_radar_range_sq() + SAFETY_BUFFER_SQ
    }

    /// A stored track: position inside the interest region (components
    /// therefore small), velocity bounded, history bounded.
    pub open spec fn track_ok(self, a: Aircraft) -> bool {
        &&& a.wf()
        &&& self.in_interest(a.position)
        &&& -POS_LIMIT <= a.position.x <= POS_LIMIT
        &&& -POS_LIMIT <= a.position.y <= POS_LIMIT
        &&& -VEL_LIMIT <= a.velocity.x <= VEL_LIMIT
        &&& -VEL_LIMIT <= a.velocity.y <= VEL_LIMIT
    }

    pub closed spec fn wf(self) -> bool {
        &&& 1 <= self.scale <= SCALE_LIMIT
        &&& self.radar_range_sq == (self.scale as int / 5) * (self.scale as int / 5)
        &&& self.spatial_grid.wf()
        &&& self.spatial_grid.spec_cell_size() == GRID_CELL_SIZE
        &&& forall|i: int, j: int|
            0 <= i < j < self.aircraft@.len() ==> (#[trigger] self.aircraft@[i]).0@ != (
            #[trigger] self.aircraft@[j]).0@
        &&& forall|i: int|
            0 <= i < self.aircraft@.len() ==> self.track_ok((#[trigger] self.aircraft@[i]).1)
        &&& forall|i: int| 0 <= i < self.collisions@.len() ==> (#[trigger] self.collisions@[i]).wf()
        &&& pairs_unique(self.collisions@)
    }

    /// The radar range squared is small enough for all derived arithmetic.
    proof fn lemma_interest_bounds(self)
        requires
            self.wf(),
        ensures
            self.spec_radar_range_sq() <= 0x8e1bc9bf040000,
            self.spec_radar_range_sq() + SAFETY_BUFFER_SQ < 0x2000_0000_0000_0000,
    {
        assert((self.scale as int / 5) <= 200_000_000);
        lemma_mul_bounds(self.scale as int / 5, self.scale as int / 5, 200_000_000);
        assert(200_000_000int * 200_000_000 == 0x8e1bc9bf040000);
        assert((self.scale as int / 5) >= 0);
        lemma_square_nonneg(self.scale as int / 5);
    }

    /// A fresh engine for a world of the given scale (meters); the radar
    /// radius is a fifth of the scale.
    pub fn new(scale: u64) -> (m: SimManager)
        requires
            1 <= scale <= SCALE_LIMIT,
        ensures
            m.wf(),
            m.spec_scale() == scale,
            m.spec_tracks().len() == 0,
            m.spec_collisions().len() == 0,
            m.spec_blacklist().len() == 0,
            m.spec_radar_range_sq() == (scale as int / 5) * (scale as int / 5),
            m.spec_pairs_checked() == 0,
    {
        let radius = scale / 5;
        proof {
            lemma_mul_bounds(radius as int, radius as int, 200_000_000);
            lemma_square_nonneg(radius as int);
        }
        let m = SimManager {
            aircraft: Vec::new(),
            collisions: Vec::new(),
            adsb_blacklist: Vec::new(),
            spatial_grid: SpatialGrid::new(GRID_CELL_SIZE),
            metrics: SimulationMetrics::new(),
            scale,
            radar_range_sq: radius * radius,
        };
        proof {
            assert(m.spec_blacklist() =~= Seq::<Seq<char>>::empty());
        }
        m
    }

    /// Number of pairs evaluated by the last collision sweep.
    pub closed spec fn spec_pairs_checked(self) -> u64 {
        self.metrics.pairs_checked
    }

    pub fn pairs_checked(&self) -> (n: u64)
        ensures
            n == self.spec_pairs_checked(),
    {
        self.metrics.pairs_checked
    }

    /// The number of live tracks.
    pub fn track_count(&self) -> (n: usize)
        ensures
            n == self.spec_tracks().len(),
    {
        self.aircraft.len()
    }

    /// Whether an id currently has a live track.
    pub fn contains_track(&self, id: &String) -> (r: bool)
        requires
            self.wf(),
        ensures
            r == self.has_track(id@),
    {
        let n = self.aircraft.len();
        for i in 0..n
            invariant
                n == self.aircraft@.len(),
                forall|j: int| 0 <= j < i ==> (#[trigger] self.aircraft@[j]).0@ != id@,
        {
            if self.aircraft[i].0 == *id {
                proof {
                    lemma_find_track_at(self.spec_tracks(), id@, i as int);
                }
                return true;
            }
        }
        proof {
            lemma_find_track_none(self.spec_tracks(), id@);
        }
        false
    }

    /// Whether an id is on the blacklist.
    pub fn is_blacklisted(&self, id: &String) -> (r: bool)
        ensures
            r == self.blacklisted(id@),
    {
        let n = self.adsb_blacklist.len();
        for i in 0..n
            invariant
                n == self.adsb_blacklist@.len(),
                forall|j: int| 0 <= j < i ==> self.spec_blacklist()[j] != id@,
        {
            proof {
                assert(self.spec_blacklist()[i as int] == self.adsb_blacklist@[i as int]@);
            }
            if self.adsb_blacklist[i] == *id {
                proof {
                    assert(self.spec_blacklist().contains(id@));
                }
                return true;
            }
        }
        proof {
            if self.spec_blacklist().contains(id@) {
                let w = choose|w: int|
                    0 <= w < self.spec_blacklist().len() && self.spec_blacklist()[w] == id@;
            }
        }
        false
    }

    /// The current collision records.
    pub fn collision_records(&self) -> (r: &Vec<CollisionRecord>)
        ensures
            r@ == self.spec_collisions(),
    {
        &self.collisions
    }

    /// The track stored for an id, if any.
    pub fn get_track(&self, id: &String) -> (r: Option<&Aircraft>)
        requires
            self.wf(),
        ensures
            match r {
                Some(a) => self.has_track(id@) && *a == self.track_at(id@),
                None => !self.has_track(id@),
            },
    {
        let n = self.aircraft.len();
        for i in 0..n
            invariant
                n == self.aircraft@.len(),
                forall|j: int| 0 <= j < i ==> (#[trigger] self.aircraft@[j]).0@ != id@,
        {
            if self.aircraft[i].0 == *id {
                proof {
                    lemma_find_track_at(self.spec_tracks(), id@, i as int);
                }
                return Some(&self.aircraft[i].1);
            }
        }
        proof {
            lemma_find_track_none(self.spec_tracks(), id@);
        }
        None
    }

    /// Monte-Carlo closest-point-of-approach risk between two linearly
    /// extrapolated tracks.  A pair already within the collision radius is a
    /// certain, immediate conflict.  Otherwise each of the 1000 trials
    /// perturbs both velocities with uniform noise (widened by the estimated
    /// encounter time) and counts a hit when the closest approach within the
    /// 30 s horizon falls under the collision radius.  The risk is the hit
    /// count in parts per thousand; the time to impact is the mean hit time
    /// in milliseconds.
    pub fn calculate_risk(p1: Vector2D, v1: Vector2D, p2: Vector2D, v2: Vector2D) -> (r: (
        u32,
        Option<u64>,
    ))
        requires
            -POS_LIMIT <= p1.x <= POS_LIMIT,
            -POS_LIMIT <= p1.y <= POS_LIMIT,
            -POS_LIMIT <= p2.x <= POS_LIMIT,
            -POS_LIMIT <= p2.y <= POS_LIMIT,
            -VEL_LIMIT <= v1.x <= VEL_LIMIT,
            -VEL_LIMIT <= v1.y <= VEL_LIMIT,
            -VEL_LIMIT <= v2.x <= VEL_LIMIT,
            -VEL_LIMIT <= v2.y <= VEL_LIMIT,
        ensures
            r.0 <= 1000,
            r.1 is Some <==> r.0 > 0,
            r.1 is Some ==> r.1->0 < 30_000,
            p1.spec_sub(p2).spec_length_sq() <= COLLISION_RANGE_SQ ==> r == (
                1000u32,
                Some(0u64),
            ),
            v1 == v2 && p1.spec_sub(p2).spec_length_sq() > 405_000 ==> r == (
                0u32,
                None::<u64>,
            ),
            head_on_geometry(p1, v1, p2, v2) ==> {
                &&& r.0 == 1000
                &&& r.1 is Some
                &&& head_on_tti_lo(p1, v1, p2, v2) <= r.1->0 <= head_on_tti_hi(p1, v1, p2, v2)
            },
    {
        let dp = p1.sub(p2);
        let dsq: i128 = dp.length_sq();
        if dsq <= COLLISION_RANGE_SQ {
            return (1000, Some(0));
        }
        // estimated encounter time from the noise-free relative velocity,
        // clamped to the horizon; it enters the scaling negated, so the
        // widening term never exceeds the base magnitude and the trials
        // perturb with the base noise
        let dv0 = v1.sub(v2);
        let dv0sq: i128 = dv0.length_sq();
        let that: i64 = if dv0sq == 0 {
            0
        } else {
            let dprod: i128 = dp.dot(dv0);
            proof {
                lemma_mul_bounds(dp.x as int, dv0.x as int, 600_000_000);
                lemma_mul_bounds(dp.y as int, dv0.y as int, 600_000_000);
                lemma_div_bounds(dprod as int, dv0sq as int);
            }
            let q: i128 = match dprod.checked_div_euclid(dv0sq) {
                Some(v) => v,
                None => 0,
            };
            if q < 0 {
                0
            } else if q > 30 {
                30
            } else {
                q as i64
            }
        };
        let t_cpa: i64 = -that;
        let widened: i64 = match (NOISE_BASE * t_cpa).checked_div_euclid(2) {
            Some(v) => NOISE_BASE + v,
            None => NOISE_BASE,
        };
        let sigma: i64 = if widened < NOISE_BASE {
            NOISE_BASE
        } else {
            widened
        };
        proof {
            lemma_div_bounds((NOISE_BASE * t_cpa) as int, 2);
            assert(sigma == 5);
        }
        let ghost parallel_far = v1 == v2 && p1.spec_sub(p2).spec_length_sq() > 405_000;
        let ghost sure = head_on_geometry(p1, v1, p2, v2);
        let ghost sure_lo = head_on_tti_lo(p1, v1, p2, v2);
        let ghost sure_hi = head_on_tti_hi(p1, v1, p2, v2);
        proof {
            if sure {
                let g = vstd::math::abs(dp.x as int) as int;
                let a = vstd::math::abs(dv0.x as int) as int;
                assert(1000 * g * (a + 10) >= 0 && (a + 10) * (a + 10) + 100 > 0)
                    by (nonlinear_arith)
                    requires
                        g >= 0,
                        a >= 40,
                ;
                vstd::arithmetic::div_mod::lemma_div_pos_is_pos(
                    1000 * g * (a + 10),
                    (a + 10) * (a + 10) + 100,
                );
            }
        }
        let mut hits: u32 = 0;
        let mut total_ms: u64 = 0;
        for i in 0..CPA_TRIALS
            invariant
                hits <= i,
                total_ms <= 29_999 * hits,
                5 <= sigma <= 80,
                sigma == 5,
                parallel_far == (v1 == v2 && p1.spec_sub(p2).spec_length_sq() > 405_000),
                parallel_far ==> hits == 0,
                sure == head_on_geometry(p1, v1, p2, v2),
                sure_lo == head_on_tti_lo(p1, v1, p2, v2),
                sure_hi == head_on_tti_hi(p1, v1, p2, v2),
                sure ==> sure_lo >= 0,
                sure ==> hits == i,
                sure ==> sure_lo * hits <= total_ms <= sure_hi * hits,
                dv0 == v1.spec_sub(v2),
                dp == p1.spec_sub(p2),
                dsq == dp.spec_length_sq(),
                dsq > COLLISION_RANGE_SQ,
                -600_000_000 <= dp.x <= 600_000_000,
                -600_000_000 <= dp.y <= 600_000_000,
                -VEL_LIMIT <= v1.x <= VEL_LIMIT,
                -VEL_LIMIT <= v1.y <= VEL_LIMIT,
                -VEL_LIMIT <= v2.x <= VEL_LIMIT,
                -VEL_LIMIT <= v2.y <= VEL_LIMIT,
        {
            let v1n = v1.add_noise(sigma);
            let v2n = v2.add_noise(sigma);
            let dv = v1n.sub(v2n);
            let dvsq: i128 = dv.length_sq();
            proof {
                if sure {
                    assert(dp.y == 0 && dv0.y == 0);
                    assert(dv0.x - 10 <= dv.x <= dv0.x + 10);
                    assert(-10 <= dv.y <= 10);
                    lemma_head_on_trial(
                        dp.x as int,
                        dv0.x as int,
                        dv.x as int,
                        dv.y as int,
                        -((dp.x as int) * (dv.x as int)),
                        (dv.x as int) * (dv.x as int) + (dv.y as int) * (dv.y as int),
                    );
                    assert(dvsq == (dv.x as int) * (dv.x as int) + (dv.y as int) * (dv.y as int));
                    assert(dvsq >= 900);
                }
            }
            if dvsq > 0 {
                let pdots: i128 = dp.dot(dv);
                proof {
                    lemma_mul_bounds(dv.x as int, dv.x as int, 21_000);
                    lemma_mul_bounds(dv.y as int, dv.y as int, 21_000);
                    lemma_mul_bounds(dp.x as int, dv.x as int, 600_000_000);
                    lemma_mul_bounds(dp.y as int, dv.y as int, 600_000_000);
                }
                let tn: i128 = -pdots;
                let td: i128 = dvsq;
                proof {
                    if sure {
                        assert((dp.y as int) * (dv.y as int) == 0) by (nonlinear_arith)
                            requires
                                dp.y == 0,
                        ;
                        assert(pdots == (dp.x as int) * (dv.x as int));
                    }
                }
                if tn > 0 && tn < 30 * td {
                    proof {
                        lemma_cpa_trial_bounds(
                            dp.x as int,
                            dp.y as int,
                            dv.x as int,
                            dv.y as int,
                            tn as int,
                            td as int,
                        );
                    }
                    proof {
                        lemma_mul_bounds(dp.x as int, td as int, 900_000_000);
                        lemma_mul_bounds(dp.y as int, td as int, 900_000_000);
                        lemma_mul_bounds(dv.x as int, tn as int, 27_000_000_000);
                        lemma_mul_bounds(dv.y as int, tn as int, 27_000_000_000);
                    }
                    let cx: i128 = (dp.x as i128) * td + (dv.x as i128) * tn;
                    let cy: i128 = (dp.y as i128) * td + (dv.y as i128) * tn;
                    proof {
                        lemma_mul_bounds(cx as int, cx as int, 1_000_000_000_000_000_000);
                        lemma_mul_bounds(cy as int, cy as int, 1_000_000_000_000_000_000);
                        lemma_square_nonneg(cx as int);
                        lemma_square_nonneg(cy as int);
                        lemma_mul_bounds(td as int, td as int, 900_000_000);
                        lemma_square_nonneg(td as int);
                        if sure {
                            assert((dp.y as int) * (td as int) == 0) by (nonlinear_arith)
                                requires
                                    dp.y == 0,
                            ;
                            assert(cy == (dv.y as int) * (tn as int));
                        }
                    }
                    if cx * cx + cy * cy < COLLISION_RANGE_SQ * (td * td) {
                        proof {
                            if parallel_far {
                                lemma_far_parallel_no_hit(
                                    dp.x as int,
                                    dp.y as int,
                                    dv.x as int,
                                    dv.y as int,
                                    tn as int,
                                    td as int,
                                );
                                assert(22801 * ((td * td) as int) > 22500 * ((td * td) as int))
                                    by (nonlinear_arith)
                                    requires
                                        td >= 1,
                                ;
                                assert(false);
                            }
                            lemma_div_bounds((tn * 1000) as int, td as int);
                            vstd::arithmetic::div_mod::lemma_fundamental_div_mod_converse_div(
                                30_000 * (td as int) - 1,
                                td as int,
                                29_999,
                                td as int - 1,
                            );
                            vstd::arithmetic::div_mod::lemma_div_is_ordered(
                                (tn * 1000) as int,
                                30_000 * (td as int) - 1,
                                td as int,
                            );
                        }
                        hits = hits + 1;
                        let tms: i128 = match (tn * 1000).checked_div_euclid(td) {
                            Some(v) => v,
                            None => 0,
                        };
                        proof {
                            if sure {
                                let g = vstd::math::abs(dp.x as int) as int;
                                let a = vstd::math::abs(dv0.x as int) as int;
                                lemma_div_cross(
                                    (tn as int) * 1000,
                                    td as int,
                                    1000 * g,
                                    a - 10,
                                );
                                lemma_div_cross(
                                    1000 * g * (a + 10),
                                    (a + 10) * (a + 10) + 100,
                                    (tn as int) * 1000,
                                    td as int,
                                );
                                assert(sure_lo <= tms <= sure_hi);
                                assert(sure_lo * (hits as int) == sure_lo * (hits as int - 1)
                                    + sure_lo) by (nonlinear_arith);
                                assert(sure_hi * (hits as int) == sure_hi * (hits as int - 1)
                                    + sure_hi) by (nonlinear_arith);
                            }
                        }
                        total_ms = total_ms + (tms as u64);
                    }
                }
            }
        }
        if hits > 0 {
            proof {
                vstd::arithmetic::div_mod::lemma_fundamental_div_mod_converse_div(
                    29_999 * (hits as int),
                    hits as int,
                    29_999,
                    0,
                );
                vstd::arithmetic::div_mod::lemma_div_is_ordered(
                    total_ms as int,
                    29_999 * (hits as int),
                    hits as int,
                );
                vstd::arithmetic::div_mod::lemma_div_pos_is_pos(total_ms as int, hits as int);
                if sure {
                    vstd::arithmetic::div_mod::lemma_fundamental_div_mod_converse_div(
                        sure_hi * (hits as int),
                        hits as int,
                        sure_hi,
                        0,
                    );
                    vstd::arithmetic::div_mod::lemma_div_is_ordered(
                        total_ms as int,
                        sure_hi * (hits as int),
                        hits as int,
                    );
                    vstd::arithmetic::div_mod::lemma_fundamental_div_mod_converse_div(
                        sure_lo * (hits as int),
                        hits as int,
                        sure_lo,
                        0,
                    );
                    vstd::arithmetic::div_mod::lemma_div_is_ordered(
                        sure_lo * (hits as int),
                        total_ms as int,
                        hits as int,
                    );
                }
            }
            (hits, Some(total_ms / (hits as u64)))
        } else {
            (hits, None)
        }
    }

    /// Every live track id sits in exactly one grid bucket: the cell of its
    /// current position, once.
    pub open spec fn grid_fresh(self) -> bool {
        forall|i: int|
            0 <= i < self.spec_tracks().len() ==> {
                let id = (#[trigger] self.spec_tracks()[i]).0@;
                let cell = self.spec_grid().spec_cell_of(self.spec_tracks()[i].1.position);
                &&& occurrences(self.spec_grid().spec_bucket(cell), id) == 1
                &&& forall|c: GridCoord|
                    c != cell ==> !(#[trigger] self.spec_grid().spec_bucket(c)).contains(id)
            }
    }

    /// Clears the index and re-inserts every live track at its current
    /// position.
    fn rebuild_grid(&mut self)
        requires
            old(self).wf(),
        ensures
            final(self).wf(),
            final(self).spec_tracks() == old(self).spec_tracks(),
            final(self).spec_collisions() == old(self).spec_collisions(),
            final(self).spec_blacklist() == old(self).spec_blacklist(),
            final(self).spec_scale() == old(self).spec_scale(),
            final(self).spec_radar_range_sq() == old(self).spec_radar_range_sq(),
            final(self).spec_pairs_checked() == old(self).spec_pairs_checked(),
            final(self).spec_grid().spec_cell_size() == old(self).spec_grid().spec_cell_size(),
            final(self).grid_fresh(),
    {
        self.spatial_grid.clear();
        let n = self.aircraft.len();
        proof {
            assert forall|k: int, c: GridCoord|
                0 <= k < n implies !(#[trigger] self.spec_grid().spec_bucket(c)).contains(
                #[trigger] self.spec_tracks()[k].0@,
            ) by {
                assert(self.spec_grid().spec_bucket(c) =~= Seq::<Seq<char>>::empty());
            }
        }
        for i in 0..n
            invariant
                old(self).wf(),
                n == self.aircraft@.len(),
                self.aircraft@ == old(self).aircraft@,
                self.collisions@ == old(self).collisions@,
                self.adsb_blacklist@ == old(self).adsb_blacklist@,
                self.scale == old(self).scale,
                self.radar_range_sq == old(self).radar_range_sq,
                self.metrics.pairs_checked == old(self).metrics.pairs_checked,
                self.spatial_grid.wf(),
                self.spatial_grid.spec_cell_size() == GRID_CELL_SIZE,
                forall|k: int|
                    0 <= k < i ==> {
                        let id = (#[trigger] self.spec_tracks()[k]).0@;
                        let cell = self.spec_grid().spec_cell_of(self.spec_tracks()[k].1.position);
                        &&& occurrences(self.spec_grid().spec_bucket(cell), id) == 1
                        &&& forall|c: GridCoord|
                            c != cell ==> !(#[trigger] self.spec_grid().spec_bucket(c)).contains(
                                id,
                            )
                    },
                forall|k: int, c: GridCoord|
                    i <= k < n ==> !(#[trigger] self.spec_grid().spec_bucket(c)).contains(
                        #[trigger] self.spec_tracks()[k].0@,
                    ),
        {
            let id = self.aircraft[i].0.clone();
            let pos = self.aircraft[i].1.position;
            let ghost pre_self = *self;
            let ghost pre_grid = self.spatial_grid;
            let ghost me = self.spec_tracks()[i as int].0@;
            let ghost cell = pre_grid.spec_cell_of(pos);
            proof {
                assert(pre_self.spec_grid() == pre_grid);
                assert(!(pre_self.spec_grid().spec_bucket(cell)).contains(
                    pre_self.spec_tracks()[i as int].0@,
                ));
            }
            self.spatial_grid.insert(id, pos);
            proof {
                let g = self.spec_grid();
                assert(g.spec_bucket(cell) == pre_grid.spec_bucket(cell).push(me));
                lemma_occ_push(pre_grid.spec_bucket(cell), me, me);
                lemma_occ_contains(pre_grid.spec_bucket(cell), me);
                assert(occurrences(g.spec_bucket(cell), me) == 1);
                assert forall|k: int| 0 <= k < i + 1 implies {
                    let id2 = (#[trigger] self.spec_tracks()[k]).0@;
                    let cell2 = g.spec_cell_of(self.spec_tracks()[k].1.position);
                    &&& occurrences(g.spec_bucket(cell2), id2) == 1
                    &&& forall|c: GridCoord|
                        c != cell2 ==> !(#[trigger] g.spec_bucket(c)).contains(id2)
                } by {
                    let id2 = self.spec_tracks()[k].0@;
                    let cell2 = g.spec_cell_of(self.spec_tracks()[k].1.position);
                    assert(cell2 == pre_grid.spec_cell_of(self.spec_tracks()[k].1.position));
                    if k == i {
                        assert forall|c: GridCoord|
                            c != cell2 implies !(#[trigger] g.spec_bucket(c)).contains(id2) by {
                            assert(!(pre_self.spec_grid().spec_bucket(c)).contains(
                                pre_self.spec_tracks()[i as int].0@,
                            ));
                            assert(g.spec_bucket(c) == pre_grid.spec_bucket(c));
                        }
                    } else {
                        assert((old(self).aircraft@[k]).0@ != (old(self).aircraft@[i as int]).0@);
                        assert(id2 != me);
                        assert(occurrences(pre_self.spec_grid().spec_bucket(
                            pre_self.spec_grid().spec_cell_of(
                                pre_self.spec_tracks()[k].1.position,
                            ),
                        ), (pre_self.spec_tracks()[k]).0@) == 1);
                        if cell2 == cell {
                            lemma_occ_push(pre_grid.spec_bucket(cell), id2, me);
                        } else {
                            assert(g.spec_bucket(cell2) == pre_grid.spec_bucket(cell2));
                        }
                        assert(occurrences(g.spec_bucket(cell2), id2) == 1);
                        assert forall|c: GridCoord|
                            c != cell2 implies !(#[trigger] g.spec_bucket(c)).contains(id2) by {
                            assert(!(pre_self.spec_grid().spec_bucket(c)).contains(
                                (pre_self.spec_tracks()[k]).0@,
                            ));
                            if c == cell {
                                lemma_occ_push(pre_grid.spec_bucket(cell), id2, me);
                                lemma_occ_contains(pre_grid.spec_bucket(cell), id2);
                                lemma_occ_contains(g.spec_bucket(cell), id2);
                            } else {
                                assert(g.spec_bucket(c) == pre_grid.spec_bucket(c));
                            }
                        }
                    }
                }
                assert forall|k: int, c: GridCoord|
                    i + 1 <= k < n implies !(#[trigger] g.spec_bucket(c)).contains(
                    #[trigger] self.spec_tracks()[k].0@,
                ) by {
                    let id2 = self.spec_tracks()[k].0@;
                    assert((old(self).aircraft@[i as int]).0@ != (old(self).aircraft@[k]).0@);
                    assert(id2 != me);
                    assert(!(pre_self.spec_grid().spec_bucket(c)).contains(
                        (pre_self.spec_tracks()[k]).0@,
                    ));
                    if c == cell {
                        lemma_occ_push(pre_grid.spec_bucket(cell), id2, me);
                        lemma_occ_contains(pre_grid.spec_bucket(cell), id2);
                        lemma_occ_contains(g.spec_bucket(cell), id2);
                    } else {
                        assert(g.spec_bucket(c) == pre_grid.spec_bucket(c));
                    }
                }
            }
        }
    }

    /// Both endpoints of the record are live tracks at equal altitude.
    pub open spec fn rec_consistent(self, rec: CollisionRecord) -> bool {
        &&& self.has_track(rec.id_a@)
        &&& self.has_track(rec.id_b@)
        &&& self.track_at(rec.id_a@).altitude == self.track_at(rec.id_b@).altitude
    }

    /// The record's endpoints currently sit closer than the collision
    /// radius.
    pub open spec fn rec_close(self, rec: CollisionRecord) -> bool {
        (self.track_at(rec.id_a@).position.spec_sub(
            self.track_at(rec.id_b@).position,
        )).spec_length_sq() < COLLISION_RANGE_SQ
    }

    /// An ordered pair of tracks that `check_collisions` must report as a
    /// certain conflict: in lexicographic order, the first one inside the
    /// radar range, equal altitude, within the collision radius.
    pub open spec fn eligible_close(self, i: int, j: int) -> bool {
        &&& 0 <= i < self.spec_tracks().len()
        &&& 0 <= j < self.spec_tracks().len()
        &&& lex_lt(self.spec_tracks()[i].0@, self.spec_tracks()[j].0@)
        &&& self.spec_tracks()[i].1.position.spec_length_sq() <= self.spec_radar_range_sq()
        &&& self.spec_tracks()[i].1.altitude == self.spec_tracks()[j].1.altitude
        &&& (self.spec_tracks()[i].1.position.spec_sub(
            self.spec_tracks()[j].1.position,
        )).spec_length_sq() <= COLLISION_RANGE_SQ
    }

    /// An ordered pair of tracks whose conflict outcome is certain whatever
    /// the noise draws: in lexicographic order, the first inside the radar
    /// range, equal altitude, within one grid cell edge on each axis, and
    /// either already within the collision radius or in a head-on encounter
    /// that every trial hits.
    pub open spec fn sure_pair(self, i: int, j: int) -> bool {
        &&& 0 <= i < self.spec_tracks().len()
        &&& 0 <= j < self.spec_tracks().len()
        &&& lex_lt(self.spec_tracks()[i].0@, self.spec_tracks()[j].0@)
        &&& self.spec_tracks()[i].1.position.spec_length_sq() <= self.spec_radar_range_sq()
        &&& self.spec_tracks()[i].1.altitude == self.spec_tracks()[j].1.altitude
        &&& vstd::math::abs((self.spec_tracks()[i].1.position.spec_sub(
            self.spec_tracks()[j].1.position,
        )).x as int) < GRID_CELL_SIZE
        &&& vstd::math::abs((self.spec_tracks()[i].1.position.spec_sub(
            self.spec_tracks()[j].1.position,
        )).y as int) < GRID_CELL_SIZE
        &&& ((self.spec_tracks()[i].1.position.spec_sub(
            self.spec_tracks()[j].1.position,
        )).spec_length_sq() <= COLLISION_RANGE_SQ || head_on_geometry(
            self.spec_tracks()[i].1.position,
            self.spec_tracks()[i].1.velocity,
            self.spec_tracks()[j].1.position,
            self.spec_tracks()[j].1.velocity,
        ))
    }

    /// Lower bound on the recorded impact time of a certain pair.
    pub open spec fn sure_tti_lo(self, i: int, j: int) -> int {
        if (self.spec_tracks()[i].1.position.spec_sub(
            self.spec_tracks()[j].1.position,
        )).spec_length_sq() <= COLLISION_RANGE_SQ {
            0
        } else {
            head_on_tti_lo(
                self.spec_tracks()[i].1.position,
                self.spec_tracks()[i].1.velocity,
                self.spec_tracks()[j].1.position,
                self.spec_tracks()[j].1.velocity,
            )
        }
    }

    /// Upper bound on the recorded impact time of a certain pair.
    pub open spec fn sure_tti_hi(self, i: int, j: int) -> int {
        if (self.spec_tracks()[i].1.position.spec_sub(
            self.spec_tracks()[j].1.position,
        )).spec_length_sq() <= COLLISION_RANGE_SQ {
            0
        } else {
            head_on_tti_hi(
                self.spec_tracks()[i].1.position,
                self.spec_tracks()[i].1.velocity,
                self.spec_tracks()[j].1.position,
                self.spec_tracks()[j].1.velocity,
            )
        }
    }

    /// A close pair is a certain pair with a pinned zero impact time.
    proof fn lemma_close_is_sure(self, i: int, j: int)
        requires
            self.wf(),
            self.eligible_close(i, j),
        ensures
            self.sure_pair(i, j),
            self.sure_tti_lo(i, j) == 0,
            self.sure_tti_hi(i, j) == 0,
    {
        let dp = self.spec_tracks()[i].1.position.spec_sub(self.spec_tracks()[j].1.position);
        lemma_square_nonneg(dp.x as int);
        lemma_square_nonneg(dp.y as int);
        if dp.x < -150 || dp.x > 150 {
            lemma_abs_square_larger(dp.x as int, 150);
            assert(false);
        }
        if dp.y < -150 || dp.y > 150 {
            lemma_abs_square_larger(dp.y as int, 150);
            assert(false);
        }
    }

    /// Every recorded pair so far is keyed by the id of an already-visited
    /// track.
    pub open spec fn first_ids_before(self, out: Seq<CollisionRecord>, i: int) -> bool {
        forall|k: int|
            0 <= k < out.len() ==> exists|i2: int|
                0 <= i2 < i && (#[trigger] out[k]).id_a@ == self.spec_tracks()[i2].0@
    }

    /// Any record keyed by track `i` whose pair is a certain pair carries
    /// full risk and an impact time inside the certain bounds.
    pub open spec fn det_values_for(self, out: Seq<CollisionRecord>, i: int) -> bool {
        forall|k: int, j2: int|
            #![trigger out[k], self.spec_tracks()[j2]]
            0 <= k < out.len() && self.sure_pair(i, j2) && out[k].id_a@
                == self.spec_tracks()[i].0@ && out[k].id_b@ == self.spec_tracks()[j2].0@
                ==> out[k].risk_permille == 1000 && out[k].tti_ms is Some && self.sure_tti_lo(
                i,
                j2,
            ) <= out[k].tti_ms->0 <= self.sure_tti_hi(i, j2)
    }

    /// A track within one cell edge of track `i` on each axis shows up
    /// among the grid neighbors of track `i`: it sits in the 3-by-3 block.
    proof fn lemma_close_in_nearby(self, i: int, j: int)
        requires
            self.wf(),
            self.grid_fresh(),
            0 <= i < self.spec_tracks().len(),
            0 <= j < self.spec_tracks().len(),
            self.spec_tracks()[i].0@ != self.spec_tracks()[j].0@,
            vstd::math::abs((self.spec_tracks()[i].1.position.spec_sub(
                self.spec_tracks()[j].1.position,
            )).x as int) < GRID_CELL_SIZE,
            vstd::math::abs((self.spec_tracks()[i].1.position.spec_sub(
                self.spec_tracks()[j].1.position,
            )).y as int) < GRID_CELL_SIZE,
        ensures
            self.spec_grid().spec_nearby(
                self.spec_tracks()[i].0@,
                self.spec_tracks()[i].1.position,
            ).contains(self.spec_tracks()[j].0@),
    {
        let g = self.spec_grid();
        let pi = self.spec_tracks()[i].1.position;
        let pj = self.spec_tracks()[j].1.position;
        let idi = self.spec_tracks()[i].0@;
        let idj = self.spec_tracks()[j].0@;
        lemma_cell_close(pi.x as int, pj.x as int, GRID_CELL_SIZE as int);
        lemma_cell_close(pi.y as int, pj.y as int, GRID_CELL_SIZE as int);
        let ci = g.spec_cell_of(pi);
        let cj = g.spec_cell_of(pj);
        lemma_div_bounds(pi.x as int, GRID_CELL_SIZE as int);
        lemma_div_bounds(pi.y as int, GRID_CELL_SIZE as int);
        lemma_div_bounds(pj.x as int, GRID_CELL_SIZE as int);
        lemma_div_bounds(pj.y as int, GRID_CELL_SIZE as int);
        let a = cj.x - ci.x + 1;
        let b = cj.y - ci.y + 1;
        assert(0 <= a <= 2 && 0 <= b <= 2);
        let nn = a * 3 + b;
        vstd::arithmetic::div_mod::lemma_fundamental_div_mod_converse_div(nn, 3, a, b);
        vstd::arithmetic::div_mod::lemma_fundamental_div_mod_converse_mod(nn, 3, a, b);
        assert(nn / 3 == a && nn % 3 == b);
        assert(nearby_cell(ci, nn) == cj);
        // the partner id sits once in its own cell's bucket
        assert(occurrences(g.spec_bucket(cj), idj) == 1);
        lemma_occ_contains(g.spec_bucket(cj), idj);
        lemma_remove_id_membership(g.spec_bucket(cj), idi);
        assert(remove_id(g.spec_bucket(cj), idi).contains(idj));
        lemma_nearby_prefix_contains(g, idi, ci, nn, 9, idj);
    }

    /// Rebuilds the spatial index from the live tracks, evaluates the
    /// closest-point-of-approach risk of every neighboring pair (smaller id
    /// first, outer track inside the radar range, equal altitude), and
    /// replaces the collision map with the pairs whose risk exceeded one
    /// percent.  Both members of every pair recorded at sub-collision-radius
    /// separation join the blacklist.
    #[verifier::rlimit(40)]
    pub fn check_collisions(&mut self)
        requires
            old(self).wf(),
        ensures
            final(self).wf(),
            final(self).spec_tracks() == old(self).spec_tracks(),
            final(self).spec_scale() == old(self).spec_scale(),
            final(self).spec_radar_range_sq() == old(self).spec_radar_range_sq(),
            final(self).grid_fresh(),
            pairs_unique(final(self).spec_collisions()),
            forall|k: int|
                0 <= k < final(self).spec_collisions().len() ==> final(self).rec_consistent(
                    #[trigger] final(self).spec_collisions()[k],
                ),
            forall|k: int|
                0 <= k < final(self).spec_collisions().len() ==> {
                    let rec = #[trigger] final(self).spec_collisions()[k];
                    &&& lex_lt(rec.id_a@, rec.id_b@)
                    &&& 10 < rec.risk_permille <= 1000
                    &&& rec.tti_ms is Some
                    &&& rec.tti_ms->0 < 30_000
                },
            forall|k: int|
                0 <= k < final(self).spec_collisions().len() ==> final(self).track_at(
                    (#[trigger] final(self).spec_collisions()[k]).id_a@,
                ).position.spec_length_sq() <= final(self).spec_radar_range_sq(),
            forall|k: int|
                0 <= k < final(self).spec_collisions().len() && final(self).rec_close(
                    #[trigger] final(self).spec_collisions()[k],
                ) ==> final(self).blacklisted(final(self).spec_collisions()[k].id_a@) && final(
                self).blacklisted(final(self).spec_collisions()[k].id_b@),
            forall|i: int, j: int|
                final(self).sure_pair(i, j) ==> pair_recorded_range(
                    final(self).spec_collisions(),
                    final(self).spec_tracks()[i].0@,
                    final(self).spec_tracks()[j].0@,
                    final(self).sure_tti_lo(i, j),
                    final(self).sure_tti_hi(i, j),
                ),
            forall|i: int, j: int|
                final(self).eligible_close(i, j) ==> pair_recorded(
                    final(self).spec_collisions(),
                    final(self).spec_tracks()[i].0@,
                    final(self).spec_tracks()[j].0@,
                    1000,
                    Some(0u64),
                ),
            forall|x: Seq<char>|
                old(self).blacklisted(x) ==> #[trigger] final(self).blacklisted(x),
            forall|x: Seq<char>|
                #[trigger] final(self).blacklisted(x) ==> old(self).blacklisted(x) || exists|
                    k: int,
                |
                    0 <= k < final(self).spec_collisions().len() && final(self).rec_close(
                        #[trigger] final(self).spec_collisions()[k],
                    ) && (final(self).spec_collisions()[k].id_a@ == x || final(
                    self).spec_collisions()[k].id_b@ == x),
    {
        self.rebuild_grid();
        let ghost base = *self;
        let mut out: Vec<CollisionRecord> = Vec::new();
        let mut pairs: u64 = 0;
        let n = self.aircraft.len();
        for i in 0..n
            invariant
                base.wf(),
                base.grid_fresh(),
                n == base.spec_tracks().len(),
                self.aircraft@ == base.spec_tracks(),
                self.spatial_grid == base.spec_grid(),
                self.collisions@ == base.spec_collisions(),
                self.scale == base.spec_scale(),
                self.radar_range_sq == base.spec_radar_range_sq(),
                pairs_unique(out@),
                forall|k: int| 0 <= k < out@.len() ==> (#[trigger] out@[k]).wf(),
                forall|k: int| 0 <= k < out@.len() ==> base.rec_consistent(#[trigger] out@[k]),
                forall|k: int|
                    0 <= k < out@.len() ==> base.track_at(
                        (#[trigger] out@[k]).id_a@,
                    ).position.spec_length_sq() <= base.spec_radar_range_sq(),
                base.first_ids_before(out@, i as int),
                forall|k: int|
                    0 <= k < out@.len() && base.rec_close(#[trigger] out@[k]) ==> self.blacklisted(
                        out@[k].id_a@,
                    ) && self.blacklisted(out@[k].id_b@),
                forall|x: Seq<char>| base.blacklisted(x) ==> #[trigger] self.blacklisted(x),
                forall|x: Seq<char>|
                    #[trigger] self.blacklisted(x) ==> base.blacklisted(x) || exists|k: int|
                        0 <= k < out@.len() && base.rec_close(#[trigger] out@[k]) && (
                        out@[k].id_a@ == x || out@[k].id_b@ == x),
                forall|i2: int, j2: int|
                    i2 < i && base.sure_pair(i2, j2) ==> pair_recorded_range(
                        out@,
                        base.spec_tracks()[i2].0@,
                        base.spec_tracks()[j2].0@,
                        base.sure_tti_lo(i2, j2),
                        base.sure_tti_hi(i2, j2),
                    ),
        {
            let id_a = self.aircraft[i].0.clone();
            let pos_a = self.aircraft[i].1.position;
            let vel_a = self.aircraft[i].1.velocity;
            let alt_a = self.aircraft[i].1.altitude;
            proof {
                assert(base.track_ok(base.spec_tracks()[i as int].1));
            }
            let in_range = pos_a.length_sq() <= self.radar_range_sq as i128;
            if in_range {
                let nearby = self.spatial_grid.get_nearby_ids(&id_a, pos_a);
                let m = nearby.len();
                for jj in 0..m
                    invariant
                        base.wf(),
                        base.grid_fresh(),
                        n == base.spec_tracks().len(),
                        0 <= i < n,
                        self.aircraft@ == base.spec_tracks(),
                        self.spatial_grid == base.spec_grid(),
                        self.collisions@ == base.spec_collisions(),
                        self.scale == base.spec_scale(),
                        self.radar_range_sq == base.spec_radar_range_sq(),
                        id_a@ == base.spec_tracks()[i as int].0@,
                        pos_a == base.spec_tracks()[i as int].1.position,
                        vel_a == base.spec_tracks()[i as int].1.velocity,
                        alt_a == base.spec_tracks()[i as int].1.altitude,
                        pos_a.spec_length_sq() <= base.spec_radar_range_sq(),
                        m == nearby@.len(),
                        nearby.deep_view() == base.spec_grid().spec_nearby(id_a@, pos_a),
                        pairs_unique(out@),
                        forall|k: int| 0 <= k < out@.len() ==> (#[trigger] out@[k]).wf(),
                        forall|k: int|
                            0 <= k < out@.len() ==> base.rec_consistent(#[trigger] out@[k]),
                        forall|k: int|
                            0 <= k < out@.len() ==> base.track_at(
                                (#[trigger] out@[k]).id_a@,
                            ).position.spec_length_sq() <= base.spec_radar_range_sq(),
                        base.first_ids_before(out@, i + 1),
                        base.det_values_for(out@, i as int),
                        forall|k: int|
                            0 <= k < out@.len() && base.rec_close(#[trigger] out@[k])
                                ==> self.blacklisted(out@[k].id_a@) && self.blacklisted(
                                out@[k].id_b@,
                            ),
                        forall|x: Seq<char>|
                            base.blacklisted(x) ==> #[trigger] self.blacklisted(x),
                        forall|x: Seq<char>|
                            #[trigger] self.blacklisted(x) ==> base.blacklisted(x) || exists|
                                k: int,
                            |
                                0 <= k < out@.len() && base.rec_close(#[trigger] out@[k]) && (
                                out@[k].id_a@ == x || out@[k].id_b@ == x),
                        forall|i2: int, j2: int|
                            i2 < i && base.sure_pair(i2, j2) ==> pair_recorded_range(
                                out@,
                                base.spec_tracks()[i2].0@,
                                base.spec_tracks()[j2].0@,
                                base.sure_tti_lo(i2, j2),
                                base.sure_tti_hi(i2, j2),
                            ),
                        forall|j2: int|
                            base.sure_pair(i as int, j2) && nearby.deep_view().take(
                                jj as int,
                            ).contains(base.spec_tracks()[j2].0@) ==> pair_recorded_range(
                                out@,
                                base.spec_tracks()[i as int].0@,
                                base.spec_tracks()[j2].0@,
                                base.sure_tti_lo(i as int, j2),
                                base.sure_tti_hi(i as int, j2),
                            ),
                {
                    let ghost pre_self = *self;
                    let ghost pre_out = out@;
                    let ghost pre_black = self.spec_blacklist();
                    let id_b = nearby[jj].clone();
                    let ghost idb = id_b@;
                    proof {
                        assert(nearby.deep_view()[jj as int] == nearby@[jj as int]@);
                        assert(nearby.deep_view().take(jj + 1).drop_last() =~= nearby.deep_view(
                        ).take(jj as int));
                        assert(nearby.deep_view().take(jj + 1).last() == idb);
                        lemma_track_index(base.spec_tracks(), i as int);
                    }
                    if str_lt(&id_a, &id_b) {
                        let tb = self.get_track(&id_b);
                        match tb {
                            Some(b) => {
                                let pos_b = b.position;
                                let vel_b = b.velocity;
                                let alt_b = b.altitude;
                                proof {
                                    lemma_find_track_props(base.spec_tracks(), idb);
                                    let kb = find_track(base.spec_tracks(), idb);
                                    assert(base.track_ok(base.spec_tracks()[kb].1));
                                }
                                if pairs < 0xffff_ffff_ffff_ffff {
                                    pairs = pairs + 1;
                                }
                                if alt_a == alt_b {
                                    let rr = Self::calculate_risk(pos_a, vel_a, pos_b, vel_b);
                                    let risk = rr.0;
                                    let tti = rr.1;
                                    if risk > 10 {
                                        let dd = pos_a.distance_sq(pos_b);
                                        let rec = CollisionRecord {
                                            id_a: id_a.clone(),
                                            id_b: id_b.clone(),
                                            risk_permille: risk,
                                            tti_ms: tti,
                                        };
                                        proof {
                                            assert(rec.wf());
                                            assert(base.rec_consistent(rec));
                                            assert(base.track_at(rec.id_a@)
                                                == base.spec_tracks()[i as int].1);
                                            assert(base.track_at(
                                                rec.id_a@,
                                            ).position.spec_length_sq()
                                                <= base.spec_radar_range_sq());
                                            assert(base.rec_close(rec) == (dd
                                                < COLLISION_RANGE_SQ));
                                        }
                                        insert_new_record(&mut out, rec);
                                        if dd < COLLISION_RANGE_SQ {
                                            add_unique(&mut self.adsb_blacklist, &id_a);
                                            add_unique(&mut self.adsb_blacklist, &id_b);
                                        }
                                        proof {
                                            let close = dd < COLLISION_RANGE_SQ;
                                            if close {
                                                assert forall|x: Seq<char>|
                                                    #[trigger] self.blacklisted(x) <==> (
                                                pre_self.blacklisted(x) || x == rec.id_a@ || x
                                                    == rec.id_b@) by {}
                                            } else {
                                                assert forall|x: Seq<char>|
                                                    #[trigger] self.blacklisted(
                                                    x,
                                                ) == pre_self.blacklisted(x) by {}
                                            }
                                            assert forall|j2: int|
                                                base.sure_pair(i as int, j2) && (
                                                #[trigger] base.spec_tracks()[j2]).0@
                                                    == rec.id_b@ implies rec.risk_permille == 1000
                                                && rec.tti_ms is Some && base.sure_tti_lo(
                                                i as int,
                                                j2,
                                            ) <= rec.tti_ms->0 <= base.sure_tti_hi(
                                                i as int,
                                                j2,
                                            ) by {
                                                lemma_track_index(base.spec_tracks(), j2);
                                                assert(pos_b
                                                    == base.spec_tracks()[j2].1.position);
                                                assert(vel_b
                                                    == base.spec_tracks()[j2].1.velocity);
                                            }
                                            lemma_sweep_step(
                                                base,
                                                pre_self,
                                                *self,
                                                pre_out,
                                                out@,
                                                rec,
                                                i as int,
                                                jj as int,
                                                nearby.deep_view(),
                                                close,
                                            );
                                        }
                                    } else {
                                        proof {
                                            if exists|j2: int|
                                                base.sure_pair(i as int, j2) && (
                                                #[trigger] base.spec_tracks()[j2].0@) == idb {
                                                let j2 = choose|j2: int|
                                                    base.sure_pair(i as int, j2) && (
                                                    #[trigger] base.spec_tracks()[j2].0@) == idb;
                                                lemma_track_index(base.spec_tracks(), j2);
                                                assert(pos_b
                                                    == base.spec_tracks()[j2].1.position);
                                                assert(vel_b
                                                    == base.spec_tracks()[j2].1.velocity);
                                                assert(risk == 1000);
                                                assert(false);
                                            }
                                        }
                                    }
                                } else {
                                    proof {
                                        if exists|j2: int|
                                            base.sure_pair(i as int, j2) && (
                                            #[trigger] base.spec_tracks()[j2].0@) == idb {
                                            let j2 = choose|j2: int|
                                                base.sure_pair(i as int, j2) && (
                                                #[trigger] base.spec_tracks()[j2].0@) == idb;
                                            lemma_track_index(base.spec_tracks(), j2);
                                            assert(alt_b == base.spec_tracks()[j2].1.altitude);
                                            assert(false);
                                        }
                                    }
                                }
                            },
                            None => {
                                proof {
                                    if exists|j2: int|
                                        base.sure_pair(i as int, j2) && (
                                        #[trigger] base.spec_tracks()[j2].0@) == idb {
                                        let j2 = choose|j2: int|
                                            base.sure_pair(i as int, j2) && (
                                            #[trigger] base.spec_tracks()[j2].0@) == idb;
                                        lemma_track_index(base.spec_tracks(), j2);
                                        assert(false);
                                    }
                                }
                            },
                        }
                    } else {
                        proof {
                            if exists|j2: int|
                                base.sure_pair(i as int, j2) && (
                                #[trigger] base.spec_tracks()[j2].0@) == idb {
                                let j2 = choose|j2: int|
                                    base.sure_pair(i as int, j2) && (
                                    #[trigger] base.spec_tracks()[j2].0@) == idb;
                                assert(false);
                            }
                        }
                    }
                    proof {
                        // extend the per-neighbor presence fact to the entry
                        // just visited
                        assert forall|j2: int|
                            base.sure_pair(i as int, j2) && nearby.deep_view().take(
                                jj + 1,
                            ).contains(base.spec_tracks()[j2].0@) implies pair_recorded_range(
                            out@,
                            base.spec_tracks()[i as int].0@,
                            base.spec_tracks()[j2].0@,
                            base.sure_tti_lo(i as int, j2),
                            base.sure_tti_hi(i as int, j2),
                        ) by {
                            let dvt = nearby.deep_view().take(jj + 1);
                            let w = choose|w: int|
                                0 <= w < dvt.len() && dvt[w] == base.spec_tracks()[j2].0@;
                            if w < jj {
                                assert(nearby.deep_view().take(jj as int)[w]
                                    == base.spec_tracks()[j2].0@);
                                assert(nearby.deep_view().take(jj as int).contains(
                                    base.spec_tracks()[j2].0@,
                                ));
                                let k = choose|k: int|
                                    0 <= k < pre_out.len() && (#[trigger] pre_out[k]).id_a@
                                        == base.spec_tracks()[i as int].0@ && pre_out[k].id_b@
                                        == base.spec_tracks()[j2].0@ && pre_out[k].risk_permille
                                        == 1000 && pre_out[k].tti_ms is Some && base.sure_tti_lo(
                                        i as int,
                                        j2,
                                    ) <= pre_out[k].tti_ms->0 <= base.sure_tti_hi(i as int, j2);
                                assert(out@[k] == pre_out[k]);
                            } else {
                                assert(base.spec_tracks()[j2].0@ == idb);
                                // the pair is recorded: either just now, or it
                                // already was, with the certain value
                                assert(pair_in(out@, id_a@, idb));
                                let k = choose|k: int|
                                    0 <= k < out@.len() && (#[trigger] out@[k]).id_a@ == id_a@
                                        && out@[k].id_b@ == idb;
                                assert(base.spec_tracks()[j2].0@ == out@[k].id_b@);
                                assert(out@[k].risk_permille == 1000 && out@[k].tti_ms is Some
                                    && base.sure_tti_lo(i as int, j2) <= out@[k].tti_ms->0
                                    <= base.sure_tti_hi(i as int, j2));
                            }
                        }
                    }
                }
                proof {
                    assert(nearby.deep_view().take(m as int) =~= nearby.deep_view());
                    assert forall|j2: int|
                        base.sure_pair(i as int, j2) implies pair_recorded_range(
                        out@,
                        base.spec_tracks()[i as int].0@,
                        base.spec_tracks()[j2].0@,
                        base.sure_tti_lo(i as int, j2),
                        base.sure_tti_hi(i as int, j2),
                    ) by {
                        lemma_lex_irrefl(base.spec_tracks()[i as int].0@);
                        base.lemma_close_in_nearby(i as int, j2);
                    }
                }
            } else {
                proof {
                    assert forall|j2: int| !base.sure_pair(i as int, j2) by {
                        assert(pos_a.spec_length_sq() > base.spec_radar_range_sq());
                    }
                }
            }
        }
        let ghost s2 = *self;
        self.metrics.pairs_checked = pairs;
        self.collisions = out;
        proof {
            assert(self.spec_blacklist() == s2.spec_blacklist());
            assert(self.spec_tracks() == s2.spec_tracks());
            assert forall|i2: int, j2: int|
                self.sure_pair(i2, j2) implies pair_recorded_range(
                self.spec_collisions(),
                self.spec_tracks()[i2].0@,
                self.spec_tracks()[j2].0@,
                self.sure_tti_lo(i2, j2),
                self.sure_tti_hi(i2, j2),
            ) by {
                assert(base.sure_pair(i2, j2));
                assert(base.sure_tti_lo(i2, j2) == self.sure_tti_lo(i2, j2));
                assert(base.sure_tti_hi(i2, j2) == self.sure_tti_hi(i2, j2));
            }
            assert forall|i2: int, j2: int|
                self.eligible_close(i2, j2) implies pair_recorded(
                self.spec_collisions(),
                self.spec_tracks()[i2].0@,
                self.spec_tracks()[j2].0@,
                1000,
                Some(0u64),
            ) by {
                self.lemma_close_is_sure(i2, j2);
                let k = choose|k: int|
                    0 <= k < self.spec_collisions().len() && (
                    #[trigger] self.spec_collisions()[k]).id_a@ == self.spec_tracks()[i2].0@
                        && self.spec_collisions()[k].id_b@ == self.spec_tracks()[j2].0@
                        && self.spec_collisions()[k].risk_permille == 1000
                        && self.spec_collisions()[k].tti_ms is Some && self.sure_tti_lo(i2, j2)
                        <= self.spec_collisions()[k].tti_ms->0 <= self.sure_tti_hi(i2, j2);
                assert(self.spec_collisions()[k].tti_ms == Some(0u64));
            }
            assert forall|x: Seq<char>|
                old(self).blacklisted(x) implies #[trigger] self.blacklisted(x) by {
                assert(base.blacklisted(x));
                assert(s2.blacklisted(x));
            }
            assert forall|k: int|
                0 <= k < self.spec_collisions().len() implies self.rec_consistent(
                #[trigger] self.spec_collisions()[k],
            ) by {
                assert(base.rec_consistent(out@[k]));
                assert(self.spec_tracks() == base.spec_tracks());
            }
            assert forall|k: int|
                0 <= k < self.spec_collisions().len() implies self.track_at(
                (#[trigger] self.spec_collisions()[k]).id_a@,
            ).position.spec_length_sq() <= self.spec_radar_range_sq() by {
                assert(base.track_at(out@[k].id_a@).position.spec_length_sq()
                    <= base.spec_radar_range_sq());
                assert(self.spec_tracks() == base.spec_tracks());
            }
            assert forall|k: int|
                0 <= k < self.spec_collisions().len() && self.rec_close(
                    #[trigger] self.spec_collisions()[k],
                ) implies self.blacklisted(self.spec_collisions()[k].id_a@) && self.blacklisted(
                self.spec_collisions()[k].id_b@) by {
                assert(self.spec_tracks() == base.spec_tracks());
                assert(self.rec_close(out@[k]) == base.rec_close(out@[k]));
            }
            assert forall|x: Seq<char>|
                #[trigger] self.blacklisted(x) implies old(self).blacklisted(x) || exists|k: int|
                0 <= k < self.spec_collisions().len() && self.rec_close(
                    #[trigger] self.spec_collisions()[k],
                ) && (self.spec_collisions()[k].id_a@ == x || self.spec_collisions()[k].id_b@
                == x) by {
                assert(s2.blacklisted(x));
                if base.blacklisted(x) {
                    assert(old(self).blacklisted(x));
                } else {
                    let k = choose|k: int|
                        0 <= k < out@.len() && base.rec_close(#[trigger] out@[k]) && (
                        out@[k].id_a@ == x || out@[k].id_b@ == x);
                    assert(self.spec_tracks() == base.spec_tracks());
                    assert(self.rec_close(self.spec_collisions()[k]) == base.rec_close(out@[k]));
                }
            }
        }
    }

    /// Removes blacklisted tracks, tracks not seen within `max_age_ms`, and
    /// tracks farther than `scale` from the center; clears the blacklist;
    /// then drops every collision record with a missing endpoint.
    pub fn prune(&mut self, max_age_ms: u64, center: Vector2D, now: u64)
        requires
            old(self).wf(),
            center.wf(),
        ensures
            final(self).wf(),
            sm_prune_rel(*old(self), *final(self), max_age_ms, center, now),
            final(self).spec_blacklist().len() == 0,
            forall|k: int|
                0 <= k < final(self).spec_collisions().len() ==> final(self).has_track(
                    (#[trigger] final(self).spec_collisions()[k]).id_a@,
                ) && final(self).has_track(final(self).spec_collisions()[k].id_b@),
    {
        let ghost old_tracks = self.aircraft@;
        let ghost bl = self.spec_blacklist();
        let ghost scale0 = self.scale;
        proof {
            lemma_mul_bounds(self.scale as int, self.scale as int, 1_000_000_000);
        }
        let range_sq: i128 = (self.scale as i128) * (self.scale as i128);
        let mut i: usize = 0;
        let ghost mut j: int = 0;
        while i < self.aircraft.len()
            invariant
                old(self).wf(),
                center.wf(),
                0 <= i <= self.aircraft@.len(),
                0 <= j <= old_tracks.len(),
                i <= j,
                old_tracks == old(self).aircraft@,
                bl == old(self).spec_blacklist(),
                scale0 == old(self).scale,
                range_sq == scale0 * scale0,
                self.adsb_blacklist@ == old(self).adsb_blacklist@,
                self.collisions@ == old(self).collisions@,
                self.spatial_grid == old(self).spatial_grid,
                self.scale == old(self).scale,
                self.radar_range_sq == old(self).radar_range_sq,
                self.metrics.pairs_checked == old(self).metrics.pairs_checked,
                self.aircraft@.take(i as int) =~= kept_tracks(
                    old_tracks.take(j),
                    bl,
                    max_age_ms,
                    center,
                    scale0,
                    now,
                ),
                self.aircraft@.skip(i as int) =~= old_tracks.skip(j),
            decreases old_tracks.len() - j,
        {
            let ghost pre_seq = self.aircraft@;
            proof {
                assert(old_tracks.skip(j).len() == old_tracks.len() - j);
                assert(self.aircraft@.skip(i as int)[0] == self.aircraft@[i as int]);
                assert(old_tracks.skip(j)[0] == old_tracks[j]);
                assert(self.aircraft@[i as int] == old_tracks[j]);
                assert(old_tracks.take(j + 1).drop_last() =~= old_tracks.take(j));
                assert(old_tracks.take(j + 1).last() == old_tracks[j]);
                assert(old(self).track_ok(old_tracks[j].1));
            }
            let listed = self.is_blacklisted(&self.aircraft[i].0);
            let seen = self.aircraft[i].1.last_seen;
            let age: u64 = if now >= seen {
                now - seen
            } else {
                0
            };
            let pos = self.aircraft[i].1.position;
            let near = pos.distance_sq(center) < range_sq;
            let keep = !listed && age < max_age_ms && near;
            proof {
                assert(keep == keep_track(old_tracks[j], bl, max_age_ms, center, scale0, now));
            }
            if keep {
                i = i + 1;
                proof {
                    j = j + 1;
                    assert(kept_tracks(old_tracks.take(j), bl, max_age_ms, center, scale0, now)
                        =~= kept_tracks(
                        old_tracks.take(j - 1),
                        bl,
                        max_age_ms,
                        center,
                        scale0,
                        now,
                    ).push(old_tracks[j - 1]));
                    assert(self.aircraft@.take(i as int) =~= pre_seq.take(i - 1).push(
                        old_tracks[j - 1],
                    ));
                    assert(self.aircraft@.skip(i as int) =~= pre_seq.skip(i - 1).skip(1));
                    assert(old_tracks.skip(j) =~= old_tracks.skip(j - 1).skip(1));
                    assert(pre_seq.skip(i - 1).skip(1) =~= old_tracks.skip(j - 1).skip(1));
                }
            } else {
                self.aircraft.remove(i);
                proof {
                    j = j + 1;
                    assert(kept_tracks(old_tracks.take(j), bl, max_age_ms, center, scale0, now)
                        =~= kept_tracks(
                        old_tracks.take(j - 1),
                        bl,
                        max_age_ms,
                        center,
                        scale0,
                        now,
                    ));
                    assert(self.aircraft@.take(i as int) =~= pre_seq.take(i as int));
                    assert(self.aircraft@.skip(i as int) =~= pre_seq.skip(i + 1));
                    assert(pre_seq.skip(i + 1) =~= pre_seq.skip(i as int).skip(1));
                    assert(old_tracks.skip(j) =~= old_tracks.skip(j - 1).skip(1));
                    assert(pre_seq.skip(i as int).skip(1) =~= old_tracks.skip(j - 1).skip(1));
                }
            }
        }
        proof {
            assert(j == old_tracks.len());
            assert(old_tracks.take(j) =~= old_tracks);
            assert(self.aircraft@ =~= self.aircraft@.take(self.aircraft@.len() as int));
            assert(self.aircraft@ =~= kept_tracks(
                old_tracks,
                bl,
                max_age_ms,
                center,
                scale0,
                now,
            ));
            // survivors are a subsequence: well-formed and pairwise distinct
            lemma_kept_tracks_sub(old_tracks, bl, max_age_ms, center, scale0, now);
            assert forall|a: int|
                0 <= a < self.aircraft@.len() implies old(self).track_ok(
                (#[trigger] self.aircraft@[a]).1,
            ) by {
                let w = choose|w: int|
                    0 <= w < old_tracks.len() && old_tracks[w] == self.aircraft@[a];
                assert(old(self).track_ok(old_tracks[w].1));
            }
        }
        self.adsb_blacklist.clear();
        proof {
            assert(self.spec_blacklist() =~= Seq::<Seq<char>>::empty());
        }
        let ghost new_tracks = self.aircraft@;
        let ghost old_recs = self.collisions@;
        let mut i2: usize = 0;
        let ghost mut j2: int = 0;
        while i2 < self.collisions.len()
            invariant
                old(self).wf(),
                0 <= i2 <= self.collisions@.len(),
                0 <= j2 <= old_recs.len(),
                i2 <= j2,
                old_recs == old(self).collisions@,
                new_tracks == self.aircraft@,
                self.adsb_blacklist@.len() == 0,
                self.spatial_grid == old(self).spatial_grid,
                self.scale == old(self).scale,
                self.radar_range_sq == old(self).radar_range_sq,
                self.metrics.pairs_checked == old(self).metrics.pairs_checked,
                self.collisions@.take(i2 as int) =~= kept_recs(old_recs.take(j2), new_tracks),
                self.collisions@.skip(i2 as int) =~= old_recs.skip(j2),
            decreases old_recs.len() - j2,
        {
            let ghost pre_recs = self.collisions@;
            proof {
                assert(old_recs.skip(j2).len() == old_recs.len() - j2);
                assert(self.collisions@.skip(i2 as int)[0] == self.collisions@[i2 as int]);
                assert(old_recs.skip(j2)[0] == old_recs[j2]);
                assert(self.collisions@[i2 as int] == old_recs[j2]);
                assert(old_recs.take(j2 + 1).drop_last() =~= old_recs.take(j2));
                assert(old_recs.take(j2 + 1).last() == old_recs[j2]);
            }
            let keep_a = self.contains_track_in(&self.collisions[i2].id_a);
            let keep_b = self.contains_track_in(&self.collisions[i2].id_b);
            proof {
                assert((keep_a && keep_b) == keep_rec(old_recs[j2], new_tracks));
            }
            if keep_a && keep_b {
                i2 = i2 + 1;
                proof {
                    j2 = j2 + 1;
                    assert(kept_recs(old_recs.take(j2), new_tracks) =~= kept_recs(
                        old_recs.take(j2 - 1),
                        new_tracks,
                    ).push(old_recs[j2 - 1]));
                    assert(self.collisions@.take(i2 as int) =~= pre_recs.take(i2 - 1).push(
                        old_recs[j2 - 1],
                    ));
                    assert(self.collisions@.skip(i2 as int) =~= pre_recs.skip(i2 - 1).skip(1));
                    assert(old_recs.skip(j2) =~= old_recs.skip(j2 - 1).skip(1));
                    assert(pre_recs.skip(i2 - 1).skip(1) =~= old_recs.skip(j2 - 1).skip(1));
                }
            } else {
                self.collisions.remove(i2);
                proof {
                    j2 = j2 + 1;
                    assert(kept_recs(old_recs.take(j2), new_tracks) =~= kept_recs(
                        old_recs.take(j2 - 1),
                        new_tracks,
                    ));
                    assert(self.collisions@.take(i2 as int) =~= pre_recs.take(i2 as int));
                    assert(self.collisions@.skip(i2 as int) =~= pre_recs.skip(i2 + 1));
                    assert(pre_recs.skip(i2 + 1) =~= pre_recs.skip(i2 as int).skip(1));
                    assert(old_recs.skip(j2) =~= old_recs.skip(j2 - 1).skip(1));
                    assert(pre_recs.skip(i2 as int).skip(1) =~= old_recs.skip(j2 - 1).skip(1));
                }
            }
        }
        proof {
            assert(j2 == old_recs.len());
            assert(old_recs.take(j2) =~= old_recs);
            assert(self.collisions@ =~= self.collisions@.take(self.collisions@.len() as int));
            assert(self.collisions@ =~= kept_recs(old_recs, new_tracks));
            lemma_kept_recs_sub(old_recs, new_tracks);
            assert forall|k: int|
                0 <= k < self.collisions@.len() implies self.has_track(
                (#[trigger] self.spec_collisions()[k]).id_a@,
            ) && self.has_track(self.spec_collisions()[k].id_b@) && (
            #[trigger] self.spec_collisions()[k]).wf() by {
                let w = choose|w: int|
                    0 <= w < old_recs.len() && old_recs[w] == self.collisions@[k];
                assert(old_recs[w].wf());
            }
            // uniqueness of surviving track ids and record pairs
            assert forall|a: int, b: int|
                0 <= a < b < self.aircraft@.len() implies (#[trigger] self.aircraft@[a]).0@ != (
            #[trigger] self.aircraft@[b]).0@ by {
                lemma_kept_tracks_unique(old_tracks, bl, max_age_ms, center, scale0, now, a, b);
            }
            assert forall|a: int, b: int|
                0 <= a < b < self.collisions@.len() implies !((
            #[trigger] self.collisions@[a]).id_a@ == (#[trigger] self.collisions@[b]).id_a@
                && self.collisions@[a].id_b@ == self.collisions@[b].id_b@) by {
                lemma_kept_recs_unique(old_recs, new_tracks, a, b);
            }
            assert(self.spec_tracks() == kept_tracks(
                old(self).spec_tracks(),
                old(self).spec_blacklist(),
                max_age_ms,
                center,
                old(self).spec_scale(),
                now,
            ));
            assert(self.spec_blacklist() =~= Seq::<Seq<char>>::empty());
            assert(self.spec_collisions() == kept_recs(
                old(self).spec_collisions(),
                self.spec_tracks(),
            ));
            assert(self.spec_grid() == old(self).spec_grid());
            assert(sm_prune_rel(*old(self), *self, max_age_ms, center, now));
        }
    }

    /// Whether an id currently has a live track (internal twin of
    /// `contains_track` with the same contract).
    fn contains_track_in(&self, id: &String) -> (r: bool)
        ensures
            r == (find_track(self.spec_tracks(), id@) >= 0),
    {
        let n = self.aircraft.len();
        for i in 0..n
            invariant
                n == self.aircraft@.len(),
                forall|j: int| 0 <= j < i ==> (#[trigger] self.aircraft@[j]).0@ != id@,
        {
            if self.aircraft[i].0 == *id {
                proof {
                    lemma_find_track_at(self.spec_tracks(), id@, i as int);
                }
                return true;
            }
        }
        proof {
            lemma_find_track_none(self.spec_tracks(), id@);
        }
        false
    }

    /// The ranked alert table: collision records whose endpoints are still
    /// live, reduced to the twenty highest risks, then the ten most urgent,
    /// in non-increasing urgency order.  Urgency grows with risk and shrinks
    /// with time to impact and distance.
    #[verifier::rlimit(30)]
    pub fn collision_alerts(&self) -> (r: Vec<AlertEntry>)
        requires
            self.wf(),
        ensures
            r@.len() <= 10,
            forall|a: int, b: int|
                0 <= a < b < r@.len() ==> (#[trigger] r@[a]).urgency >= (#[trigger] r@[b]).urgency,
            forall|a: int| 0 <= a < r@.len() ==> alert_matches(*self, #[trigger] r@[a]),
            // the result is exactly the ten most urgent of the twenty
            // highest-risk live pairs: the leading ten of an urgency-ranked
            // permutation of the leading twenty of a risk-ranked permutation
            // of the candidate pool
            exists|cands: Seq<AlertEntry>, byrisk: Seq<AlertEntry>, byurg: Seq<AlertEntry>|
                #![trigger alert_pool(*self, cands), byrisk.to_multiset(), byurg.to_multiset()]
                {
                    &&& alert_pool(*self, cands)
                    &&& byrisk.to_multiset() == cands.to_multiset()
                    &&& alerts_sorted(byrisk, false)
                    &&& byurg.to_multiset() == lead(byrisk, 20).to_multiset()
                    &&& alerts_sorted(byurg, true)
                    &&& r@ == lead(byurg, 10)
                },
            self.spec_collisions().len() <= 10 ==> forall|k: int|
                0 <= k < self.spec_collisions().len() && self.has_track(
                    (#[trigger] self.spec_collisions()[k]).id_a@,
                ) && self.has_track(self.spec_collisions()[k].id_b@) ==> exists|a: int|
                    0 <= a < r@.len() && (#[trigger] r@[a]).id_a@
                        == self.spec_collisions()[k].id_a@ && r@[a].id_b@
                        == self.spec_collisions()[k].id_b@,
    {
        let mut candidates: Vec<AlertEntry> = Vec::new();
        let n = self.collisions.len();
        for k in 0..n
            invariant
                self.wf(),
                n == self.collisions@.len(),
                candidates@.len() <= k,
                forall|a: int|
                    0 <= a < candidates@.len() ==> alert_matches(
                        *self,
                        #[trigger] candidates@[a],
                    ),
                forall|k2: int|
                    0 <= k2 < k && self.has_track((#[trigger] self.spec_collisions()[k2]).id_a@)
                        && self.has_track(self.spec_collisions()[k2].id_b@) ==> exists|a: int|
                        0 <= a < candidates@.len() && (#[trigger] candidates@[a]).id_a@
                            == self.spec_collisions()[k2].id_a@ && candidates@[a].id_b@
                            == self.spec_collisions()[k2].id_b@,
                forall|a: int|
                    0 <= a < candidates@.len() ==> exists|k2: int|
                        0 <= k2 < k && (#[trigger] candidates@[a]).id_a@
                            == self.spec_collisions()[k2].id_a@ && candidates@[a].id_b@
                            == self.spec_collisions()[k2].id_b@,
                forall|a1: int, a2: int|
                    0 <= a1 < a2 < candidates@.len() ==> !((#[trigger] candidates@[a1]).id_a@ == (
                    #[trigger] candidates@[a2]).id_a@ && candidates@[a1].id_b@
                        == candidates@[a2].id_b@),
        {
            let rec = &self.collisions[k];
            let ta = self.get_track(&rec.id_a);
            let tb = self.get_track(&rec.id_b);
            match (ta, tb) {
                (Some(a), Some(b)) => {
                    let pa = a.position;
                    let alt = a.altitude;
                    let pb = b.position;
                    proof {
                        let fa = find_track(self.spec_tracks(), self.collisions@[k as int].id_a@);
                        let fb = find_track(self.spec_tracks(), self.collisions@[k as int].id_b@);
                        lemma_find_track_props(self.spec_tracks(), self.collisions@[k as int].id_a@);
                        lemma_find_track_props(self.spec_tracks(), self.collisions@[k as int].id_b@);
                        assert(self.track_ok(self.spec_tracks()[fa].1));
                        assert(self.track_ok(self.spec_tracks()[fb].1));
                    }
                    let dsq: i128 = pa.distance_sq(pb);
                    proof {
                        let dxy = pa.spec_sub(pb);
                        lemma_mul_bounds(dxy.x as int, dxy.x as int, 600_000_000);
                        lemma_mul_bounds(dxy.y as int, dxy.y as int, 600_000_000);
                        assert(dsq <= 720_000_000_000_000_000);
                    }
                    let dist: u64 = isqrt(dsq as u64);
                    proof {
                        if dist > 900_000_000 {
                            assert(900_000_000int * 900_000_000 < dist * dist)
                                by (nonlinear_arith)
                                requires
                                    dist > 900_000_000,
                            ;
                            assert(false);
                        }
                    }
                    let t: u64 = match rec.tti_ms {
                        Some(v) => if v >= 1 {
                            v
                        } else {
                            1
                        },
                        None => 1000,
                    };
                    let d: u64 = if dist >= 1 {
                        dist
                    } else {
                        1
                    };
                    proof {
                        assert(self.collisions@[k as int].wf());
                        lemma_mul_le(t as int, d as int, 30_000, 900_000_000);
                        assert(1 <= t * d) by (nonlinear_arith)
                            requires
                                t >= 1,
                                d >= 1,
                        ;
                        vstd::arithmetic::div_mod::lemma_div_pos_is_pos(
                            (rec.risk_permille * 1_000_000_000) as int,
                            (t * d) as int,
                        );
                        vstd::arithmetic::div_mod::lemma_div_is_ordered(
                            (rec.risk_permille * 1_000_000_000) as int,
                            0x1_0000_0000_0000_0000 - 1,
                            (t * d) as int,
                        );
                        lemma_div_bounds((rec.risk_permille * 1_000_000_000) as int, (t * d) as int);
                    }
                    let urgency: u64 = (rec.risk_permille as u64 * 1_000_000_000) / (t * d);
                    let entry = AlertEntry {
                        id_a: rec.id_a.clone(),
                        id_b: rec.id_b.clone(),
                        distance_m: dist,
                        altitude: alt,
                        tti_ms: rec.tti_ms,
                        risk_permille: rec.risk_permille,
                        urgency,
                    };
                    proof {
                        let kk = k as int;
                        assert(0 <= kk < self.spec_collisions().len()
                            && self.spec_collisions()[kk].id_a@ == entry.id_a@
                            && self.spec_collisions()[kk].id_b@ == entry.id_b@
                            && self.spec_collisions()[kk].risk_permille == entry.risk_permille
                            && self.spec_collisions()[kk].tti_ms == entry.tti_ms);
                        assert(entry.urgency == urgency_of(
                            entry.risk_permille,
                            entry.tti_ms,
                            entry.distance_m,
                        ));
                        assert(alert_matches(*self, entry));
                    }
                    let ghost pre_cand = candidates@;
                    candidates.push(entry);
                    proof {
                        assert(candidates@[candidates@.len() - 1] == entry);
                        // each pool entry descends from one record, and the
                        // records' pairs are distinct, so no pair repeats
                        assert forall|a: int|
                            0 <= a < candidates@.len() implies exists|k2: int|
                            0 <= k2 < k + 1 && (#[trigger] candidates@[a]).id_a@
                                == self.spec_collisions()[k2].id_a@ && candidates@[a].id_b@
                                == self.spec_collisions()[k2].id_b@ by {
                            if a < pre_cand.len() {
                                assert(candidates@[a] == pre_cand[a]);
                                let k2 = choose|k2: int|
                                    0 <= k2 < k && (#[trigger] pre_cand[a]).id_a@
                                        == self.spec_collisions()[k2].id_a@ && pre_cand[a].id_b@
                                        == self.spec_collisions()[k2].id_b@;
                            } else {
                                assert(candidates@[a].id_a@
                                    == self.spec_collisions()[k as int].id_a@);
                            }
                        }
                        assert forall|a1: int, a2: int|
                            0 <= a1 < a2 < candidates@.len() implies !((
                        #[trigger] candidates@[a1]).id_a@ == (#[trigger] candidates@[a2]).id_a@
                            && candidates@[a1].id_b@ == candidates@[a2].id_b@) by {
                            if a2 < pre_cand.len() {
                                assert(candidates@[a1] == pre_cand[a1]);
                                assert(candidates@[a2] == pre_cand[a2]);
                            } else {
                                assert(candidates@[a1] == pre_cand[a1]);
                                let k2 = choose|k2: int|
                                    0 <= k2 < k && (#[trigger] pre_cand[a1]).id_a@
                                        == self.spec_collisions()[k2].id_a@ && pre_cand[a1].id_b@
                                        == self.spec_collisions()[k2].id_b@;
                                assert(!(self.spec_collisions()[k2].id_a@
                                    == self.spec_collisions()[k as int].id_a@
                                    && self.spec_collisions()[k2].id_b@
                                    == self.spec_collisions()[k as int].id_b@));
                            }
                        }
                        assert forall|k2: int|
                            0 <= k2 < k + 1 && self.has_track(
                                (#[trigger] self.spec_collisions()[k2]).id_a@,
                            ) && self.has_track(self.spec_collisions()[k2].id_b@) implies exists|
                            a: int,
                        |
                            0 <= a < candidates@.len() && (#[trigger] candidates@[a]).id_a@
                                == self.spec_collisions()[k2].id_a@ && candidates@[a].id_b@
                                == self.spec_collisions()[k2].id_b@ by {
                            if k2 < k {
                                let a = choose|a: int|
                                    0 <= a < pre_cand.len() && (#[trigger] pre_cand[a]).id_a@
                                        == self.spec_collisions()[k2].id_a@ && pre_cand[a].id_b@
                                        == self.spec_collisions()[k2].id_b@;
                                assert(candidates@[a] == pre_cand[a]);
                            } else {
                                assert(candidates@[candidates@.len() - 1].id_a@
                                    == self.spec_collisions()[k2].id_a@);
                            }
                        }
                    }
                },
                _ => {},
            }
        }
        let ghost all = candidates@;
        let mut ranked = sort_alerts_desc(candidates, false);
        let ghost sorted1 = ranked@;
        ranked.truncate(20);
        let ghost top = ranked@;
        let mut by_urgency = sort_alerts_desc(ranked, true);
        let ghost sorted2 = by_urgency@;
        by_urgency.truncate(10);
        proof {
            assert(alert_pool(*self, all));
            assert(all.len() <= self.spec_collisions().len());
            lemma_alert_rankings(*self, all, sorted1, top, sorted2, by_urgency@);
        }
        by_urgency
    }

    /// Ingests one position report.  A report outside the radar range plus
    /// the safety buffer drops any existing track for the id and creates
    /// none; otherwise the id's track is created or updated in place.
    pub fn handle_update(
        &mut self,
        callsign: String,
        px: i64,
        py: i64,
        vx: i64,
        vy: i64,
        alt: i64,
        now: u64,
    )
        requires
            old(self).wf(),
            -VEL_LIMIT <= vx <= VEL_LIMIT,
            -VEL_LIMIT <= vy <= VEL_LIMIT,
        ensures
            final(self).wf(),
            final(self).spec_collisions() == old(self).spec_collisions(),
            final(self).spec_blacklist() == old(self).spec_blacklist(),
            final(self).spec_grid() == old(self).spec_grid(),
            final(self).spec_scale() == old(self).spec_scale(),
            final(self).spec_radar_range_sq() == old(self).spec_radar_range_sq(),
            !old(self).in_interest(Vector2D { x: px, y: py }) ==> !final(self).has_track(
                callsign@,
            ),
            old(self).in_interest(Vector2D { x: px, y: py }) ==> {
                &&& final(self).has_track(callsign@)
                &&& final(self).track_at(callsign@).position == (Vector2D { x: px, y: py })
                &&& final(self).track_at(callsign@).velocity == (Vector2D { x: vx, y: vy })
                &&& final(self).track_at(callsign@).last_seen == now
                &&& final(self).track_at(callsign@).grid_coord == old(
                    self,
                ).spec_grid().spec_cell_of(Vector2D { x: px, y: py })
                &&& (old(self).has_track(callsign@) ==> final(self).track_at(callsign@).altitude
                    == old(self).track_at(callsign@).altitude)
                &&& (!old(self).has_track(callsign@) ==> final(self).track_at(callsign@).altitude
                    == alt)
                &&& (!old(self).has_track(callsign@) ==> final(self).track_at(
                    callsign@,
                ).spec_history() == Seq::<Vector2D>::empty())
                &&& (old(self).has_track(callsign@) ==> final(self).track_at(
                    callsign@,
                ).spec_history() == {
                    let prior = old(self).track_at(callsign@);
                    if prior.spec_history().len() < crate::model::HISTORY_CAP {
                        prior.spec_history().push(prior.position)
                    } else {
                        prior.spec_history().push(prior.position).drop_first()
                    }
                })
            },
            forall|id: Seq<char>|
                id != callsign@ ==> #[trigger] final(self).has_track(id) == old(self).has_track(
                    id,
                ),
            forall|id: Seq<char>|
                id != callsign@ && old(self).has_track(id) ==> #[trigger] final(self).track_at(id)
                    == old(self).track_at(id),
    {
        let ghost cs = callsign@;
        let p = Vector2D::new(px, py);
        let v = Vector2D::new(vx, vy);
        proof {
            self.lemma_interest_bounds();
        }
        let threshold: i128 = self.radar_range_sq as i128 + SAFETY_BUFFER_SQ as i128;
        let out_of_interest: bool = if px < -POS_LIMIT || px > POS_LIMIT || py < -POS_LIMIT || py
            > POS_LIMIT {
            proof {
                lemma_square_nonneg(px as int);
                lemma_square_nonneg(py as int);
                if px < -POS_LIMIT || px > POS_LIMIT {
                    lemma_abs_square_larger(px as int, POS_LIMIT as int);
                } else {
                    lemma_abs_square_larger(py as int, POS_LIMIT as int);
                }
            }
            true
        } else {
            let c = Vector2D::new(0, 0);
            p.distance_sq(c) > threshold
        };
        proof {
            assert(out_of_interest == !self.in_interest(p));
        }
        let ghost old_seq = self.aircraft@;
        // locate any existing track
        let n = self.aircraft.len();
        let mut found: Option<usize> = None;
        for i in 0..n
            invariant
                self.aircraft@ == old_seq,
                n == old_seq.len(),
                cs == callsign@,
                match found {
                    Some(fi) => fi < i && old_seq[fi as int].0@ == cs,
                    None => forall|j: int| 0 <= j < i ==> (#[trigger] old_seq[j]).0@ != cs,
                },
        {
            if matches!(found, None) {
                if self.aircraft[i].0 == callsign {
                    found = Some(i);
                }
            }
        }
        if out_of_interest {
            match found {
                Some(fi) => {
                    proof {
                        lemma_find_track_at(old_seq, cs, fi as int);
                    }
                    self.aircraft.remove(fi);
                    proof {
                        let new_seq = self.aircraft@;
                        assert forall|i2: int, j2: int|
                            0 <= i2 < j2 < new_seq.len() implies (#[trigger] new_seq[i2]).0@ != (
                        #[trigger] new_seq[j2]).0@ by {
                            let oi: int = if i2 < fi {
                                i2
                            } else {
                                i2 + 1
                            };
                            let oj: int = if j2 < fi {
                                j2
                            } else {
                                j2 + 1
                            };
                            assert(new_seq[i2].0@ == old_seq[oi].0@);
                            assert(new_seq[j2].0@ == old_seq[oj].0@);
                        }
                        lemma_find_track_none_of_removed(old_seq, new_seq, fi as int, cs);
                        assert forall|id: Seq<char>|
                            id != cs implies #[trigger] self.has_track(id) == old(
                            self,
                        ).has_track(id) by {
                            lemma_shifted_find(old_seq, new_seq, fi as int, id);
                        }
                        assert forall|id: Seq<char>|
                            id != cs && old(self).has_track(id) implies #[trigger] self.track_at(
                            id,
                        ) == old(self).track_at(id) by {
                            lemma_shifted_find(old_seq, new_seq, fi as int, id);
                        }
                    }
                },
                None => {
                    proof {
                        lemma_find_track_none(old_seq, cs);
                    }
                },
            }
        } else {
            proof {
                lemma_component_bound(px as int, py as int, threshold as int);
                lemma_component_bound(py as int, px as int, threshold as int);
            }
            let cell = self.spatial_grid.to_grid_coord(p);
            match found {
                Some(fi) => {
                    proof {
                        lemma_find_track_at(old_seq, cs, fi as int);
                    }
                    let mut entry = self.aircraft.remove(fi);
                    entry.1.update(p, v, cell, now);
                    self.aircraft.push(entry);
                    proof {
                        let new_seq = self.aircraft@;
                        let last = new_seq.len() - 1;
                        assert forall|j: int| 0 <= j < last implies (#[trigger] new_seq[j]).0@
                            != cs by {
                            if j < fi {
                                assert(new_seq[j] == old_seq[j]);
                            } else {
                                assert(new_seq[j] == old_seq[j + 1]);
                            }
                        }
                        lemma_find_track_at(new_seq, cs, last);
                        assert forall|id: Seq<char>|
                            id != cs implies #[trigger] self.has_track(id) == old(
                            self,
                        ).has_track(id) by {
                            lemma_moved_find(old_seq, new_seq, fi as int, id);
                        }
                        assert forall|id: Seq<char>|
                            id != cs && old(self).has_track(id) implies #[trigger] self.track_at(
                            id,
                        ) == old(self).track_at(id) by {
                            lemma_moved_find(old_seq, new_seq, fi as int, id);
                        }
                        assert forall|i2: int, j2: int|
                            0 <= i2 < j2 < new_seq.len() implies (#[trigger] new_seq[i2]).0@ != (
                        #[trigger] new_seq[j2]).0@ by {
                            let oi: int = if i2 < fi {
                                i2
                            } else if i2 < new_seq.len() - 1 {
                                i2 + 1
                            } else {
                                fi as int
                            };
                            let oj: int = if j2 < fi {
                                j2
                            } else if j2 < new_seq.len() - 1 {
                                j2 + 1
                            } else {
                                fi as int
                            };
                            assert(new_seq[i2].0@ == old_seq[oi].0@);
                            assert(new_seq[j2].0@ == old_seq[oj].0@);
                        }
                    }
                },
                None => {
                    proof {
                        lemma_find_track_none(old_seq, cs);
                        lemma_find_track_props(old_seq, cs);
                    }
                    let entry = Aircraft::new(p, v, alt, cell, now);
                    self.aircraft.push((callsign, entry));
                    proof {
                        let new_seq = self.aircraft@;
                        let last = new_seq.len() - 1;
                        assert forall|j: int| 0 <= j < last implies (#[trigger] new_seq[j]).0@
                            != cs by {
                            assert(new_seq[j] == old_seq[j]);
                        }
                        lemma_find_track_at(new_seq, cs, last);
                        assert forall|id: Seq<char>|
                            id != cs implies #[trigger] self.has_track(id) == old(
                            self,
                        ).has_track(id) by {
                            lemma_appended_find(old_seq, new_seq, id);
                        }
                        assert forall|id: Seq<char>|
                            id != cs && old(self).has_track(id) implies #[trigger] self.track_at(
                            id,
                        ) == old(self).track_at(id) by {
                            lemma_appended_find(old_seq, new_seq, id);
                        }
                    }
                },
            }
        }
    }
}

/// A head-on encounter on one line: both tracks and their relative motion
/// lie along the x axis, the gap closes fast enough that the trial noise
/// (at most 5 per axis and aircraft) can neither stall the approach nor
/// push the miss distance past the collision radius, and the pair is not
/// already coincident.  Every Monte-Carlo draw registers a hit.
pub open spec fn head_on_geometry(p1: Vector2D, v1: Vector2D, p2: Vector2D, v2: Vector2D) -> bool {
    let dp = p1.spec_sub(p2);
    let w = v1.spec_sub(v2);
    &&& dp.y == 0
    &&& w.y == 0
    &&& dp.x * w.x < 0
    &&& vstd::math::abs(w.x as int) >= 40
    &&& vstd::math::abs(dp.x as int) < 15 * (vstd::math::abs(w.x as int) - 10)
    &&& dp.x * dp.x > COLLISION_RANGE_SQ
}

/// Lower bound on every trial's impact time in a head-on encounter:
/// the gap over the fastest noisy closing speed, in milliseconds.
pub open spec fn head_on_tti_lo(p1: Vector2D, v1: Vector2D, p2: Vector2D, v2: Vector2D) -> int {
    let g = vstd::math::abs((p1.spec_sub(p2)).x as int) as int;
    let a = vstd::math::abs((v1.spec_sub(v2)).x as int) as int;
    1000 * g * (a + 10) / ((a + 10) * (a + 10) + 100)
}

/// Upper bound on every trial's impact time in a head-on encounter:
/// the gap over the slowest noisy closing speed, in milliseconds.
pub open spec fn head_on_tti_hi(p1: Vector2D, v1: Vector2D, p2: Vector2D, v2: Vector2D) -> int {
    let g = vstd::math::abs((p1.spec_sub(p2)).x as int) as int;
    let a = vstd::math::abs((v1.spec_sub(v2)).x as int) as int;
    1000 * g / (a - 10)
}

/// Cross-multiplied division ordering: `a/b <= c/d` follows from
/// `a*d <= c*b` for positive denominators.
proof fn lemma_div_cross(a: int, b: int, c: int, d: int)
    requires
        b >= 1,
        d >= 1,
        a >= 0,
        c >= 0,
        a * d <= c * b,
    ensures
        a / b <= c / d,
{
    vstd::arithmetic::div_mod::lemma_fundamental_div_mod(a, b);
    vstd::arithmetic::div_mod::lemma_fundamental_div_mod(c, d);
    let qa = a / b;
    let ra = a % b;
    let qc = c / d;
    let rc = c % d;
    assert(qa <= qc) by (nonlinear_arith)
        requires
            a == b * qa + ra,
            0 <= ra < b,
            c == d * qc + rc,
            0 <= rc < d,
            b >= 1,
            d >= 1,
            a >= 0,
            c >= 0,
            a * d <= c * b,
    ;
}

/// In a head-on encounter every admissible noise draw hits: the relative
/// velocity keeps sign and magnitude, the encounter time stays inside the
/// horizon, the miss distance stays under the collision radius, and the
/// per-trial time is pinned between the fastest and slowest closing speeds.
proof fn lemma_head_on_trial(dpx: int, wx: int, dvx: int, dvy: int, tn: int, td: int)
    requires
        dpx * wx < 0,
        vstd::math::abs(wx) >= 40,
        vstd::math::abs(dpx) < 15 * (vstd::math::abs(wx) - 10),
        wx - 10 <= dvx <= wx + 10,
        -10 <= dvy <= 10,
        td == dvx * dvx + dvy * dvy,
        tn == -(dpx * dvx),
    ensures
        td >= 900,
        tn > 0,
        tn < 30 * td,
        (dpx * td + dvx * tn) * (dpx * td + dvx * tn) + (dvy * tn) * (dvy * tn) < 22500 * (td
            * td),
        tn * 1000 * (vstd::math::abs(wx) - 10) <= 1000 * vstd::math::abs(dpx) * td,
        1000 * vstd::math::abs(dpx) * (vstd::math::abs(wx) + 10) * td <= tn * 1000 * ((
        vstd::math::abs(wx) + 10) * (vstd::math::abs(wx) + 10) + 100),
{
    let g = vstd::math::abs(dpx) as int;
    let a = vstd::math::abs(wx) as int;
    let advx = vstd::math::abs(dvx) as int;
    assert(g == dpx || g == -dpx);
    assert(advx == dvx || advx == -dvx);
    assert(dpx * dpx == g * g && dvx * dvx == advx * advx) by (nonlinear_arith)
        requires
            g == dpx || g == -dpx,
            advx == dvx || advx == -dvx,
    ;
    // the noisy closing speed keeps the sign of the clean one and stays
    // within ten of its magnitude
    assert(a - 10 <= vstd::math::abs(dvx) <= a + 10 && dpx * dvx < 0 && dvx * dvx >= (a - 10) * (a
        - 10) && dvx * dvx <= (a + 10) * (a + 10)) by (nonlinear_arith)
        requires
            dpx * wx < 0,
            vstd::math::abs(wx) >= 40,
            wx - 10 <= dvx <= wx + 10,
            a == vstd::math::abs(wx),
            g == vstd::math::abs(dpx),
    ;
    assert(td >= 900) by (nonlinear_arith)
        requires
            dvx * dvx >= (a - 10) * (a - 10),
            a >= 40,
            td == dvx * dvx + dvy * dvy,
            -10 <= dvy <= 10,
    ;
    assert(tn == g * vstd::math::abs(dvx) && tn > 0) by (nonlinear_arith)
        requires
            tn == -(dpx * dvx),
            dpx * dvx < 0,
            g == vstd::math::abs(dpx),
            dpx * wx < 0,
    ;
    assert(tn < 30 * td) by (nonlinear_arith)
        requires
            tn == g * vstd::math::abs(dvx),
            g < 15 * (a - 10),
            a - 10 <= vstd::math::abs(dvx),
            td == dvx * dvx + dvy * dvy,
            -10 <= dvy <= 10,
            a >= 40,
            dvx * dvx == advx * advx,
            advx == vstd::math::abs(dvx) as int,
    ;
    // the closest approach collapses algebraically to the cross-track term
    assert(dpx * td + dvx * tn == dpx * (dvy * dvy)) by (nonlinear_arith)
        requires
            td == dvx * dvx + dvy * dvy,
            tn == -(dpx * dvx),
    ;
    assert((dpx * (dvy * dvy)) * (dpx * (dvy * dvy)) + (dvy * tn) * (dvy * tn) == (dpx * dpx) * (
    dvy * dvy) * td) by (nonlinear_arith)
        requires
            td == dvx * dvx + dvy * dvy,
            tn == -(dpx * dvx),
    ;
    assert((dpx * dpx) * (dvy * dvy) < 22500 * td) by (nonlinear_arith)
        requires
            dpx * dpx == g * g,
            g < 15 * (a - 10),
            (a - 10) * (a - 10) <= dvx * dvx,
            -10 <= dvy <= 10,
            td == dvx * dvx + dvy * dvy,
            a >= 40,
            g >= 0,
    ;
    assert((dpx * dpx) * (dvy * dvy) * td < 22500 * (td * td)) by (nonlinear_arith)
        requires
            (dpx * dpx) * (dvy * dvy) < 22500 * td,
            td >= 900,
    ;
    assert(tn * 1000 * (a - 10) <= 1000 * g * td) by (nonlinear_arith)
        requires
            tn == g * vstd::math::abs(dvx),
            a - 10 <= vstd::math::abs(dvx),
            dvx * dvx == advx * advx,
            advx == vstd::math::abs(dvx) as int,
            td == dvx * dvx + dvy * dvy,
            -10 <= dvy <= 10,
            a >= 40,
            g >= 0,
    ;
    // the per-trial time exceeds the gap over the fastest closing speed:
    // with x the noisy speed and c = a + 10 its cap,
    // (x - c) * (c * x - 100) <= 0 rearranges to c * td <= x * (c * c + 100)
    assert((advx - (a + 10)) * ((a + 10) * advx - 100) <= 0) by (nonlinear_arith)
        requires
            a - 10 <= advx <= a + 10,
            a >= 40,
    ;
    assert((a + 10) * td <= advx * ((a + 10) * (a + 10) + 100)) by (nonlinear_arith)
        requires
            (advx - (a + 10)) * ((a + 10) * advx - 100) <= 0,
            td == dvx * dvx + dvy * dvy,
            dvx * dvx == advx * advx,
            -10 <= dvy <= 10,
            a - 10 <= advx,
            a >= 40,
    ;
    assert(1000 * g * (a + 10) * td <= tn * 1000 * ((a + 10) * (a + 10) + 100)) by (nonlinear_arith)
        requires
            tn == g * advx,
            (a + 10) * td <= advx * ((a + 10) * (a + 10) + 100),
            td >= 900,
            g >= 0,
            a >= 40,
            advx >= 30,
    ;
}

/// Trial bounds for the closest-point-of-approach arithmetic: everything
/// stays far inside `i128`.
proof fn lemma_cpa_trial_bounds(dpx: int, dpy: int, dvx: int, dvy: int, tn: int, td: int)
    requires
        -600_000_000 <= dpx <= 600_000_000,
        -600_000_000 <= dpy <= 600_000_000,
        -21_000 <= dvx <= 21_000,
        -21_000 <= dvy <= 21_000,
        1 <= td <= 900_000_000,
        0 < tn < 30 * td,
    ensures
        -1_000_000_000_000_000_000 < dpx * td + dvx * tn < 1_000_000_000_000_000_000,
        -1_000_000_000_000_000_000 < dpy * td + dvy * tn < 1_000_000_000_000_000_000,
{
    lemma_mul_le(dpx, td, 600_000_000, 900_000_000);
    lemma_mul_le(dpy, td, 600_000_000, 900_000_000);
    lemma_mul_le(dvx, tn, 21_000, 27_000_000_000);
    lemma_mul_le(dvy, tn, 21_000, 27_000_000_000);
}

/// With equal velocities the per-trial relative velocity is pure noise, so a
/// pair separated widely enough can never register a hit.
proof fn lemma_far_parallel_no_hit(dpx: int, dpy: int, dvx: int, dvy: int, tn: int, td: int)
    requires
        dpx * dpx + dpy * dpy > 405_000,
        -600_000_000 <= dpx <= 600_000_000,
        -600_000_000 <= dpy <= 600_000_000,
        -10 <= dvx <= 10,
        -10 <= dvy <= 10,
        1 <= td <= 900_000_000,
        0 < tn < 30 * td,
    ensures
        (dpx * td + dvx * tn) * (dpx * td + dvx * tn) + (dpy * td + dvy * tn) * (dpy * td + dvy
            * tn) >= 22801 * (td * td),
{
    lemma_square_nonneg(dpx);
    lemma_square_nonneg(dpy);
    let (a, u, b, w) = if dpx * dpx > 202_500 {
        (dpx, dvx, dpy, dvy)
    } else {
        (dpy, dvy, dpx, dvx)
    };
    assert(a * a > 202_500);
    assert(a <= -451 || a >= 451) by (nonlinear_arith)
        requires
            a * a > 202_500,
    ;
    lemma_square_nonneg(b * td + w * tn);
    assert((a * td + u * tn) * (a * td + u * tn) >= 22801 * (td * td)) by (nonlinear_arith)
        requires
            a <= -451 || a >= 451,
            -10 <= u <= 10,
            1 <= td,
            0 < tn < 30 * td,
    ;
}

/// Number of occurrences of an id in a bucket.
pub open spec fn occurrences(s: Seq<Seq<char>>, x: Seq<char>) -> nat
    decreases s.len(),
{
    if s.len() == 0 {
        0
    } else {
        occurrences(s.drop_last(), x) + (if s.last() == x {
            1nat
        } else {
            0nat
        })
    }
}

pub proof fn lemma_occ_push(s: Seq<Seq<char>>, x: Seq<char>, y: Seq<char>)
    ensures
        occurrences(s.push(y), x) == occurrences(s, x) + (if y == x {
            1int
        } else {
            0int
        }),
{
    assert(s.push(y).drop_last() =~= s);
}

pub proof fn lemma_occ_contains(s: Seq<Seq<char>>, x: Seq<char>)
    ensures
        (occurrences(s, x) == 0) <==> !s.contains(x),
    decreases s.len(),
{
    if s.len() > 0 {
        lemma_occ_contains(s.drop_last(), x);
        if occurrences(s, x) == 0 {
            assert forall|i: int| 0 <= i < s.len() implies s[i] != x by {
                if i < s.len() - 1 {
                    assert(s.drop_last()[i] == s[i]);
                    assert(!s.drop_last().contains(x));
                }
            }
        } else {
            if occurrences(s.drop_last(), x) > 0 {
                let w = choose|w: int| 0 <= w < s.drop_last().len() && s.drop_last()[w] == x;
                assert(s[w] == x);
            } else {
                assert(s[s.len() - 1] == x);
            }
        }
    }
}

/// The order is irreflexive.
pub proof fn lemma_lex_irrefl(a: Seq<char>)
    ensures
        !lex_lt(a, a),
    decreases a.len(),
{
    if a.len() > 0 {
        lemma_lex_irrefl(a.drop_first());
    }
}

/// Positions closer than one cell edge land in the same or an adjacent
/// grid column (and row).
proof fn lemma_cell_close(x1: int, x2: int, s: int)
    requires
        s >= 1,
        -(s - 1) <= x1 - x2 <= s - 1,
    ensures
        -1 <= x1 / s - x2 / s <= 1,
{
    vstd::arithmetic::div_mod::lemma_fundamental_div_mod(x1, s);
    vstd::arithmetic::div_mod::lemma_fundamental_div_mod(x2, s);
    let c1 = x1 / s;
    let c2 = x2 / s;
    let r1 = x1 % s;
    let r2 = x2 % s;
    assert(s * (c1 - c2) == (x1 - x2) - (r1 - r2)) by (nonlinear_arith)
        requires
            x1 == s * c1 + r1,
            x2 == s * c2 + r2,
    ;
    assert(-1 <= c1 - c2 <= 1) by (nonlinear_arith)
        requires
            s * (c1 - c2) == (x1 - x2) - (r1 - r2),
            -(s - 1) <= x1 - x2 <= s - 1,
            0 <= r1 < s,
            0 <= r2 < s,
            s >= 1,
    ;
}

/// A record about the given pair, carrying the given values, is in the map.
pub open spec fn pair_recorded(
    recs: Seq<CollisionRecord>,
    a: Seq<char>,
    b: Seq<char>,
    risk: u32,
    tti: Option<u64>,
) -> bool {
    exists|k: int|
        0 <= k < recs.len() && (#[trigger] recs[k]).id_a@ == a && recs[k].id_b@ == b
            && recs[k].risk_permille == risk && recs[k].tti_ms == tti
}

/// A record about the given pair, carrying full risk and an impact time
/// inside the given bounds, is in the map.
pub open spec fn pair_recorded_range(
    recs: Seq<CollisionRecord>,
    a: Seq<char>,
    b: Seq<char>,
    lo: int,
    hi: int,
) -> bool {
    exists|k: int|
        0 <= k < recs.len() && (#[trigger] recs[k]).id_a@ == a && recs[k].id_b@ == b
            && recs[k].risk_permille == 1000 && recs[k].tti_ms is Some && lo <= recs[k].tti_ms->0
            <= hi
}

/// Some record about the given pair is in the map.
pub open spec fn pair_in(recs: Seq<CollisionRecord>, a: Seq<char>, b: Seq<char>) -> bool {
    exists|k: int|
        0 <= k < recs.len() && (#[trigger] recs[k]).id_a@ == a && recs[k].id_b@ == b
}

/// No two records describe the same pair.
pub open spec fn pairs_unique(recs: Seq<CollisionRecord>) -> bool {
    forall|k1: int, k2: int|
        0 <= k1 < k2 < recs.len() ==> !((#[trigger] recs[k1]).id_a@ == (
        #[trigger] recs[k2]).id_a@ && recs[k1].id_b@ == recs[k2].id_b@)
}

/// Records the pair unless a record for it already exists (each pair is
/// evaluated once per sweep, so the choice cannot show).
fn insert_new_record(records: &mut Vec<CollisionRecord>, rec: CollisionRecord)
    requires
        rec.wf(),
        pairs_unique(old(records)@),
        forall|k: int| 0 <= k < old(records)@.len() ==> (#[trigger] old(records)@[k]).wf(),
    ensures
        pairs_unique(final(records)@),
        forall|k: int| 0 <= k < final(records)@.len() ==> (#[trigger] final(records)@[k]).wf(),
        final(records)@.len() >= old(records)@.len(),
        forall|k: int|
            0 <= k < old(records)@.len() ==> #[trigger] final(records)@[k] == old(records)@[k],
        pair_in(final(records)@, rec.id_a@, rec.id_b@),
        !pair_in(old(records)@, rec.id_a@, rec.id_b@) ==> final(records)@ == old(
            records,
        )@.push(rec),
        pair_in(old(records)@, rec.id_a@, rec.id_b@) ==> final(records)@ == old(records)@,
{
    let n = records.len();
    for k in 0..n
        invariant
            n == records@.len(),
            records@ == old(records)@,
            rec.wf(),
            pairs_unique(old(records)@),
            forall|k2: int| 0 <= k2 < old(records)@.len() ==> (#[trigger] old(records)@[k2]).wf(),
            forall|k2: int|
                0 <= k2 < k ==> !((#[trigger] records@[k2]).id_a@ == rec.id_a@
                    && records@[k2].id_b@ == rec.id_b@),
    {
        if records[k].id_a == rec.id_a && records[k].id_b == rec.id_b {
            proof {
                assert(pair_in(records@, rec.id_a@, rec.id_b@));
            }
            return ;
        }
    }
    proof {
        if pair_in(records@, rec.id_a@, rec.id_b@) {
            let w = choose|w: int|
                0 <= w < records@.len() && (#[trigger] records@[w]).id_a@ == rec.id_a@
                    && records@[w].id_b@ == rec.id_b@;
            assert(false);
        }
    }
    let ghost old_seq = records@;
    records.push(rec);
    proof {
        assert(records@[records@.len() - 1] == rec);
        assert(pair_in(records@, rec.id_a@, rec.id_b@));
    }
}

/// Adds an id to the list unless it is already present./// Adds an id to the list unless it is already present.
fn add_unique(list: &mut Vec<String>, id: &String)
    ensures
        final(list).deep_view().contains(id@),
        forall|x: Seq<char>|
            #[trigger] final(list).deep_view().contains(x) <==> (old(list).deep_view().contains(x)
                || x == id@),
{
    let n = list.len();
    for k in 0..n
        invariant
            n == list@.len(),
            list@ == old(list)@,
            forall|j: int| 0 <= j < k ==> list.deep_view()[j] != id@,
    {
        proof {
            assert(list.deep_view()[k as int] == list@[k as int]@);
        }
        if list[k] == *id {
            proof {
                assert(list.deep_view().contains(id@));
            }
            return ;
        }
    }
    let ghost old_dv = list.deep_view();
    list.push(id.clone());
    proof {
        assert(list.deep_view() =~= old_dv.push(id@));
        assert(list.deep_view()[list.deep_view().len() - 1] == id@);
        assert forall|x: Seq<char>|
            #[trigger] list.deep_view().contains(x) <==> (old_dv.contains(x) || x == id@) by {
            if list.deep_view().contains(x) {
                let w = choose|w: int|
                    0 <= w < list.deep_view().len() && list.deep_view()[w] == x;
                if w < old_dv.len() {
                    assert(old_dv[w] == x);
                }
            }
            if old_dv.contains(x) {
                let w = choose|w: int| 0 <= w < old_dv.len() && old_dv[w] == x;
                assert(list.deep_view()[w] == x);
            }
        }
    }
}

/// An id found in one of the first `n` neighborhood cells occurs in the
/// gathered neighbor sequence.
proof fn lemma_nearby_prefix_contains(
    g: SpatialGrid,
    ex: Seq<char>,
    center: GridCoord,
    m: int,
    n: int,
    x: Seq<char>,
)
    requires
        0 <= m < n <= 9,
        remove_id(g.spec_bucket(nearby_cell(center, m)), ex).contains(x),
    ensures
        g.spec_nearby_prefix(ex, center, n).contains(x),
    decreases n,
{
    let pre = g.spec_nearby_prefix(ex, center, n - 1);
    let part = remove_id(g.spec_bucket(nearby_cell(center, n - 1)), ex);
    if m == n - 1 {
        let w = choose|w: int| 0 <= w < part.len() && part[w] == x;
        assert(g.spec_nearby_prefix(ex, center, n)[pre.len() + w] == x);
    } else {
        lemma_nearby_prefix_contains(g, ex, center, m, n - 1, x);
        let w = choose|w: int| 0 <= w < pre.len() && pre[w] == x;
        assert(g.spec_nearby_prefix(ex, center, n)[w] == x);
    }
}

/// One row of the ranked alert table.
pub struct AlertEntry {
    pub id_a: String,
    pub id_b: String,
    pub distance_m: u64,
    pub altitude: i64,
    pub tti_ms: Option<u64>,
    pub risk_permille: u32,
    pub urgency: u64,
}

/// Fixed-point urgency `risk / (tti * max(dist, 1))`, scaled by 10^9; an
/// absent time to impact counts as one second, a zero one as the millisecond
/// floor.
pub open spec fn urgency_of(risk: u32, tti: Option<u64>, dist: u64) -> int {
    let t: int = match tti {
        Some(v) => if v >= 1 {
            v as int
        } else {
            1
        },
        None => 1000,
    };
    let d: int = if dist >= 1 {
        dist as int
    } else {
        1
    };
    (risk * 1_000_000_000) / (t * d)
}

/// A candidate pool for the alert table: one entry per collision record
/// with two live endpoints, each mirroring its record, no pair twice.
pub open spec fn alert_pool(m: SimManager, cands: Seq<AlertEntry>) -> bool {
    &&& forall|a: int| 0 <= a < cands.len() ==> alert_matches(m, #[trigger] cands[a])
    &&& forall|k: int|
        0 <= k < m.spec_collisions().len() && m.has_track(
            (#[trigger] m.spec_collisions()[k]).id_a@,
        ) && m.has_track(m.spec_collisions()[k].id_b@) ==> exists|a: int|
            0 <= a < cands.len() && (#[trigger] cands[a]).id_a@ == m.spec_collisions()[k].id_a@
                && cands[a].id_b@ == m.spec_collisions()[k].id_b@
    &&& forall|a1: int, a2: int|
        0 <= a1 < a2 < cands.len() ==> !((#[trigger] cands[a1]).id_a@ == (
        #[trigger] cands[a2]).id_a@ && cands[a1].id_b@ == cands[a2].id_b@)
}

/// Non-increasing order under the chosen key.
pub open spec fn alerts_sorted(s: Seq<AlertEntry>, by_urgency: bool) -> bool {
    forall|a: int, b: int|
        0 <= a < b < s.len() ==> alert_key(#[trigger] s[a], by_urgency) >= alert_key(
            #[trigger] s[b],
            by_urgency,
        )
}

/// The leading `n` entries, or all of them when fewer exist.
pub open spec fn lead(s: Seq<AlertEntry>, n: int) -> Seq<AlertEntry> {
    if s.len() <= n {
        s
    } else {
        s.subrange(0, n)
    }
}

/// The entry mirrors a collision record between two live tracks of the
/// engine: copied pair and risk data, the current ground distance, and the
/// exact fixed-point urgency.
pub open spec fn alert_matches(m: SimManager, e: AlertEntry) -> bool {
    &&& exists|k: int|
        0 <= k < m.spec_collisions().len() && (#[trigger] m.spec_collisions()[k]).id_a@ == e.id_a@
            && m.spec_collisions()[k].id_b@ == e.id_b@ && m.spec_collisions()[k].risk_permille
            == e.risk_permille && m.spec_collisions()[k].tti_ms == e.tti_ms
    &&& m.has_track(e.id_a@)
    &&& m.has_track(e.id_b@)
    &&& e.altitude == m.track_at(e.id_a@).altitude
    &&& e.distance_m * e.distance_m <= (m.track_at(e.id_a@).position.spec_sub(
        m.track_at(e.id_b@).position,
    )).spec_length_sq() < (e.distance_m + 1) * (e.distance_m + 1)
    &&& e.urgency == urgency_of(e.risk_permille, e.tti_ms, e.distance_m)
}

/// The sort key: reporting risk first, display urgency second.
pub open spec fn alert_key(e: AlertEntry, by_urgency: bool) -> int {
    if by_urgency {
        e.urgency as int
    } else {
        e.risk_permille as int
    }
}

/// Selection sort, descending by the chosen key: the output is a permutation
/// of the input in non-increasing key order.
fn sort_alerts_desc(input: Vec<AlertEntry>, by_urgency: bool) -> (out: Vec<AlertEntry>)
    ensures
        out@.to_multiset() == input@.to_multiset(),
        out@.len() == input@.len(),
        forall|a: int, b: int|
            0 <= a < b < out@.len() ==> alert_key(#[trigger] out@[a], by_urgency) >= alert_key(
                #[trigger] out@[b],
                by_urgency,
            ),
{
    broadcast use vstd::seq_lib::group_to_multiset_ensures;

    let mut rest = input;
    let mut out: Vec<AlertEntry> = Vec::new();
    let ghost input_ms = rest@.to_multiset();
    proof {
        assert(out@.to_multiset() =~= Multiset::<AlertEntry>::empty());
    }
    while rest.len() > 0
        invariant
            out@.to_multiset().add(rest@.to_multiset()) =~= input_ms,
            out@.len() + rest@.len() == input_ms.len(),
            forall|a: int, b: int|
                0 <= a < b < out@.len() ==> alert_key(#[trigger] out@[a], by_urgency) >= alert_key(
                    #[trigger] out@[b],
                    by_urgency,
                ),
            forall|a: int|
                0 <= a < rest@.len() && out@.len() > 0 ==> alert_key(
                    #[trigger] rest@[a],
                    by_urgency,
                ) <= alert_key(out@[out@.len() - 1], by_urgency),
        decreases rest@.len(),
    {
        broadcast use vstd::seq_lib::group_to_multiset_ensures;

        let n = rest.len();
        let mut mx: usize = 0;
        let mut best: u64 = if by_urgency {
            rest[0].urgency
        } else {
            rest[0].risk_permille as u64
        };
        for t in 1..n
            invariant
                n == rest@.len(),
                mx < t <= n,
                best == alert_key(rest@[mx as int], by_urgency),
                forall|a: int| 0 <= a < t ==> alert_key(#[trigger] rest@[a], by_urgency) <= best,
        {
            let key_t: u64 = if by_urgency {
                rest[t].urgency
            } else {
                rest[t].risk_permille as u64
            };
            if key_t > best {
                mx = t;
                best = key_t;
            }
        }
        let ghost pre_rest = rest@;
        let ghost pre_out = out@;
        let picked = rest.remove(mx);
        out.push(picked);
        proof {
            assert(rest@.to_multiset() =~= pre_rest.to_multiset().remove(picked));
            assert(out@.to_multiset() =~= pre_out.to_multiset().insert(picked));
            assert(out@.to_multiset().add(rest@.to_multiset()) =~= pre_out.to_multiset().add(
                pre_rest.to_multiset(),
            ));
            assert(pre_rest.to_multiset().count(picked) > 0);
            assert forall|a: int|
                0 <= a < rest@.len() implies alert_key(#[trigger] rest@[a], by_urgency)
                <= alert_key(out@[out@.len() - 1], by_urgency) by {
                if a < mx {
                    assert(rest@[a] == pre_rest[a]);
                } else {
                    assert(rest@[a] == pre_rest[a + 1]);
                }
            }
        }
    }
    out
}

/// The two rankings and truncations deliver exactly the ten most urgent of
/// the twenty highest-risk pool entries, every row mirroring a live record,
/// and, when at most ten records exist, every live pair.
#[verifier::rlimit(30)]
proof fn lemma_alert_rankings(
    m: SimManager,
    all: Seq<AlertEntry>,
    sorted1: Seq<AlertEntry>,
    top: Seq<AlertEntry>,
    sorted2: Seq<AlertEntry>,
    fin: Seq<AlertEntry>,
)
    requires
        alert_pool(m, all),
        all.len() <= m.spec_collisions().len(),
        sorted1.to_multiset() == all.to_multiset(),
        sorted1.len() == all.len(),
        alerts_sorted(sorted1, false),
        20 <= sorted1.len() ==> top == sorted1.subrange(0, 20),
        20 > sorted1.len() ==> top == sorted1,
        sorted2.to_multiset() == top.to_multiset(),
        sorted2.len() == top.len(),
        alerts_sorted(sorted2, true),
        10 <= sorted2.len() ==> fin == sorted2.subrange(0, 10),
        10 > sorted2.len() ==> fin == sorted2,
    ensures
        fin.len() <= 10,
        forall|a: int, b: int|
            0 <= a < b < fin.len() ==> (#[trigger] fin[a]).urgency >= (#[trigger] fin[b]).urgency,
        forall|a: int| 0 <= a < fin.len() ==> alert_matches(m, #[trigger] fin[a]),
        top == lead(sorted1, 20),
        fin == lead(sorted2, 10),
        m.spec_collisions().len() <= 10 ==> forall|k: int|
            0 <= k < m.spec_collisions().len() && m.has_track(
                (#[trigger] m.spec_collisions()[k]).id_a@,
            ) && m.has_track(m.spec_collisions()[k].id_b@) ==> exists|a: int|
                0 <= a < fin.len() && (#[trigger] fin[a]).id_a@ == m.spec_collisions()[k].id_a@
                    && fin[a].id_b@ == m.spec_collisions()[k].id_b@,
{
    if 20 <= sorted1.len() {
        lemma_prefix_counts(sorted1, 20);
    } else {
        lemma_prefix_counts(sorted1, sorted1.len() as int);
        assert(sorted1.subrange(0, sorted1.len() as int) =~= sorted1);
    }
    lemma_alerts_from(m, all, top);
    if 10 <= sorted2.len() {
        lemma_prefix_counts(sorted2, 10);
    } else {
        lemma_prefix_counts(sorted2, sorted2.len() as int);
        assert(sorted2.subrange(0, sorted2.len() as int) =~= sorted2);
    }
    lemma_alerts_from(m, top, fin);
    assert forall|a: int, b: int|
        0 <= a < b < fin.len() implies (#[trigger] fin[a]).urgency >= (
    #[trigger] fin[b]).urgency by {
        assert(fin[a] == sorted2[a]);
        assert(fin[b] == sorted2[b]);
        assert(alert_key(sorted2[a], true) >= alert_key(sorted2[b], true));
    }
    assert(top == lead(sorted1, 20)) by {
        if sorted1.len() <= 20 {
            assert(sorted1.subrange(0, sorted1.len() as int) =~= sorted1);
        }
    }
    assert(fin == lead(sorted2, 10)) by {
        if sorted2.len() <= 10 {
            assert(sorted2.subrange(0, sorted2.len() as int) =~= sorted2);
        }
    }
    // when ten or fewer records exist neither truncation fires, so the two
    // permutations keep every candidate pair
    if m.spec_collisions().len() <= 10 {
        assert(sorted1.len() <= 20 && sorted2.len() <= 10);
        assert(top == sorted1 && fin == sorted2) by {
            assert(sorted1.subrange(0, sorted1.len() as int) =~= sorted1);
            assert(sorted2.subrange(0, sorted2.len() as int) =~= sorted2);
        }
        assert forall|k: int|
            0 <= k < m.spec_collisions().len() && m.has_track(
                (#[trigger] m.spec_collisions()[k]).id_a@,
            ) && m.has_track(m.spec_collisions()[k].id_b@) implies exists|a: int|
            0 <= a < fin.len() && (#[trigger] fin[a]).id_a@ == m.spec_collisions()[k].id_a@
                && fin[a].id_b@ == m.spec_collisions()[k].id_b@ by {
            broadcast use vstd::seq_lib::group_to_multiset_ensures;

            let a0 = choose|a0: int|
                0 <= a0 < all.len() && (#[trigger] all[a0]).id_a@ == m.spec_collisions()[k].id_a@
                    && all[a0].id_b@ == m.spec_collisions()[k].id_b@;
            let e = all[a0];
            assert(all.contains(e));
            assert(all.to_multiset().count(e) > 0);
            assert(sorted1.to_multiset().count(e) > 0);
            assert(sorted1.contains(e));
            assert(sorted2.to_multiset().count(e) > 0);
            assert(sorted2.contains(e));
            let a = choose|a: int| 0 <= a < sorted2.len() && sorted2[a] == e;
        }
    }
}

/// A prefix never holds more copies of an entry than the whole sequence.
proof fn lemma_prefix_counts(s: Seq<AlertEntry>, n: int)
    requires
        0 <= n <= s.len(),
    ensures
        forall|e: AlertEntry|
            s.subrange(0, n).to_multiset().count(e) <= #[trigger] s.to_multiset().count(e),
{
    assert(s =~= s.subrange(0, n) + s.skip(n));
    vstd::seq_lib::lemma_multiset_commutative(s.subrange(0, n), s.skip(n));
}

/// A permuted-then-truncated alert list keeps the record correspondence.
proof fn lemma_alerts_from(m: SimManager, src: Seq<AlertEntry>, dst: Seq<AlertEntry>)
    requires
        forall|a: int| 0 <= a < src.len() ==> alert_matches(m, #[trigger] src[a]),
        forall|e: AlertEntry| dst.to_multiset().count(e) <= src.to_multiset().count(e),
    ensures
        forall|a: int| 0 <= a < dst.len() ==> alert_matches(m, #[trigger] dst[a]),
{
    broadcast use vstd::seq_lib::group_to_multiset_ensures;

    assert forall|a: int| 0 <= a < dst.len() implies alert_matches(m, #[trigger] dst[a]) by {
        assert(dst.contains(dst[a]));
        assert(dst.to_multiset().count(dst[a]) > 0);
        assert(src.to_multiset().count(dst[a]) > 0);
        assert(src.contains(dst[a]));
        let w = choose|w: int| 0 <= w < src.len() && src[w] == dst[a];
    }
}

/// Saturating age of a timestamp at time `now`.
pub open spec fn sat_age(now: u64, seen: u64) -> int {
    if now >= seen {
        now - seen
    } else {
        0
    }
}

/// A track survives a prune: not blacklisted, seen recently enough, and
/// within `scale` of the center.
pub open spec fn keep_track(
    e: (String, Aircraft),
    bl: Seq<Seq<char>>,
    max_age_ms: u64,
    center: Vector2D,
    scale: u64,
    now: u64,
) -> bool {
    &&& !bl.contains(e.0@)
    &&& sat_age(now, e.1.last_seen) < max_age_ms
    &&& (e.1.position.spec_sub(center)).spec_length_sq() < scale * scale
}

/// The subsequence of tracks that survive a prune, in order.
pub open spec fn kept_tracks(
    s: Seq<(String, Aircraft)>,
    bl: Seq<Seq<char>>,
    max_age_ms: u64,
    center: Vector2D,
    scale: u64,
    now: u64,
) -> Seq<(String, Aircraft)>
    decreases s.len(),
{
    if s.len() == 0 {
        Seq::empty()
    } else {
        let rest = kept_tracks(s.drop_last(), bl, max_age_ms, center, scale, now);
        if keep_track(s.last(), bl, max_age_ms, center, scale, now) {
            rest.push(s.last())
        } else {
            rest
        }
    }
}

/// Every survivor satisfies the retention predicate and occurs in the
/// original sequence.
pub proof fn lemma_kept_tracks_sub(
    s: Seq<(String, Aircraft)>,
    bl: Seq<Seq<char>>,
    max_age_ms: u64,
    center: Vector2D,
    scale: u64,
    now: u64,
)
    ensures
        kept_tracks(s, bl, max_age_ms, center, scale, now).len() <= s.len(),
        forall|i: int|
            0 <= i < kept_tracks(s, bl, max_age_ms, center, scale, now).len() ==> keep_track(
                #[trigger] kept_tracks(s, bl, max_age_ms, center, scale, now)[i],
                bl,
                max_age_ms,
                center,
                scale,
                now,
            ) && s.contains(kept_tracks(s, bl, max_age_ms, center, scale, now)[i]),
    decreases s.len(),
{
    if s.len() > 0 {
        lemma_kept_tracks_sub(s.drop_last(), bl, max_age_ms, center, scale, now);
        let ks = kept_tracks(s, bl, max_age_ms, center, scale, now);
        let rest = kept_tracks(s.drop_last(), bl, max_age_ms, center, scale, now);
        assert forall|i: int|
            0 <= i < ks.len() implies keep_track(
            #[trigger] ks[i],
            bl,
            max_age_ms,
            center,
            scale,
            now,
        ) && s.contains(ks[i]) by {
            if i < rest.len() {
                assert(ks[i] == rest[i]);
                let w = choose|w: int|
                    0 <= w < s.drop_last().len() && s.drop_last()[w] == rest[i];
                assert(s[w] == ks[i]);
            } else {
                assert(ks[i] == s.last());
                assert(s[s.len() - 1] == ks[i]);
            }
        }
    }
}

/// When every track survives, the prune keeps the sequence unchanged.
pub proof fn lemma_kept_tracks_all(
    s: Seq<(String, Aircraft)>,
    bl: Seq<Seq<char>>,
    max_age_ms: u64,
    center: Vector2D,
    scale: u64,
    now: u64,
)
    requires
        forall|i: int|
            0 <= i < s.len() ==> keep_track(#[trigger] s[i], bl, max_age_ms, center, scale, now),
    ensures
        kept_tracks(s, bl, max_age_ms, center, scale, now) == s,
    decreases s.len(),
{
    if s.len() > 0 {
        lemma_kept_tracks_all(s.drop_last(), bl, max_age_ms, center, scale, now);
        assert(keep_track(s[s.len() - 1], bl, max_age_ms, center, scale, now));
        assert(kept_tracks(s, bl, max_age_ms, center, scale, now) =~= s.drop_last().push(
            s.last(),
        ));
        assert(s.drop_last().push(s.last()) =~= s);
    }
}

/// Survivors of a prune keep distinct ids when the originals had them.
pub proof fn lemma_kept_tracks_unique(
    s: Seq<(String, Aircraft)>,
    bl: Seq<Seq<char>>,
    max_age_ms: u64,
    center: Vector2D,
    scale: u64,
    now: u64,
    a: int,
    b: int,
)
    requires
        forall|i: int, j: int| 0 <= i < j < s.len() ==> (#[trigger] s[i]).0@ != (#[trigger] s[j]).0@,
        0 <= a < b < kept_tracks(s, bl, max_age_ms, center, scale, now).len(),
    ensures
        kept_tracks(s, bl, max_age_ms, center, scale, now)[a].0@ != kept_tracks(
            s,
            bl,
            max_age_ms,
            center,
            scale,
            now,
        )[b].0@,
    decreases s.len(),
{
    let ks = kept_tracks(s, bl, max_age_ms, center, scale, now);
    let rest = kept_tracks(s.drop_last(), bl, max_age_ms, center, scale, now);
    assert forall|i: int, j: int|
        0 <= i < j < s.drop_last().len() implies (#[trigger] s.drop_last()[i]).0@ != (
    #[trigger] s.drop_last()[j]).0@ by {
        assert(s.drop_last()[i] == s[i]);
        assert(s.drop_last()[j] == s[j]);
    }
    if b < rest.len() {
        lemma_kept_tracks_unique(s.drop_last(), bl, max_age_ms, center, scale, now, a, b);
    } else {
        // b is the last element, freshly appended from s.last()
        assert(ks[b] == s.last());
        lemma_kept_tracks_sub(s.drop_last(), bl, max_age_ms, center, scale, now);
        assert(ks[a] == rest[a]);
        assert(s.drop_last().contains(rest[a]));
        let w = choose|w: int| 0 <= w < s.drop_last().len() && s.drop_last()[w] == rest[a];
        assert(s[w] == rest[a]);
        assert(s[w].0@ != s[s.len() - 1].0@);
    }
}

/// A collision record survives a prune when both endpoints still have
/// tracks.
pub open spec fn keep_rec(rec: CollisionRecord, tracks: Seq<(String, Aircraft)>) -> bool {
    find_track(tracks, rec.id_a@) >= 0 && find_track(tracks, rec.id_b@) >= 0
}

/// The subsequence of collision records whose endpoints survive, in order.
pub open spec fn kept_recs(
    recs: Seq<CollisionRecord>,
    tracks: Seq<(String, Aircraft)>,
) -> Seq<CollisionRecord>
    decreases recs.len(),
{
    if recs.len() == 0 {
        Seq::empty()
    } else {
        let rest = kept_recs(recs.drop_last(), tracks);
        if keep_rec(recs.last(), tracks) {
            rest.push(recs.last())
        } else {
            rest
        }
    }
}

pub proof fn lemma_kept_recs_sub(recs: Seq<CollisionRecord>, tracks: Seq<(String, Aircraft)>)
    ensures
        kept_recs(recs, tracks).len() <= recs.len(),
        forall|i: int|
            0 <= i < kept_recs(recs, tracks).len() ==> keep_rec(
                #[trigger] kept_recs(recs, tracks)[i],
                tracks,
            ) && recs.contains(kept_recs(recs, tracks)[i]),
    decreases recs.len(),
{
    if recs.len() > 0 {
        lemma_kept_recs_sub(recs.drop_last(), tracks);
        let ks = kept_recs(recs, tracks);
        let rest = kept_recs(recs.drop_last(), tracks);
        assert forall|i: int|
            0 <= i < ks.len() implies keep_rec(#[trigger] ks[i], tracks) && recs.contains(
            ks[i],
        ) by {
            if i < rest.len() {
                assert(ks[i] == rest[i]);
                let w = choose|w: int|
                    0 <= w < recs.drop_last().len() && recs.drop_last()[w] == rest[i];
                assert(recs[w] == ks[i]);
            } else {
                assert(ks[i] == recs.last());
                assert(recs[recs.len() - 1] == ks[i]);
            }
        }
    }
}

/// Survivors of a record prune keep distinct pairs when the originals had
/// them.
pub proof fn lemma_kept_recs_unique(
    recs: Seq<CollisionRecord>,
    tracks: Seq<(String, Aircraft)>,
    a: int,
    b: int,
)
    requires
        pairs_unique(recs),
        0 <= a < b < kept_recs(recs, tracks).len(),
    ensures
        !(kept_recs(recs, tracks)[a].id_a@ == kept_recs(recs, tracks)[b].id_a@ && kept_recs(
            recs,
            tracks,
        )[a].id_b@ == kept_recs(recs, tracks)[b].id_b@),
    decreases recs.len(),
{
    let ks = kept_recs(recs, tracks);
    let rest = kept_recs(recs.drop_last(), tracks);
    assert forall|i: int, j: int|
        0 <= i < j < recs.drop_last().len() implies !((#[trigger] recs.drop_last()[i]).id_a@ == (
        #[trigger] recs.drop_last()[j]).id_a@ && recs.drop_last()[i].id_b@
            == recs.drop_last()[j].id_b@) by {
        assert(recs.drop_last()[i] == recs[i]);
        assert(recs.drop_last()[j] == recs[j]);
    }
    if b < rest.len() {
        lemma_kept_recs_unique(recs.drop_last(), tracks, a, b);
    } else {
        assert(ks[b] == recs.last());
        lemma_kept_recs_sub(recs.drop_last(), tracks);
        assert(ks[a] == rest[a]);
        assert(recs.drop_last().contains(rest[a]));
        let w = choose|w: int| 0 <= w < recs.drop_last().len() && recs.drop_last()[w] == rest[a];
        assert(recs[w] == rest[a]);
        assert(!(recs[w].id_a@ == recs[recs.len() - 1].id_a@ && recs[w].id_b@ == recs[recs.len()
            - 1].id_b@));
    }
}

pub proof fn lemma_kept_recs_all(recs: Seq<CollisionRecord>, tracks: Seq<(String, Aircraft)>)
    requires
        forall|i: int| 0 <= i < recs.len() ==> keep_rec(#[trigger] recs[i], tracks),
    ensures
        kept_recs(recs, tracks) == recs,
    decreases recs.len(),
{
    if recs.len() > 0 {
        lemma_kept_recs_all(recs.drop_last(), tracks);
        assert(keep_rec(recs[recs.len() - 1], tracks));
        assert(kept_recs(recs, tracks) =~= recs.drop_last().push(recs.last()));
        assert(recs.drop_last().push(recs.last()) =~= recs);
    }
}

/// What `SimManager::prune` does: blacklisted, stale and far tracks leave,
/// the blacklist is cleared, and dangling collision records are dropped.
pub open spec fn sm_prune_rel(
    pre: SimManager,
    post: SimManager,
    max_age_ms: u64,
    center: Vector2D,
    now: u64,
) -> bool {
    &&& post.spec_tracks() == kept_tracks(
        pre.spec_tracks(),
        pre.spec_blacklist(),
        max_age_ms,
        center,
        pre.spec_scale(),
        now,
    )
    &&& post.spec_blacklist() == Seq::<Seq<char>>::empty()
    &&& post.spec_collisions() == kept_recs(pre.spec_collisions(), post.spec_tracks())
    &&& post.spec_grid() == pre.spec_grid()
    &&& post.spec_scale() == pre.spec_scale()
    &&& post.spec_radar_range_sq() == pre.spec_radar_range_sq()
    &&& post.spec_pairs_checked() == pre.spec_pairs_checked()
}

/// Pruning the engine is idempotent: a second prune with unchanged inputs
/// leaves the whole observable state (tracks, collision map, blacklist,
/// grid, configuration) unchanged.
pub proof fn lemma_sm_prune_idempotent(
    s1: SimManager,
    s2: SimManager,
    s3: SimManager,
    max_age_ms: u64,
    center: Vector2D,
    now: u64,
)
    requires
        sm_prune_rel(s1, s2, max_age_ms, center, now),
        sm_prune_rel(s2, s3, max_age_ms, center, now),
    ensures
        s3.spec_tracks() == s2.spec_tracks(),
        s3.spec_collisions() == s2.spec_collisions(),
        s3.spec_blacklist() == s2.spec_blacklist(),
        s3.spec_grid() == s2.spec_grid(),
        s3.spec_scale() == s2.spec_scale(),
        s3.spec_radar_range_sq() == s2.spec_radar_range_sq(),
        s3.spec_pairs_checked() == s2.spec_pairs_checked(),
{
    lemma_kept_tracks_sub(
        s1.spec_tracks(),
        s1.spec_blacklist(),
        max_age_ms,
        center,
        s1.spec_scale(),
        now,
    );
    // every survivor still passes the test against the now-empty blacklist
    assert forall|i: int|
        0 <= i < s2.spec_tracks().len() implies keep_track(
        #[trigger] s2.spec_tracks()[i],
        s2.spec_blacklist(),
        max_age_ms,
        center,
        s2.spec_scale(),
        now,
    ) by {
        assert(keep_track(
            s2.spec_tracks()[i],
            s1.spec_blacklist(),
            max_age_ms,
            center,
            s1.spec_scale(),
            now,
        ));
    }
    lemma_kept_tracks_all(
        s2.spec_tracks(),
        s2.spec_blacklist(),
        max_age_ms,
        center,
        s2.spec_scale(),
        now,
    );
    assert(s3.spec_tracks() == s2.spec_tracks());
    lemma_kept_recs_sub(s1.spec_collisions(), s2.spec_tracks());
    assert forall|i: int|
        0 <= i < s2.spec_collisions().len() implies keep_rec(
        #[trigger] s2.spec_collisions()[i],
        s3.spec_tracks(),
    ) by {
        assert(keep_rec(s2.spec_collisions()[i], s2.spec_tracks()));
    }
    lemma_kept_recs_all(s2.spec_collisions(), s3.spec_tracks());
}

/// One productive sweep step re-establishes every invariant of the
/// neighbor loop: after recording the pair for the current neighbor (and
/// blacklisting both ids when the pair sits inside the collision radius),
/// consistency, provenance, certainty values and the presence facts all
/// carry from the pre-state to the post-state.
#[verifier::rlimit(20)]
proof fn lemma_sweep_step(
    base: SimManager,
    pre: SimManager,
    cur: SimManager,
    pre_out: Seq<CollisionRecord>,
    out: Seq<CollisionRecord>,
    rec: CollisionRecord,
    i: int,
    jj: int,
    dv: Seq<Seq<char>>,
    close: bool,
)
    requires
        base.wf(),
        0 <= i < base.spec_tracks().len(),
        0 <= jj < dv.len(),
        rec.id_a@ == base.spec_tracks()[i].0@,
        rec.id_b@ == dv[jj],
        rec.wf(),
        base.rec_consistent(rec),
        base.spec_tracks()[i].1.position.spec_length_sq() <= base.spec_radar_range_sq(),
        base.track_at(rec.id_a@) == base.spec_tracks()[i].1,
        base.rec_close(rec) == close,
        // the record store after a first-wins insert of `rec`
        out.len() >= pre_out.len(),
        forall|k: int| 0 <= k < pre_out.len() ==> #[trigger] out[k] == pre_out[k],
        pair_in(out, rec.id_a@, rec.id_b@),
        !pair_in(pre_out, rec.id_a@, rec.id_b@) ==> out == pre_out.push(rec),
        pair_in(pre_out, rec.id_a@, rec.id_b@) ==> out == pre_out,
        // the blacklist after adding both ids of a close pair
        close ==> forall|x: Seq<char>|
            #[trigger] cur.blacklisted(x) <==> (pre.blacklisted(x) || x == rec.id_a@ || x
                == rec.id_b@),
        !close ==> forall|x: Seq<char>| #[trigger] cur.blacklisted(x) == pre.blacklisted(x),
        // the recorded value is the certain one whenever the pair is certain
        forall|j2: int|
            base.sure_pair(i, j2) && (#[trigger] base.spec_tracks()[j2]).0@ == rec.id_b@
                ==> rec.risk_permille == 1000 && rec.tti_ms is Some && base.sure_tti_lo(i, j2)
                <= rec.tti_ms->0 <= base.sure_tti_hi(i, j2),
        // the loop facts at entry
        forall|k: int| 0 <= k < pre_out.len() ==> base.rec_consistent(#[trigger] pre_out[k]),
        forall|k: int|
            0 <= k < pre_out.len() ==> base.track_at(
                (#[trigger] pre_out[k]).id_a@,
            ).position.spec_length_sq() <= base.spec_radar_range_sq(),
        base.first_ids_before(pre_out, i + 1),
        base.det_values_for(pre_out, i),
        forall|k: int|
            0 <= k < pre_out.len() && base.rec_close(#[trigger] pre_out[k]) ==> pre.blacklisted(
                pre_out[k].id_a@,
            ) && pre.blacklisted(pre_out[k].id_b@),
        forall|x: Seq<char>| base.blacklisted(x) ==> #[trigger] pre.blacklisted(x),
        forall|x: Seq<char>|
            #[trigger] pre.blacklisted(x) ==> base.blacklisted(x) || exists|k: int|
                0 <= k < pre_out.len() && base.rec_close(#[trigger] pre_out[k]) && (
                pre_out[k].id_a@ == x || pre_out[k].id_b@ == x),
        forall|i2: int, j2: int|
            i2 < i && base.sure_pair(i2, j2) ==> pair_recorded_range(
                pre_out,
                base.spec_tracks()[i2].0@,
                base.spec_tracks()[j2].0@,
                base.sure_tti_lo(i2, j2),
                base.sure_tti_hi(i2, j2),
            ),
        forall|j2: int|
            base.sure_pair(i, j2) && dv.take(jj).contains(base.spec_tracks()[j2].0@)
                ==> pair_recorded_range(
                pre_out,
                base.spec_tracks()[i].0@,
                base.spec_tracks()[j2].0@,
                base.sure_tti_lo(i, j2),
                base.sure_tti_hi(i, j2),
            ),
    ensures
        forall|k: int| 0 <= k < out.len() ==> base.rec_consistent(#[trigger] out[k]),
        forall|k: int|
            0 <= k < out.len() ==> base.track_at(
                (#[trigger] out[k]).id_a@,
            ).position.spec_length_sq() <= base.spec_radar_range_sq(),
        base.first_ids_before(out, i + 1),
        base.det_values_for(out, i),
        forall|k: int|
            0 <= k < out.len() && base.rec_close(#[trigger] out[k]) ==> cur.blacklisted(
                out[k].id_a@,
            ) && cur.blacklisted(out[k].id_b@),
        forall|x: Seq<char>| base.blacklisted(x) ==> #[trigger] cur.blacklisted(x),
        forall|x: Seq<char>|
            #[trigger] cur.blacklisted(x) ==> base.blacklisted(x) || exists|k: int|
                0 <= k < out.len() && base.rec_close(#[trigger] out[k]) && (out[k].id_a@ == x
                    || out[k].id_b@ == x),
        forall|i2: int, j2: int|
            i2 < i && base.sure_pair(i2, j2) ==> pair_recorded_range(
                out,
                base.spec_tracks()[i2].0@,
                base.spec_tracks()[j2].0@,
                base.sure_tti_lo(i2, j2),
                base.sure_tti_hi(i2, j2),
            ),
        forall|j2: int|
            base.sure_pair(i, j2) && dv.take(jj + 1).contains(base.spec_tracks()[j2].0@)
                ==> pair_recorded_range(
                out,
                base.spec_tracks()[i].0@,
                base.spec_tracks()[j2].0@,
                base.sure_tti_lo(i, j2),
                base.sure_tti_hi(i, j2),
            ),
{
    assert forall|k: int|
        0 <= k < out.len() implies base.rec_consistent(#[trigger] out[k]) && base.track_at(
        out[k].id_a@,
    ).position.spec_length_sq() <= base.spec_radar_range_sq() by {
        if k < pre_out.len() {
            assert(out[k] == pre_out[k]);
        } else {
            assert(out[k] == rec);
        }
    }
    assert forall|k: int|
        0 <= k < out.len() implies exists|i2: int|
        0 <= i2 < i + 1 && (#[trigger] out[k]).id_a@ == base.spec_tracks()[i2].0@ by {
        if k < pre_out.len() {
            assert(out[k] == pre_out[k]);
        } else {
            assert(out[k] == rec);
            assert(0 <= i < i + 1 && out[k].id_a@ == base.spec_tracks()[i].0@);
        }
    }
    assert forall|k: int, j2: int|
        #![trigger out[k], base.spec_tracks()[j2]]
        0 <= k < out.len() && base.sure_pair(i, j2) && out[k].id_a@ == base.spec_tracks()[i].0@
            && out[k].id_b@ == base.spec_tracks()[j2].0@ implies out[k].risk_permille == 1000
        && out[k].tti_ms is Some && base.sure_tti_lo(i, j2) <= out[k].tti_ms->0
        <= base.sure_tti_hi(i, j2) by {
        if k < pre_out.len() {
            assert(out[k] == pre_out[k]);
        } else {
            assert(out[k] == rec);
        }
    }
    assert forall|k: int|
        0 <= k < out.len() && base.rec_close(#[trigger] out[k]) implies cur.blacklisted(
        out[k].id_a@,
    ) && cur.blacklisted(out[k].id_b@) by {
        if k < pre_out.len() {
            assert(out[k] == pre_out[k]);
            assert(pre.blacklisted(pre_out[k].id_a@));
            assert(pre.blacklisted(pre_out[k].id_b@));
        } else {
            assert(out[k] == rec);
        }
    }
    assert forall|x: Seq<char>|
        #[trigger] cur.blacklisted(x) implies base.blacklisted(x) || exists|k: int|
        0 <= k < out.len() && base.rec_close(#[trigger] out[k]) && (out[k].id_a@ == x
            || out[k].id_b@ == x) by {
        if pre.blacklisted(x) {
            if !base.blacklisted(x) {
                let k = choose|k: int|
                    0 <= k < pre_out.len() && base.rec_close(#[trigger] pre_out[k]) && (
                    pre_out[k].id_a@ == x || pre_out[k].id_b@ == x);
                assert(out[k] == pre_out[k]);
            }
        } else {
            assert(close && (x == rec.id_a@ || x == rec.id_b@));
            let k = choose|k: int|
                0 <= k < out.len() && (#[trigger] out[k]).id_a@ == rec.id_a@ && out[k].id_b@
                    == rec.id_b@;
            if k < pre_out.len() {
                assert(out[k] == pre_out[k]);
                assert(base.rec_close(out[k]) == base.rec_close(rec));
            } else {
                assert(out[k] == rec);
            }
        }
    }
    assert forall|i2: int, j2: int|
        i2 < i && base.sure_pair(i2, j2) implies pair_recorded_range(
        out,
        base.spec_tracks()[i2].0@,
        base.spec_tracks()[j2].0@,
        base.sure_tti_lo(i2, j2),
        base.sure_tti_hi(i2, j2),
    ) by {
        let k = choose|k: int|
            0 <= k < pre_out.len() && (#[trigger] pre_out[k]).id_a@ == base.spec_tracks()[i2].0@
                && pre_out[k].id_b@ == base.spec_tracks()[j2].0@ && pre_out[k].risk_permille
                == 1000 && pre_out[k].tti_ms is Some && base.sure_tti_lo(i2, j2)
                <= pre_out[k].tti_ms->0 <= base.sure_tti_hi(i2, j2);
        assert(out[k] == pre_out[k]);
    }
    assert forall|j2: int|
        base.sure_pair(i, j2) && dv.take(jj + 1).contains(
            base.spec_tracks()[j2].0@,
        ) implies pair_recorded_range(
        out,
        base.spec_tracks()[i].0@,
        base.spec_tracks()[j2].0@,
        base.sure_tti_lo(i, j2),
        base.sure_tti_hi(i, j2),
    ) by {
        let dvt = dv.take(jj + 1);
        let w = choose|w: int| 0 <= w < dvt.len() && dvt[w] == base.spec_tracks()[j2].0@;
        if w < jj {
            assert(dv.take(jj)[w] == base.spec_tracks()[j2].0@);
            assert(dv.take(jj).contains(base.spec_tracks()[j2].0@));
            let k = choose|k: int|
                0 <= k < pre_out.len() && (#[trigger] pre_out[k]).id_a@
                    == base.spec_tracks()[i].0@ && pre_out[k].id_b@
                    == base.spec_tracks()[j2].0@ && pre_out[k].risk_permille == 1000
                    && pre_out[k].tti_ms is Some && base.sure_tti_lo(i, j2)
                    <= pre_out[k].tti_ms->0 <= base.sure_tti_hi(i, j2);
            assert(out[k] == pre_out[k]);
        } else {
            assert(base.spec_tracks()[j2].0@ == rec.id_b@);
            let k = choose|k: int|
                0 <= k < out.len() && (#[trigger] out[k]).id_a@ == rec.id_a@ && out[k].id_b@
                    == rec.id_b@;
            assert(out[k].id_b@ == base.spec_tracks()[j2].0@);
            if k < pre_out.len() {
                assert(out[k] == pre_out[k]);
            } else {
                assert(out[k] == rec);
            }
            assert(out[k].risk_permille == 1000 && out[k].tti_ms is Some && base.sure_tti_lo(
                i,
                j2,
            ) <= out[k].tti_ms->0 <= base.sure_tti_hi(i, j2));
        }
    }
}

/// Under unique ids, each entry is found at its own index.
proof fn lemma_track_index(s: Seq<(String, Aircraft)>, j: int)
    requires
        0 <= j < s.len(),
        forall|i1: int, j1: int|
            0 <= i1 < j1 < s.len() ==> (#[trigger] s[i1]).0@ != (#[trigger] s[j1]).0@,
    ensures
        find_track(s, s[j].0@) == j,
{
    assert forall|k: int| 0 <= k < j implies (#[trigger] s[k]).0@ != s[j].0@ by {
        assert(s[k].0@ != s[j].0@);
    }
    lemma_find_track_at(s, s[j].0@, j);
}

/// Appending an entry with a different id does not change lookup of an id.
proof fn lemma_appended_find(
    old_seq: Seq<(String, Aircraft)>,
    new_seq: Seq<(String, Aircraft)>,
    id: Seq<char>,
)
    requires
        new_seq.len() == old_seq.len() + 1,
        forall|j: int| 0 <= j < old_seq.len() ==> #[trigger] new_seq[j] == old_seq[j],
        new_seq[new_seq.len() - 1].0@ != id,
    ensures
        (find_track(new_seq, id) >= 0) == (find_track(old_seq, id) >= 0),
        find_track(old_seq, id) >= 0 ==> new_seq[find_track(new_seq, id)]
            == old_seq[find_track(old_seq, id)],
{
    lemma_find_track_props(old_seq, id);
    let r = find_track(old_seq, id);
    if r >= 0 {
        assert(new_seq[r] == old_seq[r]);
        assert forall|j: int| 0 <= j < r implies (#[trigger] new_seq[j]).0@ != id by {
            assert(new_seq[j] == old_seq[j]);
        }
        lemma_find_track_at(new_seq, id, r);
    } else {
        assert forall|j: int| 0 <= j < new_seq.len() implies (#[trigger] new_seq[j]).0@ != id by {
            if j < new_seq.len() - 1 {
                assert(new_seq[j] == old_seq[j]);
            }
        }
        lemma_find_track_none(new_seq, id);
    }
}

/// If a component exceeds the bound in magnitude
/// If a component exceeds the bound in magnitude, its square exceeds the
/// bound's square.
proof fn lemma_abs_square_larger(x: int, m: int)
    requires
        m >= 0,
        x < -m || x > m,
    ensures
        x * x > m * m,
{
    assert(x * x > m * m) by (nonlinear_arith)
        requires
            m >= 0,
            x < -m || x > m,
    ;
}

/// Inside the interest region each position component is small.
proof fn lemma_component_bound(x: int, y: int, threshold: int)
    requires
        x * x + y * y <= threshold,
        threshold < 0x2000_0000_0000_0000,
        threshold <= 90_000_000_000_000_000,
    ensures
        -300_000_000 <= x <= 300_000_000,
{
    lemma_square_nonneg(y);
    if x < -300_000_000 || x > 300_000_000 {
        lemma_abs_square_larger(x, 300_000_000);
    }
}

/// Removing index `fi` does not change lookup of other ids.
proof fn lemma_shifted_find(
    old_seq: Seq<(String, Aircraft)>,
    new_seq: Seq<(String, Aircraft)>,
    fi: int,
    id: Seq<char>,
)
    requires
        0 <= fi < old_seq.len(),
        new_seq == old_seq.remove(fi),
        id != old_seq[fi].0@,
    ensures
        (find_track(new_seq, id) >= 0) == (find_track(old_seq, id) >= 0),
        find_track(old_seq, id) >= 0 ==> new_seq[find_track(new_seq, id)]
            == old_seq[find_track(old_seq, id)],
{
    lemma_find_track_props(old_seq, id);
    let r = find_track(old_seq, id);
    if r >= 0 {
        let pos: int = if r < fi {
            r
        } else {
            r - 1
        };
        assert(new_seq[pos] == old_seq[r]);
        assert forall|j: int| 0 <= j < pos implies (#[trigger] new_seq[j]).0@ != id by {
            if j < fi {
                assert(new_seq[j] == old_seq[j]);
            } else {
                assert(new_seq[j] == old_seq[j + 1]);
            }
        }
        lemma_find_track_at(new_seq, id, pos);
    } else {
        assert forall|j: int| 0 <= j < new_seq.len() implies (#[trigger] new_seq[j]).0@ != id by {
            if j < fi {
                assert(new_seq[j] == old_seq[j]);
            } else {
                assert(new_seq[j] == old_seq[j + 1]);
            }
        }
        lemma_find_track_none(new_seq, id);
    }
}

/// After removing the only entry of an id, the id has no track.
proof fn lemma_find_track_none_of_removed(
    old_seq: Seq<(String, Aircraft)>,
    new_seq: Seq<(String, Aircraft)>,
    fi: int,
    id: Seq<char>,
)
    requires
        0 <= fi < old_seq.len(),
        new_seq == old_seq.remove(fi),
        old_seq[fi].0@ == id,
        forall|i: int, j: int|
            0 <= i < j < old_seq.len() ==> (#[trigger] old_seq[i]).0@ != (#[trigger] old_seq[j]).0@,
    ensures
        find_track(new_seq, id) == -1,
{
    assert forall|j: int| 0 <= j < new_seq.len() implies (#[trigger] new_seq[j]).0@ != id by {
        if j < fi {
            assert(new_seq[j] == old_seq[j]);
        } else {
            assert(new_seq[j] == old_seq[j + 1]);
        }
    }
    lemma_find_track_none(new_seq, id);
}

/// Moving the entry at `fi` to the end does not change lookup of other ids.
proof fn lemma_moved_find(
    old_seq: Seq<(String, Aircraft)>,
    new_seq: Seq<(String, Aircraft)>,
    fi: int,
    id: Seq<char>,
)
    requires
        0 <= fi < old_seq.len(),
        new_seq.len() == old_seq.len(),
        forall|j: int| 0 <= j < fi ==> #[trigger] new_seq[j] == old_seq[j],
        forall|j: int| fi <= j < old_seq.len() - 1 ==> #[trigger] new_seq[j] == old_seq[j + 1],
        id != old_seq[fi].0@,
        new_seq[new_seq.len() - 1].0@ == old_seq[fi].0@,
    ensures
        (find_track(new_seq, id) >= 0) == (find_track(old_seq, id) >= 0),
        find_track(old_seq, id) >= 0 ==> new_seq[find_track(new_seq, id)]
            == old_seq[find_track(old_seq, id)],
{
    lemma_find_track_props(old_seq, id);
    let r = find_track(old_seq, id);
    if r >= 0 {
        let pos: int = if r < fi {
            r
        } else {
            r - 1
        };
        assert(new_seq[pos] == old_seq[r]);
        assert forall|j: int| 0 <= j < pos implies (#[trigger] new_seq[j]).0@ != id by {
            if j < fi {
                assert(new_seq[j] == old_seq[j]);
            } else {
                assert(new_seq[j] == old_seq[j + 1]);
            }
        }
        lemma_find_track_at(new_seq, id, pos);
    } else {
        assert forall|j: int| 0 <= j < new_seq.len() implies (#[trigger] new_seq[j]).0@ != id by {
            if j < fi {
                assert(new_seq[j] == old_seq[j]);
            } else if j < new_seq.len() - 1 {
                assert(new_seq[j] == old_seq[j + 1]);
            }
        }
        lemma_find_track_none(new_seq, id);
    }
}

} // verus!
