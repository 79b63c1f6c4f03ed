//! Tri-state admission of identifiers: an exact pending counter promotes an
//! id into the scalable Bloom filter once it has been seen `threshold`
//! times; ids already in the filter are trusted.
use vstd::prelude::*;
use vstd::hash_map::StringHashMap;
use crate::bloom_filter::{
    ScalableBloomFilter, LayerModel, PPM, is_initial_layer, miss_ppm, sum_ones, sum_sizes,
    prune_rel, lemma_prune_idempotent,
};

verus! {

/// The three admission outcomes: not yet stably observed, observed for the
/// `threshold`-th time, or already remembered by the filter.
#[derive(Clone, Copy, Debug, PartialEq, Eq, Structural)]
pub enum FilterResult {
    Pending,
    Promoted,
    Trusted,
}

/// Integer snapshot of the filter's occupancy.
#[derive(Clone, Copy, Debug, PartialEq, Eq, Structural)]
pub struct FilterStats {
    pub layer_count: usize,
    pub total_bits: u64,
    pub set_bits: u64,
    pub est_fpr_ppm: u64,
    pub pending: usize,
}

/// The admission outcome for an id the filter reports with `c`, currently
/// pending `n` times, under promotion threshold `t`.
pub open spec fn admit_result(c: bool, n: int, t: int) -> FilterResult {
    if c {
        FilterResult::Trusted
    } else if n + 1 >= t {
        FilterResult::Promoted
    } else {
        FilterResult::Pending
    }
}

/// The id's pending count after one admission.
pub open spec fn admit_next_count(c: bool, n: int, t: int) -> int {
    if c {
        n
    } else if n + 1 >= t {
        0
    } else {
        n + 1
    }
}

/// The state (filter membership, pending count) of one id after `i`
/// admissions of that id, starting unknown, assuming no other operation
/// touches it.
pub open spec fn admit_state(i: int, t: int) -> (bool, int) {
    if i <= t - 1 {
        (false, i)
    } else {
        (true, 0)
    }
}

/// Admission of the same id `threshold` times yields exactly one `Promoted`
/// (at the `threshold`-th admission, preceded only by `Pending`); every
/// later admission yields `Trusted`.  One admission step takes
/// `admit_state(i, t)` to `admit_state(i + 1, t)`, which is the relation
/// `FilterManager::insert` ensures.
pub proof fn lemma_admission_lifecycle(t: int, i: int)
    requires
        t >= 1,
        i >= 0,
    ensures
        admit_result(admit_state(i, t).0, admit_state(i, t).1, t) == (if i < t - 1 {
            FilterResult::Pending
        } else if i == t - 1 {
            FilterResult::Promoted
        } else {
            FilterResult::Trusted
        }),
        admit_state(i + 1, t).0 == (admit_state(i, t).0 || admit_state(i, t).1 + 1 >= t),
        admit_state(i + 1, t).1 == admit_next_count(admit_state(i, t).0, admit_state(i, t).1, t),
{
}

/// Couples the scalable filter with an exact "seen-n-times" promotion map.
pub struct FilterManager {
    sbf: ScalableBloomFilter,
    pending: StringHashMap<u32>,
    threshold: u32,
}

/// The mathematical content of an admission manager.
#[verifier::ext_equal]
pub ghost struct FilterManagerModel {
    pub layers: Seq<LayerModel>,
    pub pending: Map<Seq<char>, u32>,
    pub threshold: int,
}

impl FilterManager {
    pub closed spec fn wf(self) -> bool {
        &&& self.sbf.wf()
        &&& self.threshold >= 1
        &&& forall|id: Seq<char>|
            self.pending@.dom().contains(id) ==> 1 <= #[trigger] self.pending@[id]
                < self.threshold
    }

    /// The scalable filter reports the id (possibly a false positive).
    pub closed spec fn sbf_contains(self, id: Seq<char>) -> bool {
        self.sbf.spec_contains(vstd::utf8::encode_utf8(id))
    }

    /// How many times the id is pending; zero when absent.
    pub closed spec fn pending_count(self, id: Seq<char>) -> int {
        if self.pending@.dom().contains(id) {
            self.pending@[id] as int
        } else {
            0
        }
    }

    pub closed spec fn spec_threshold(self) -> int {
        self.threshold as int
    }

    pub closed spec fn spec_pending_len(self) -> nat {
        self.pending@.len()
    }

    pub closed spec fn model(self) -> FilterManagerModel {
        FilterManagerModel {
            layers: self.sbf.model(),
            pending: self.pending@,
            threshold: self.threshold as int,
        }
    }

    pub closed spec fn spec_layers(self) -> Seq<crate::bloom_filter::BloomFilter> {
        self.sbf.layers()
    }

    /// A manager with an empty filter, an empty pending map, and the default
    /// promotion threshold of three sightings.
    pub fn new(now: u64) -> (r: FilterManager)
        ensures
            r.wf(),
            r.spec_threshold() == 3,
            forall|id: Seq<char>| #[trigger] r.pending_count(id) == 0,
            forall|id: Seq<char>| !(#[trigger] r.sbf_contains(id)),
            r.spec_pending_len() == 0,
            r.spec_layers().len() == 1,
            is_initial_layer(r.spec_layers()[0], now),
    {
        FilterManager {
            sbf: ScalableBloomFilter::new(now),
            pending: StringHashMap::new(),
            threshold: 3,
        }
    }

    /// One admission: `Trusted` when the filter already reports the id,
    /// `Promoted` when this sighting reaches the threshold (the id then
    /// moves from the pending map into the filter), `Pending` otherwise.
    pub fn insert(&mut self, input: &String, now: u64) -> (r: FilterResult)
        requires
            old(self).wf(),
        ensures
            final(self).wf(),
            final(self).spec_threshold() == old(self).spec_threshold(),
            r == admit_result(
                old(self).sbf_contains(input@),
                old(self).pending_count(input@),
                old(self).spec_threshold(),
            ),
            final(self).pending_count(input@) == admit_next_count(
                old(self).sbf_contains(input@),
                old(self).pending_count(input@),
                old(self).spec_threshold(),
            ),
            final(self).sbf_contains(input@) == (old(self).sbf_contains(input@) || r
                == FilterResult::Promoted),
            forall|id: Seq<char>|
                old(self).sbf_contains(id) ==> #[trigger] final(self).sbf_contains(id),
            forall|id: Seq<char>|
                id != input@ ==> #[trigger] final(self).pending_count(id) == old(
                    self,
                ).pending_count(id),
            r != FilterResult::Promoted ==> final(self).model().layers == old(
                self,
            ).model().layers,
            r == FilterResult::Trusted ==> final(self).model() == old(self).model(),
            final(self).spec_layers().len() >= 1,
    {
        proof {
            self.sbf.lemma_wf_nonempty();
        }
        if self.sbf.contains(input.as_str()) {
            return FilterResult::Trusted;
        }
        let c: u32 = match self.pending.get(input.as_str()) {
            Some(v) => *v,
            None => 0,
        };
        if c + 1 >= self.threshold {
            self.pending.remove(input.as_str());
            self.sbf.insert(input.as_str(), now);
            FilterResult::Promoted
        } else {
            self.pending.insert(input.clone(), c + 1);
            FilterResult::Pending
        }
    }

    /// Occupancy statistics: layers, bits, set bits, the fixed-point
    /// false-positive estimate, and the pending-map size.
    pub fn stats(&self) -> (r: FilterStats)
        requires
            self.wf(),
        ensures
            r.layer_count == self.spec_layers().len(),
            r.total_bits == sum_sizes(self.spec_layers()),
            r.set_bits == sum_ones(self.spec_layers()),
            r.set_bits <= r.total_bits,
            r.est_fpr_ppm == PPM - miss_ppm(self.spec_layers(), self.spec_layers().len() as int),
            r.pending == self.spec_pending_len(),
    {
        FilterStats {
            layer_count: self.sbf.layer_count(),
            total_bits: self.sbf.total_bits(),
            set_bits: self.sbf.set_bits(),
            est_fpr_ppm: self.sbf.fpr_ppm(),
            pending: self.pending.len(),
        }
    }

    /// The fixed-point estimated false-positive rate, in parts per million.
    pub fn fpr_ppm(&self) -> (r: u64)
        requires
            self.wf(),
        ensures
            r == PPM - miss_ppm(self.spec_layers(), self.spec_layers().len() as int),
            r <= PPM,
    {
        self.sbf.fpr_ppm()
    }

    /// Expires old filter layers and unconditionally clears the pending map:
    /// promotion relies on contemporaneous repetition, so stale counters
    /// must not contribute.
    pub fn prune(&mut self, max_age_ms: u64, now: u64)
        requires
            old(self).wf(),
        ensures
            final(self).wf(),
            fm_prune_rel(*old(self), *final(self), max_age_ms, now),
            final(self).spec_layers().len() >= 1,
            final(self).spec_pending_len() == 0,
            forall|id: Seq<char>| #[trigger] final(self).pending_count(id) == 0,
    {
        self.sbf.prune(max_age_ms, now);
        self.pending.clear();
    }
}

/// What `FilterManager::prune` does: the filter layers are pruned as
/// `ScalableBloomFilter::prune` describes, the pending map is emptied, and
/// the threshold is untouched.
pub open spec fn fm_prune_rel(
    pre: FilterManager,
    post: FilterManager,
    max_age_ms: u64,
    now: u64,
) -> bool {
    &&& prune_rel(pre.spec_sbf(), post.spec_sbf(), max_age_ms, now)
    &&& post.model().pending == Map::<Seq<char>, u32>::empty()
    &&& post.spec_threshold() == pre.spec_threshold()
}

impl FilterManager {
    pub closed spec fn spec_sbf(self) -> ScalableBloomFilter {
        self.sbf
    }
}

/// Pruning the manager is idempotent: a second prune with the same
/// arguments leaves the model (filter layers, pending map, threshold)
/// unchanged.
pub proof fn lemma_fm_prune_idempotent(
    m1: FilterManager,
    m2: FilterManager,
    m3: FilterManager,
    max_age_ms: u64,
    now: u64,
)
    requires
        m1.wf(),
        m2.wf(),
        m3.wf(),
        fm_prune_rel(m1, m2, max_age_ms, now),
        fm_prune_rel(m2, m3, max_age_ms, now),
    ensures
        m3.model() == m2.model(),
{
    lemma_prune_idempotent(m1.spec_sbf(), m2.spec_sbf(), m3.spec_sbf(), max_age_ms, now);
    assert(m3.model() =~= m2.model());
}

} // verus!
