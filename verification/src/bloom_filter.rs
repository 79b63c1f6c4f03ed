//! Partitioned Bloom layers and the scalable filter built from them.
//!
//! A layer's bit array is split into `hashes` equal bands of
//! `partition_size` bits; hash `i` of an input sets one bit inside band `i`,
//! so a single insert always sets exactly `hashes` bits and membership never
//! yields a false negative.
use vstd::prelude::*;
use vstd::string::StringSliceAdditionalSpecFns;

verus! {

/// Bit `i` of a little-endian packed byte buffer.
pub open spec fn bit_of(bytes: Seq<u8>, i: int) -> bool {
    ((bytes[i / 8] >> ((i % 8) as u8)) & 1u8) == 1u8
}

/// The first `size` bits of a packed byte buffer, as a boolean sequence.
pub open spec fn bits_view_of(bytes: Seq<u8>, size: nat) -> Seq<bool> {
    Seq::new(size, |i: int| bit_of(bytes, i))
}

/// Number of set bits.
pub open spec fn pop(s: Seq<bool>) -> nat
    decreases s.len(),
{
    if s.len() == 0 {
        0
    } else {
        pop(s.drop_last()) + (if s.last() {
            1nat
        } else {
            0nat
        })
    }
}

pub proof fn lemma_pop_le(s: Seq<bool>)
    ensures
        pop(s) <= s.len(),
    decreases s.len(),
{
    if s.len() > 0 {
        lemma_pop_le(s.drop_last());
    }
}

pub proof fn lemma_pop_all_false(s: Seq<bool>)
    requires
        forall|j: int| 0 <= j < s.len() ==> !s[j],
    ensures
        pop(s) == 0,
    decreases s.len(),
{
    if s.len() > 0 {
        lemma_pop_all_false(s.drop_last());
    }
}

/// Pointwise implication of bit vectors carries over to their popcounts.
pub proof fn lemma_pop_monotone(s1: Seq<bool>, s2: Seq<bool>)
    requires
        s1.len() == s2.len(),
        forall|j: int| 0 <= j < s1.len() ==> (s1[j] ==> s2[j]),
    ensures
        pop(s1) <= pop(s2),
    decreases s1.len(),
{
    if s1.len() > 0 {
        assert forall|j: int| 0 <= j < s1.drop_last().len() implies (s1.drop_last()[j]
            ==> s2.drop_last()[j]) by {
            assert(s1.drop_last()[j] == s1[j]);
            assert(s2.drop_last()[j] == s2[j]);
        }
        lemma_pop_monotone(s1.drop_last(), s2.drop_last());
        assert(s1.last() ==> s2.last());
    }
}

/// A zero popcount means every bit is clear.
pub proof fn lemma_pop_zero(s: Seq<bool>)
    requires
        pop(s) == 0,
    ensures
        forall|j: int| 0 <= j < s.len() ==> !s[j],
    decreases s.len(),
{
    if s.len() > 0 {
        lemma_pop_zero(s.drop_last());
        assert forall|j: int| 0 <= j < s.len() implies !s[j] by {
            if j < s.len() - 1 {
                assert(!s.drop_last()[j]);
            }
        }
    }
}

/// Setting one bit to true raises the popcount by one exactly when the bit
/// was clear.
pub proof fn lemma_pop_update_true(s: Seq<bool>, i: int)
    requires
        0 <= i < s.len(),
    ensures
        pop(s.update(i, true)) == pop(s) + (if s[i] {
            0int
        } else {
            1int
        }),
    decreases s.len(),
{
    let t = s.update(i, true);
    if i == s.len() - 1 {
        assert(t.drop_last() =~= s.drop_last());
    } else {
        assert(t.drop_last() =~= s.drop_last().update(i, true));
        lemma_pop_update_true(s.drop_last(), i);
    }
}

/// Reads bit `i` of the packed buffer.
fn bit_get(bits: &Vec<u8>, i: usize) -> (r: bool)
    requires
        i < bits@.len() * 8,
    ensures
        r == bit_of(bits@, i as int),
{
    let q: usize = i / 8;
    let k: u8 = (i % 8) as u8;
    ((bits[q] >> k) & 1) == 1
}

/// Sets bit `i` of the packed buffer; returns whether it was already set.
fn bit_set(bits: &mut Vec<u8>, i: usize) -> (was: bool)
    requires
        i < old(bits)@.len() * 8,
    ensures
        final(bits)@.len() == old(bits)@.len(),
        was == bit_of(old(bits)@, i as int),
        forall|j: int|
            0 <= j < final(bits)@.len() * 8 ==> bit_of(final(bits)@, j) == (j == i || bit_of(
                old(bits)@,
                j,
            )),
{
    let q: usize = i / 8;
    let k: u8 = (i % 8) as u8;
    let b: u8 = bits[q];
    let was = ((b >> k) & 1) == 1;
    bits.set(q, b | (1u8 << k));
    proof {
        assert forall|j: int|
            0 <= j < bits@.len() * 8 implies bit_of(bits@, j) == (j == i as int || bit_of(
            old(bits)@,
            j,
        )) by {
            let bb = old(bits)@[i as int / 8];
            let kk = (i as int % 8) as u8;
            let kj = (j % 8) as u8;
            if j / 8 == i as int / 8 {
                if j == i as int {
                    assert((((bb | (1u8 << kk)) >> kk) & 1u8) == 1u8) by (bit_vector)
                        requires
                            kk < 8,
                    ;
                } else {
                    assert((((bb | (1u8 << kk)) >> kj) & 1u8) == ((bb >> kj) & 1u8))
                        by (bit_vector)
                        requires
                            kk < 8,
                            kj < 8,
                            kj != kk,
                    ;
                }
            }
        }
    }
    was
}

/// The 64-bit mixing step: xor then multiply by the FNV prime, mod 2^64.
pub open spec fn mix(h: u64, v: u64) -> u64 {
    (((h ^ v) * 0x100_0000_01b3) % 0x1_0000_0000_0000_0000) as u64
}

fn mix64(h: u64, v: u64) -> (r: u64)
    ensures
        r == mix(h, v),
{
    let x: u64 = h ^ v;
    proof {
        assert((x as int) * 0x100_0000_01b3 < 0x1_0000_0000_0000_0000_0000_0000_0000_0000)
            by (nonlinear_arith)
            requires
                x <= 0xffff_ffff_ffff_ffffu64,
        ;
        assert((x as int) * 0x100_0000_01b3 >= 0) by (nonlinear_arith)
            requires
                x >= 0,
        ;
    }
    let wide: u128 = (x as u128) * 0x100_0000_01b3;
    (wide % 0x1_0000_0000_0000_0000u128) as u64
}

/// Hash state after folding the first `n` bytes onto seed `h`.
pub open spec fn fnv_from(h: u64, bytes: Seq<u8>, n: int) -> u64
    decreases n,
{
    if n <= 0 {
        h
    } else {
        mix(fnv_from(h, bytes, n - 1), bytes[n - 1] as u64)
    }
}

pub open spec fn fnv_offset() -> u64 {
    0xcbf2_9ce4_8422_2325
}

/// A stable well-mixed 64-bit hash of the input bytes, salted with the
/// partition index and the layer index so that bands and layers decorrelate.
pub open spec fn hash_of(bytes: Seq<u8>, partition: u64, layer: u64) -> u64 {
    fnv_from(mix(mix(fnv_offset(), partition), layer), bytes, bytes.len() as int)
}

fn hash_bytes(input: &[u8], partition: u64, layer: u64) -> (r: u64)
    ensures
        r == hash_of(input@, partition, layer),
{
    let seed: u64 = mix64(mix64(0xcbf2_9ce4_8422_2325, partition), layer);
    let mut h = seed;
    let n = input.len();
    for j in 0..n
        invariant
            n == input@.len(),
            h == fnv_from(seed, input@, j as int),
    {
        h = mix64(h, input[j] as u64);
    }
    h
}

/// One partitioned Bloom layer.
pub struct BloomFilter {
    bits: Vec<u8>,
    size: usize,
    hashes: usize,
    layer: usize,
    partition_size: usize,
    created_at: u64,
    ones: usize,
}

impl BloomFilter {
    /// The bit array as a boolean sequence of length `size`.
    pub closed spec fn view_bits(self) -> Seq<bool> {
        bits_view_of(self.bits@, self.size as nat)
    }

    pub closed spec fn spec_size(self) -> int {
        self.size as int
    }

    pub closed spec fn spec_hashes(self) -> int {
        self.hashes as int
    }

    pub closed spec fn spec_created_at(self) -> u64 {
        self.created_at
    }

    pub closed spec fn spec_layer(self) -> int {
        self.layer as int
    }

    pub closed spec fn spec_partition_size(self) -> int {
        self.partition_size as int
    }

    pub closed spec fn wf(self) -> bool {
        &&& 1 <= self.hashes
        &&& 1 <= self.partition_size
        &&& self.hashes * self.partition_size <= self.size
        &&& self.size <= 0x1000_0000
        &&& self.bits@.len() == (self.size + 7) / 8
        &&& self.ones == pop(self.view_bits())
    }

    /// Configuration (everything but the bit contents) is unchanged.
    pub closed spec fn same_config(self, other: BloomFilter) -> bool {
        &&& self.size == other.size
        &&& self.hashes == other.hashes
        &&& self.layer == other.layer
        &&& self.partition_size == other.partition_size
        &&& self.created_at == other.created_at
    }

    /// Bit index for hash `i` of an input: band `i` plus the hash offset
    /// inside the band.
    pub closed spec fn spec_bit_index(self, bytes: Seq<u8>, i: int) -> int {
        i * self.partition_size + (hash_of(bytes, i as u64, self.layer as u64) as int) % (
        self.partition_size as int)
    }

    /// All `hashes` bits of the input are set.
    pub open spec fn spec_contains(self, bytes: Seq<u8>) -> bool {
        forall|i: int|
            0 <= i < self.spec_hashes() ==> self.view_bits()[#[trigger] self.spec_bit_index(
                bytes,
                i,
            )]
    }

    /// Hash `i` of any input lands inside band `i`, which lies inside the
    /// bit array.
    pub proof fn lemma_bit_index_range(self, bytes: Seq<u8>, i: int)
        requires
            self.wf(),
            0 <= i < self.spec_hashes(),
        ensures
            i * self.spec_partition_size() <= self.spec_bit_index(bytes, i) < (i + 1)
                * self.spec_partition_size(),
            (i + 1) * self.spec_partition_size() <= self.spec_size(),
    {
        let ps = self.partition_size as int;
        let h = (hash_of(bytes, i as u64, self.layer as u64) as int) % ps;
        assert(0 <= h < ps);
        assert((i + 1) * ps == i * ps + ps) by (nonlinear_arith);
        assert((i + 1) * ps <= self.hashes * ps) by (nonlinear_arith)
            requires
                i + 1 <= self.hashes,
                ps >= 0,
        ;
        assert(self.hashes * ps == self.hashes * self.partition_size);
    }

    /// Distinct hash indices land in distinct (disjoint) bands.
    proof fn lemma_bit_index_distinct(self, bytes: Seq<u8>, i1: int, i2: int)
        requires
            self.wf(),
            0 <= i1 < i2 < self.hashes,
        ensures
            self.spec_bit_index(bytes, i1) < self.spec_bit_index(bytes, i2),
    {
        let ps = self.partition_size as int;
        self.lemma_bit_index_range(bytes, i1);
        self.lemma_bit_index_range(bytes, i2);
        assert((i1 + 1) * ps <= i2 * ps) by (nonlinear_arith)
            requires
                i1 + 1 <= i2,
                ps >= 0,
        ;
    }

    /// A fresh all-zero layer.
    pub fn new(size: usize, hashes: usize, layer: usize, partition_size: usize, created_at: u64) -> (bf:
        BloomFilter)
        requires
            1 <= hashes,
            1 <= partition_size,
            hashes * partition_size <= size,
            size <= 0x1000_0000,
        ensures
            bf.wf(),
            bf.spec_size() == size,
            bf.spec_hashes() == hashes,
            bf.spec_layer() == layer,
            bf.spec_partition_size() == partition_size,
            bf.spec_created_at() == created_at,
            forall|j: int| 0 <= j < size ==> !bf.view_bits()[j],
            pop(bf.view_bits()) == 0,
    {
        let n: usize = (size + 7) / 8;
        let bits: Vec<u8> = vec![0u8; n];
        let bf = BloomFilter { bits, size, hashes, layer, partition_size, created_at, ones: 0 };
        proof {
            assert forall|j: int| 0 <= j < size implies !bf.view_bits()[j] by {
                let kj = (j % 8) as u8;
                assert(bf.bits@[j / 8] == 0u8);
                assert(((0u8 >> kj) & 1u8) != 1u8) by (bit_vector);
            }
            lemma_pop_all_false(bf.view_bits());
        }
        bf
    }

    /// Sets the `hashes` bits of `input`, one per band; all other bits keep
    /// their value.  A fresh layer therefore ends with exactly `hashes` set
    /// bits.
    pub fn insert(&mut self, input: &str)
        requires
            old(self).wf(),
        ensures
            final(self).wf(),
            final(self).same_config(*old(self)),
            forall|j: int|
                #![trigger final(self).view_bits()[j]]
                0 <= j < final(self).spec_size() ==> final(self).view_bits()[j] == (
                old(self).view_bits()[j] || exists|i: int|
                    0 <= i < final(self).spec_hashes() && j == #[trigger] old(
                    self).spec_bit_index(input.spec_bytes(), i)),
            final(self).spec_contains(input.spec_bytes()),
            pop(old(self).view_bits()) == 0 ==> pop(final(self).view_bits()) == final(
            self).spec_hashes(),
            pop(old(self).view_bits()) <= pop(final(self).view_bits()),
            old(self).spec_contains(input.spec_bytes()) ==> final(self).view_bits() == old(
            self).view_bits(),
    {
        let bytes: &[u8] = input.as_bytes();
        let ghost bs = input.spec_bytes();
        let k = self.hashes;
        let ghost old_view = self.view_bits();
        for i in 0..k
            invariant
                old(self).wf(),
                self.wf(),
                self.same_config(*old(self)),
                k == self.hashes,
                bs == bytes@,
                old_view == old(self).view_bits(),
                forall|j: int|
                    #![trigger self.view_bits()[j]]
                    0 <= j < self.size ==> self.view_bits()[j] == (old_view[j] || exists|i2: int|
                        0 <= i2 < i && j == #[trigger] old(self).spec_bit_index(bs, i2)),
                pop(old_view) == 0 ==> self.ones == i,
        {
            let ghost pre = *self;
            proof {
                old(self).lemma_bit_index_range(bs, i as int);
            }
            let h: u64 = hash_bytes(bytes, i as u64, self.layer as u64);
            let offset: usize = (h % (self.partition_size as u64)) as usize;
            let idx: usize = i * self.partition_size + offset;
            proof {
                assert(idx == old(self).spec_bit_index(bs, i as int));
                assert(8 * ((self.size + 7) / 8) >= self.size);
            }
            let was = bit_set(&mut self.bits, idx);
            if !was {
                proof {
                    lemma_pop_le(pre.view_bits());
                }
                self.ones = self.ones + 1;
            }
            proof {
                assert(self.view_bits() =~= pre.view_bits().update(idx as int, true));
                lemma_pop_update_true(pre.view_bits(), idx as int);
                if pop(old_view) == 0 {
                    // the freshly set bit was clear: bits set so far lie in
                    // lower bands
                    lemma_pop_zero(old_view);
                    assert(!old_view[idx as int]);
                    assert(pre.view_bits()[idx as int] == was);
                    if pre.view_bits()[idx as int] {
                        let i2 = choose|i2: int|
                            0 <= i2 < i && idx as int == old(self).spec_bit_index(bs, i2);
                        old(self).lemma_bit_index_distinct(bs, i2, i as int);
                        assert(false);
                    }
                }
                assert forall|j: int|
                    #![trigger self.view_bits()[j]]
                    0 <= j < self.size implies self.view_bits()[j] == (old_view[j] || exists|
                    i2: int,
                |
                    0 <= i2 < i + 1 && j == #[trigger] old(self).spec_bit_index(bs, i2)) by {
                    if j == idx as int {
                        assert(self.view_bits()[j]);
                        assert(0 <= i < i + 1 && j == old(self).spec_bit_index(bs, i as int));
                    } else {
                        assert(self.view_bits()[j] == pre.view_bits()[j]);
                        assert(pre.view_bits()[j] == (old_view[j] || exists|i2: int|
                            0 <= i2 < i && j == #[trigger] old(self).spec_bit_index(bs, i2)));
                        if exists|i2: int|
                            0 <= i2 < i && j == #[trigger] old(self).spec_bit_index(bs, i2) {
                            let i2 = choose|i2: int|
                                0 <= i2 < i && j == old(self).spec_bit_index(bs, i2);
                            assert(0 <= i2 < i + 1 && j == old(self).spec_bit_index(bs, i2));
                        }
                        if exists|i2: int|
                            0 <= i2 < i + 1 && j == #[trigger] old(self).spec_bit_index(bs, i2) {
                            let i2 = choose|i2: int|
                                0 <= i2 < i + 1 && j == old(self).spec_bit_index(bs, i2);
                            assert(i2 < i);
                        }
                    }
                }
            }
        }
        proof {
            assert forall|i: int|
                0 <= i < self.spec_hashes() implies self.view_bits()[#[trigger] self.spec_bit_index(
                bs,
                i,
            )] by {
                old(self).lemma_bit_index_range(bs, i);
                assert(self.spec_bit_index(bs, i) == old(self).spec_bit_index(bs, i));
                let j = old(self).spec_bit_index(bs, i);
                assert(0 <= i < self.hashes && j == old(self).spec_bit_index(bs, i));
                assert(self.view_bits()[j]);
            }
            // bits only get set, so the popcount cannot fall
            assert forall|j: int|
                0 <= j < old(self).view_bits().len() implies (old(self).view_bits()[j]
                ==> self.view_bits()[j]) by {
                assert(self.view_bits()[j] == (old_view[j] || exists|i2: int|
                    0 <= i2 < self.hashes && j == #[trigger] old(self).spec_bit_index(bs, i2)));
            }
            lemma_pop_monotone(old(self).view_bits(), self.view_bits());
            // inserting a contained element flips no bit
            if old(self).spec_contains(bs) {
                assert forall|j: int|
                    0 <= j < self.size implies self.view_bits()[j] == old(self).view_bits()[
                j] by {
                    assert(self.view_bits()[j] == (old_view[j] || exists|i2: int|
                        0 <= i2 < self.hashes && j == #[trigger] old(self).spec_bit_index(
                            bs,
                            i2,
                        )));
                    if !old_view[j] && self.view_bits()[j] {
                        let i2 = choose|i2: int|
                            0 <= i2 < self.hashes && j == old(self).spec_bit_index(bs, i2);
                        assert(old(self).view_bits()[old(self).spec_bit_index(bs, i2)]);
                    }
                }
                assert(self.view_bits() =~= old(self).view_bits());
            }
        }
    }

    /// True iff every band bit of `input` is set; never false for an
    /// inserted element.
    pub fn contains(&self, input: &str) -> (r: bool)
        requires
            self.wf(),
        ensures
            r == self.spec_contains(input.spec_bytes()),
    {
        let bytes: &[u8] = input.as_bytes();
        let ghost bs = input.spec_bytes();
        let k = self.hashes;
        for i in 0..k
            invariant
                self.wf(),
                k == self.hashes,
                bs == bytes@,
                bs == input.spec_bytes(),
                forall|i2: int|
                    0 <= i2 < i ==> self.view_bits()[#[trigger] self.spec_bit_index(bs, i2)],
        {
            proof {
                self.lemma_bit_index_range(bs, i as int);
            }
            let h: u64 = hash_bytes(bytes, i as u64, self.layer as u64);
            let offset: usize = (h % (self.partition_size as u64)) as usize;
            let idx: usize = i * self.partition_size + offset;
            proof {
                assert(idx == self.spec_bit_index(bs, i as int));
                assert(8 * ((self.size + 7) / 8) >= self.size);
            }
            if !bit_get(&self.bits, idx) {
                proof {
                    assert(!self.view_bits()[self.spec_bit_index(input.spec_bytes(), i as int)]);
                    assert(!self.spec_contains(input.spec_bytes()));
                }
                return false;
            }
        }
        true
    }

    /// The number of set bits (popcount of the bit array).
    pub fn count_set_bits(&self) -> (n: usize)
        requires
            self.wf(),
        ensures
            n == pop(self.view_bits()),
    {
        self.ones
    }

    /// More than half of the bit array is set.
    pub fn is_half_full(&self) -> (r: bool)
        requires
            self.wf(),
        ensures
            r == (2 * pop(self.view_bits()) > self.spec_size()),
    {
        proof {
            lemma_pop_le(self.view_bits());
        }
        2 * self.ones > self.size
    }

    /// The total number of bits in the array.
    pub fn bit_size(&self) -> (n: usize)
        ensures
            n == self.spec_size(),
    {
        self.size
    }

    /// The number of hash bands.
    pub fn hash_count(&self) -> (n: usize)
        ensures
            n == self.spec_hashes(),
    {
        self.hashes
    }

    /// The creation timestamp (caller-supplied monotonic milliseconds).
    pub fn created(&self) -> (t: u64)
        ensures
            t == self.spec_created_at(),
    {
        self.created_at
    }

    /// The layer as a mathematical value.
    pub closed spec fn model(self) -> LayerModel {
        LayerModel {
            bits: self.view_bits(),
            size: self.size as int,
            hashes: self.hashes as int,
            layer: self.layer as int,
            partition_size: self.partition_size as int,
            created_at: self.created_at,
        }
    }
}

/// Width of one hash band, in bits.
pub const PARTITION_BITS: usize = 2048;

/// Fixed-point `-1000 * log2(fpr)` for the initial target false-positive
/// rate of 0.001.
pub const INITIAL_MILLIBITS: u64 = 9966;

/// Fixed-point `-1000 * log2(0.8)`: each new layer tightens the target
/// false-positive rate by the ratio 0.8.
pub const TIGHTEN_MILLIBITS: u64 = 322;

/// Safety cap on the tightened target (at most 64 hash bands per layer).
pub const MILLIBITS_CAP: u64 = 64000;

/// Safety cap on the number of layers.
pub const MAX_LAYERS: usize = 0xffff;

/// Hash-band count for a fixed-point target: the ceiling of
/// `millibits / 1000`.
pub open spec fn hashes_for_millibits(mb: u64) -> int {
    (mb + 999) / 1000
}

/// A fresh first layer, as `prune` recreates it: all bits clear, the initial
/// band count and size, stamped with the given time.
pub open spec fn is_initial_layer(f: BloomFilter, now: u64) -> bool {
    &&& f.wf()
    &&& f.spec_size() == PARTITION_BITS * hashes_for_millibits(INITIAL_MILLIBITS)
    &&& f.spec_hashes() == hashes_for_millibits(INITIAL_MILLIBITS)
    &&& f.spec_layer() == 1
    &&& f.spec_partition_size() == PARTITION_BITS
    &&& f.spec_created_at() == now
    &&& forall|j: int| 0 <= j < f.spec_size() ==> !f.view_bits()[j]
}

/// The mathematical content of a layer: its bit contents, shape and age.
#[verifier::ext_equal]
pub ghost struct LayerModel {
    pub bits: Seq<bool>,
    pub size: int,
    pub hashes: int,
    pub layer: int,
    pub partition_size: int,
    pub created_at: u64,
}

/// `BloomFilter::insert` only sets bits, so whatever a layer contained
/// before an insert it still contains afterwards.
pub proof fn lemma_insert_preserves_contains(pre: BloomFilter, post: BloomFilter, b: Seq<u8>)
    requires
        pre.wf(),
        post.wf(),
        post.same_config(pre),
        forall|j: int|
            #![trigger post.view_bits()[j]]
            0 <= j < post.spec_size() ==> (pre.view_bits()[j] ==> post.view_bits()[j]),
        pre.spec_contains(b),
    ensures
        post.spec_contains(b),
{
    assert forall|i: int|
        0 <= i < post.spec_hashes() implies post.view_bits()[#[trigger] post.spec_bit_index(
        b,
        i,
    )] by {
        pre.lemma_bit_index_range(b, i);
        post.lemma_bit_index_range(b, i);
        assert(post.spec_bit_index(b, i) == pre.spec_bit_index(b, i));
        assert(pre.view_bits()[pre.spec_bit_index(b, i)]);
    }
}

/// A stack of Bloom layers, oldest first, with geometric size growth and
/// fixed-point tightening of the target false-positive rate.
pub struct ScalableBloomFilter {
    filters: Vec<BloomFilter>,
    target_millibits: u64,
    growth_factor: usize,
    partition_size: usize,
}

impl ScalableBloomFilter {
    pub closed spec fn layers(self) -> Seq<BloomFilter> {
        self.filters@
    }

    pub closed spec fn spec_target_millibits(self) -> u64 {
        self.target_millibits
    }

    /// The filter as a mathematical value: the models of its layers, oldest
    /// first.
    pub open spec fn model(self) -> Seq<LayerModel> {
        self.layers().map(|i: int, f: BloomFilter| f.model())
    }

    pub closed spec fn wf(self) -> bool {
        &&& 1 <= self.filters@.len() <= MAX_LAYERS
        &&& forall|i: int| 0 <= i < self.filters@.len() ==> (#[trigger] self.filters@[i]).wf()
        &&& forall|i: int|
            0 <= i < self.filters@.len() ==> (#[trigger] self.filters@[i]).spec_partition_size()
                == PARTITION_BITS
        &&& INITIAL_MILLIBITS <= self.target_millibits <= MILLIBITS_CAP
        &&& self.growth_factor == 2
        &&& self.partition_size == PARTITION_BITS
    }

    /// Some layer reports the input.
    pub open spec fn spec_contains(self, bytes: Seq<u8>) -> bool {
        exists|i: int|
            0 <= i < self.layers().len() && (#[trigger] self.layers()[i]).spec_contains(bytes)
    }

    /// A well-formed filter holds at least one layer.
    pub proof fn lemma_wf_nonempty(self)
        requires
            self.wf(),
        ensures
            self.layers().len() >= 1,
    {
    }

    /// One fresh initial layer, target false-positive rate 0.001.
    pub fn new(now: u64) -> (r: ScalableBloomFilter)
        ensures
            r.wf(),
            r.layers().len() == 1,
            is_initial_layer(r.layers()[0], now),
            forall|bytes: Seq<u8>| !r.spec_contains(bytes),
            r.spec_target_millibits() == INITIAL_MILLIBITS,
    {
        let initial_hashes: usize = ((INITIAL_MILLIBITS + 999) / 1000) as usize;
        let initial_size: usize = PARTITION_BITS * initial_hashes;
        let first = BloomFilter::new(initial_size, initial_hashes, 1, PARTITION_BITS, now);
        let mut filters: Vec<BloomFilter> = Vec::new();
        filters.push(first);
        let r = ScalableBloomFilter {
            filters,
            target_millibits: INITIAL_MILLIBITS,
            growth_factor: 2,
            partition_size: PARTITION_BITS,
        };
        proof {
            assert forall|bytes: Seq<u8>| !r.spec_contains(bytes) by {
                assert forall|i: int|
                    0 <= i < r.layers().len() implies !(#[trigger] r.layers()[i]).spec_contains(
                    bytes,
                ) by {
                    let f = r.layers()[i];
                    f.lemma_bit_index_range(bytes, 0);
                    assert(!f.view_bits()[f.spec_bit_index(bytes, 0)]);
                }
            }
        }
        r
    }

    /// True iff any layer contains the input; never false for an inserted
    /// element.
    pub fn contains(&self, input: &str) -> (r: bool)
        requires
            self.wf(),
        ensures
            r == self.spec_contains(input.spec_bytes()),
    {
        let n = self.filters.len();
        for i in 0..n
            invariant
                self.wf(),
                n == self.filters@.len(),
                forall|i2: int| 0 <= i2 < i ==> !(#[trigger] self.layers()[i2]).spec_contains(
                    input.spec_bytes(),
                ),
        {
            if self.filters[i].contains(input) {
                proof {
                    assert(self.layers()[i as int].spec_contains(input.spec_bytes()));
                }
                return true;
            }
        }
        false
    }

    /// The last layer is more than half full and the layer cap is not yet
    /// reached, so an insert first appends a tightened, doubled layer.
    pub open spec fn spec_should_grow(self) -> bool {
        &&& 2 * pop(self.layers().last().view_bits()) > self.layers().last().spec_size()
        &&& self.layers().len() < MAX_LAYERS
    }

    /// Appends a tightened layer when the newest one is over half full, then
    /// inserts into the newest layer.  Membership of every previously
    /// contained element is preserved, and the inserted element is contained
    /// afterwards.
    pub fn insert(&mut self, input: &str, now: u64)
        requires
            old(self).wf(),
        ensures
            final(self).wf(),
            final(self).layers().len() >= 1,
            final(self).spec_contains(input.spec_bytes()),
            forall|b: Seq<u8>|
                old(self).spec_contains(b) ==> #[trigger] final(self).spec_contains(b),
            old(self).spec_should_grow() ==> {
                &&& final(self).layers().len() == old(self).layers().len() + 1
                &&& final(self).layers().take(old(self).layers().len() as int) == old(
                    self,
                ).layers()
                &&& final(self).layers().last().spec_created_at() == now
                &&& final(self).spec_target_millibits() == (
                if old(self).spec_target_millibits() + TIGHTEN_MILLIBITS > MILLIBITS_CAP {
                    MILLIBITS_CAP
                } else {
                    (old(self).spec_target_millibits() + TIGHTEN_MILLIBITS) as u64
                })
                &&& final(self).layers().last().spec_hashes() == hashes_for_millibits(
                    final(self).spec_target_millibits(),
                )
                &&& final(self).layers().last().spec_size() == PARTITION_BITS
                    * hashes_for_millibits(final(self).spec_target_millibits()) * 2
                &&& final(self).layers().last().spec_layer() == old(self).layers().len() + 1
                &&& final(self).layers().last().spec_partition_size() == PARTITION_BITS
            },
            !old(self).spec_should_grow() ==> {
                &&& final(self).layers().len() == old(self).layers().len()
                &&& final(self).layers().take(final(self).layers().len() - 1) == old(
                    self,
                ).layers().take(old(self).layers().len() - 1)
                &&& final(self).layers().last().same_config(old(self).layers().last())
                &&& final(self).spec_target_millibits() == old(self).spec_target_millibits()
            },
    {
        let half = self.filters[self.filters.len() - 1].is_half_full();
        if half && self.filters.len() < MAX_LAYERS {
            let mb: u64 = if self.target_millibits + TIGHTEN_MILLIBITS > MILLIBITS_CAP {
                MILLIBITS_CAP
            } else {
                self.target_millibits + TIGHTEN_MILLIBITS
            };
            self.target_millibits = mb;
            let k: usize = ((mb + 999) / 1000) as usize;
            proof {
                assert(10 <= k <= 64);
                assert(self.partition_size * k == 2048 * k);
                assert(self.partition_size * k * self.growth_factor == 2048 * k * 2);
                assert(k * self.partition_size == k * 2048);
            }
            let size: usize = self.partition_size * k * self.growth_factor;
            let layer_index: usize = self.filters.len() + 1;
            let fresh = BloomFilter::new(size, k, layer_index, self.partition_size, now);
            self.filters.push(fresh);
        }
        let ghost mid = *self;
        let mut last = self.filters.pop().unwrap();
        let ghost pre_last = last;
        last.insert(input);
        self.filters.push(last);
        proof {
            assert(self.filters@ =~= mid.filters@.update(mid.filters@.len() - 1, self.filters@.last()));
            assert(self.layers()[self.layers().len() - 1].spec_contains(input.spec_bytes()));
            assert(self.spec_contains(input.spec_bytes()));
            assert forall|b: Seq<u8>|
                old(self).spec_contains(b) implies #[trigger] self.spec_contains(b) by {
                let i = choose|i: int|
                    0 <= i < old(self).layers().len() && (#[trigger] old(
                        self,
                    ).layers()[i]).spec_contains(b);
                if i < mid.filters@.len() - 1 {
                    assert(self.layers()[i].spec_contains(b));
                } else {
                    lemma_insert_preserves_contains(pre_last, self.filters@.last(), b);
                    assert(self.layers()[mid.filters@.len() - 1].spec_contains(b));
                }
            }
            if old(self).spec_should_grow() {
                assert(self.layers().take(old(self).layers().len() as int) =~= old(
                    self,
                ).layers());
            } else {
                assert(self.layers().take(self.layers().len() - 1) =~= old(self).layers().take(
                    old(self).layers().len() - 1,
                ));
            }
        }
    }

    /// The number of layers.
    pub fn layer_count(&self) -> (n: usize)
        ensures
            n == self.layers().len(),
    {
        self.filters.len()
    }

    /// The total number of bits across all layers.
    pub fn total_bits(&self) -> (n: u64)
        requires
            self.wf(),
        ensures
            n == sum_sizes(self.layers()),
    {
        let mut n: u64 = 0;
        let count = self.filters.len();
        for i in 0..count
            invariant
                self.wf(),
                count == self.filters@.len(),
                n == sum_sizes(self.layers().take(i as int)),
                n <= i * 0x1000_0000,
        {
            proof {
                assert(self.layers().take(i + 1).drop_last() =~= self.layers().take(i as int));
                assert(self.layers().take(i + 1).last() == self.layers()[i as int]);
                assert((i + 1) * 0x1000_0000 == i * 0x1000_0000 + 0x1000_0000);
                assert(i * 0x1000_0000 <= 0xffff * 0x1000_0000);
            }
            n = n + self.filters[i].bit_size() as u64;
        }
        proof {
            assert(self.layers().take(count as int) =~= self.layers());
        }
        n
    }

    /// The total number of set bits across all layers.
    pub fn set_bits(&self) -> (n: u64)
        requires
            self.wf(),
        ensures
            n == sum_ones(self.layers()),
            n <= sum_sizes(self.layers()),
    {
        let mut n: u64 = 0;
        let count = self.filters.len();
        for i in 0..count
            invariant
                self.wf(),
                count == self.filters@.len(),
                n == sum_ones(self.layers().take(i as int)),
                n <= sum_sizes(self.layers().take(i as int)),
                sum_sizes(self.layers().take(i as int)) <= i * 0x1000_0000,
        {
            proof {
                assert(self.layers().take(i + 1).drop_last() =~= self.layers().take(i as int));
                assert(self.layers().take(i + 1).last() == self.layers()[i as int]);
                assert((i + 1) * 0x1000_0000 == i * 0x1000_0000 + 0x1000_0000);
                assert(i * 0x1000_0000 <= 0xffff * 0x1000_0000);
                lemma_pop_le(self.layers()[i as int].view_bits());
            }
            n = n + self.filters[i].count_set_bits() as u64;
        }
        proof {
            assert(self.layers().take(count as int) =~= self.layers());
        }
        n
    }

    /// Online estimate of the false-positive rate in parts per million:
    /// the fixed-point value of `1 - prod_i (1 - 2^-k_i)`.
    pub fn fpr_ppm(&self) -> (r: u64)
        requires
            self.wf(),
        ensures
            r == PPM - miss_ppm(self.layers(), self.layers().len() as int),
            r <= PPM,
    {
        let mut acc: u64 = PPM;
        let count = self.filters.len();
        for i in 0..count
            invariant
                self.wf(),
                count == self.filters@.len(),
                acc == miss_ppm(self.layers(), i as int),
                0 <= acc <= PPM,
        {
            let k = self.filters[i].hash_count();
            let term: u64 = if k >= 20 {
                proof {
                    lemma_term_high(k as int);
                }
                PPM
            } else {
                let mut p: u64 = 1;
                proof {
                    vstd::arithmetic::power2::lemma2_to64();
                }
                for b in 0..k
                    invariant
                        k < 20,
                        p == vstd::arithmetic::power2::pow2(b as nat),
                        p <= 0x8_0000,
                    {
                    proof {
                        vstd::arithmetic::power2::lemma_pow2_adds(b as nat, 1);
                        vstd::arithmetic::power2::lemma2_to64();
                        vstd::arithmetic::power2::lemma_pow2_strictly_increases(
                            b as nat,
                            19,
                        );
                    }
                    p = p * 2;
                }
                proof {
                    vstd::arithmetic::power2::lemma_pow2_pos(k as nat);
                }
                PPM - PPM / p
            };
            proof {
                assert(0 <= term <= PPM);
                crate::math::lemma_mul_bounds(acc as int, term as int, PPM as int);
                vstd::arithmetic::div_mod::lemma_div_is_ordered(
                    (acc * term) as int,
                    (PPM * PPM) as int,
                    PPM as int,
                );
                assert((PPM * PPM) as int / (PPM as int) == PPM);
                vstd::arithmetic::div_mod::lemma_div_pos_is_pos((acc * term) as int, PPM as int);
            }
            acc = ((acc as u128 * term as u128) / PPM as u128) as u64;
        }
        PPM - acc
    }

    /// Discards every layer older than `max_age_ms`; if none survives, one
    /// fresh initial layer stamped `now` takes their place, so the filter is
    /// never empty.
    pub fn prune(&mut self, max_age_ms: u64, now: u64)
        requires
            old(self).wf(),
        ensures
            final(self).wf(),
            final(self).layers().len() >= 1,
            prune_rel(*old(self), *final(self), max_age_ms, now),
            young_layers(old(self).layers(), max_age_ms, now).len() == 0 ==> forall|b: Seq<u8>|
                !final(self).spec_contains(b),
    {
        let ghost old_seq = self.filters@;
        let mut i: usize = 0;
        let ghost mut j: int = 0;
        while i < self.filters.len()
            invariant
                old(self).wf(),
                0 <= i <= self.filters@.len(),
                0 <= j <= old_seq.len(),
                i <= j,
                old_seq == old(self).filters@,
                self.filters@.take(i as int) =~= young_layers(old_seq.take(j), max_age_ms, now),
                self.filters@.skip(i as int) =~= old_seq.skip(j),
                self.target_millibits == old(self).target_millibits,
                self.growth_factor == old(self).growth_factor,
                self.partition_size == old(self).partition_size,
            decreases old_seq.len() - j,
        {
            let ghost pre_seq = self.filters@;
            proof {
                assert(old_seq.skip(j).len() == old_seq.len() - j);
                assert(self.filters@.skip(i as int)[0] == self.filters@[i as int]);
                assert(old_seq.skip(j)[0] == old_seq[j]);
                assert(self.filters@[i as int] == old_seq[j]);
                assert(old_seq.take(j + 1).drop_last() =~= old_seq.take(j));
                assert(old_seq.take(j + 1).last() == old_seq[j]);
            }
            let created = self.filters[i].created();
            let age: u64 = if now >= created {
                now - created
            } else {
                0
            };
            if age < max_age_ms {
                i = i + 1;
                proof {
                    j = j + 1;
                    assert(layer_young(old_seq[j - 1], max_age_ms, now));
                    assert(young_layers(old_seq.take(j), max_age_ms, now) =~= young_layers(
                        old_seq.take(j - 1),
                        max_age_ms,
                        now,
                    ).push(old_seq[j - 1]));
                    assert(self.filters@.take(i as int) =~= pre_seq.take(i - 1).push(
                        old_seq[j - 1],
                    ));
                    assert(self.filters@.skip(i as int) =~= pre_seq.skip(i - 1).skip(1));
                    assert(old_seq.skip(j) =~= old_seq.skip(j - 1).skip(1));
                    assert(pre_seq.skip(i - 1).skip(1) =~= old_seq.skip(j - 1).skip(1));
                }
            } else {
                self.filters.remove(i);
                proof {
                    j = j + 1;
                    assert(!layer_young(old_seq[j - 1], max_age_ms, now));
                    assert(young_layers(old_seq.take(j), max_age_ms, now) =~= young_layers(
                        old_seq.take(j - 1),
                        max_age_ms,
                        now,
                    ));
                    assert(self.filters@.take(i as int) =~= pre_seq.take(i as int));
                    assert(self.filters@.skip(i as int) =~= pre_seq.skip(i + 1));
                    assert(pre_seq.skip(i + 1) =~= pre_seq.skip(i as int).skip(1));
                    assert(old_seq.skip(j) =~= old_seq.skip(j - 1).skip(1));
                    assert(pre_seq.skip(i as int).skip(1) =~= old_seq.skip(j - 1).skip(1));
                }
            }
        }
        proof {
            assert(j == old_seq.len());
            assert(old_seq.take(j) =~= old_seq);
            assert(self.filters@ =~= self.filters@.take(self.filters@.len() as int));
            assert(self.filters@ =~= young_layers(old_seq, max_age_ms, now));
            lemma_young_layers_sub(old_seq, max_age_ms, now);
        }
        if self.filters.len() == 0 {
            let initial_hashes: usize = ((INITIAL_MILLIBITS + 999) / 1000) as usize;
            let initial_size: usize = PARTITION_BITS * initial_hashes;
            let first = BloomFilter::new(initial_size, initial_hashes, 1, PARTITION_BITS, now);
            self.filters.push(first);
            proof {
                assert forall|b: Seq<u8>| !self.spec_contains(b) by {
                    assert forall|i2: int|
                        0 <= i2 < self.layers().len() implies !(
                    #[trigger] self.layers()[i2]).spec_contains(b) by {
                        let f = self.layers()[i2];
                        f.lemma_bit_index_range(b, 0);
                        assert(!f.view_bits()[f.spec_bit_index(b, 0)]);
                    }
                }
            }
        }
    }
}

/// Parts-per-million fixed-point scale for the estimated false-positive
/// rate.
pub const PPM: u64 = 1_000_000;

/// One layer's per-query miss weight in parts per million:
/// `PPM * (1 - 2^-k)`, rounded down.
pub open spec fn term_ppm(k: int) -> int {
    PPM - PPM as int / vstd::arithmetic::power2::pow2(k as nat) as int
}

/// Fixed-point estimate of the probability that no layer reports a foreign
/// element: the running product of the first `n` layers' miss weights.
pub open spec fn miss_ppm(layers: Seq<BloomFilter>, n: int) -> int
    decreases n,
{
    if n <= 0 {
        PPM as int
    } else {
        miss_ppm(layers, n - 1) * term_ppm(layers[n - 1].spec_hashes()) / (PPM as int)
    }
}

/// Sum of the layers' bit-array sizes.
pub open spec fn sum_sizes(layers: Seq<BloomFilter>) -> int
    decreases layers.len(),
{
    if layers.len() == 0 {
        0
    } else {
        sum_sizes(layers.drop_last()) + layers.last().spec_size()
    }
}

/// Sum of the layers' set-bit counts.
pub open spec fn sum_ones(layers: Seq<BloomFilter>) -> int
    decreases layers.len(),
{
    if layers.len() == 0 {
        0
    } else {
        sum_ones(layers.drop_last()) + pop(layers.last().view_bits())
    }
}

/// For twenty or more hash bands the fixed-point miss weight rounds to the
/// full scale.
proof fn lemma_term_high(k: int)
    requires
        k >= 20,
    ensures
        term_ppm(k) == PPM,
{
    vstd::arithmetic::power2::lemma2_to64();
    if k > 20 {
        vstd::arithmetic::power2::lemma_pow2_strictly_increases(20, k as nat);
    }
    assert(vstd::arithmetic::power2::pow2(k as nat) >= 0x10_0000);
    vstd::arithmetic::div_mod::lemma_basic_div(PPM as int, vstd::arithmetic::power2::pow2(k as nat) as int);
}

/// A layer survives a prune at time `now`: its age (saturating) is under the
/// given maximum.
pub open spec fn layer_young(f: BloomFilter, max_age_ms: u64, now: u64) -> bool {
    (if now >= f.spec_created_at() {
        now - f.spec_created_at()
    } else {
        0int
    }) < max_age_ms
}

/// The subsequence of layers that survive a prune at time `now`, in order.
pub open spec fn young_layers(s: Seq<BloomFilter>, max_age_ms: u64, now: u64) -> Seq<BloomFilter>
    decreases s.len(),
{
    if s.len() == 0 {
        Seq::empty()
    } else {
        let rest = young_layers(s.drop_last(), max_age_ms, now);
        if layer_young(s.last(), max_age_ms, now) {
            rest.push(s.last())
        } else {
            rest
        }
    }
}

/// Every surviving layer is young and occurs in the original sequence; no
/// layers are invented.
pub proof fn lemma_young_layers_sub(s: Seq<BloomFilter>, max_age_ms: u64, now: u64)
    ensures
        young_layers(s, max_age_ms, now).len() <= s.len(),
        forall|i: int|
            0 <= i < young_layers(s, max_age_ms, now).len() ==> layer_young(
                #[trigger] young_layers(s, max_age_ms, now)[i],
                max_age_ms,
                now,
            ) && s.contains(young_layers(s, max_age_ms, now)[i]),
    decreases s.len(),
{
    if s.len() > 0 {
        lemma_young_layers_sub(s.drop_last(), max_age_ms, now);
        assert forall|i: int|
            0 <= i < young_layers(s, max_age_ms, now).len() implies layer_young(
            #[trigger] young_layers(s, max_age_ms, now)[i],
            max_age_ms,
            now,
        ) && s.contains(young_layers(s, max_age_ms, now)[i]) by {
            let ys = young_layers(s, max_age_ms, now);
            let rest = young_layers(s.drop_last(), max_age_ms, now);
            if i < rest.len() {
                assert(ys[i] == rest[i]);
                let w = choose|w: int| 0 <= w < s.drop_last().len() && s.drop_last()[w] == rest[i];
                assert(s[w] == ys[i]);
            } else {
                assert(ys[i] == s.last());
                assert(s[s.len() - 1] == ys[i]);
            }
        }
    }
}

/// When every layer is young, pruning keeps the sequence unchanged.
pub proof fn lemma_young_layers_all(s: Seq<BloomFilter>, max_age_ms: u64, now: u64)
    requires
        forall|i: int| 0 <= i < s.len() ==> layer_young(#[trigger] s[i], max_age_ms, now),
    ensures
        young_layers(s, max_age_ms, now) == s,
    decreases s.len(),
{
    if s.len() > 0 {
        lemma_young_layers_all(s.drop_last(), max_age_ms, now);
        assert(layer_young(s[s.len() - 1], max_age_ms, now));
        assert(young_layers(s, max_age_ms, now) =~= s.drop_last().push(s.last()));
        assert(s.drop_last().push(s.last()) =~= s);
    }
}

/// What `ScalableBloomFilter::prune` does: the young layers survive in
/// order, or, when none does, exactly one fresh initial layer stamped `now`
/// remains.  The configuration fields are untouched.
pub open spec fn prune_rel(
    pre: ScalableBloomFilter,
    post: ScalableBloomFilter,
    max_age_ms: u64,
    now: u64,
) -> bool {
    let kept = young_layers(pre.layers(), max_age_ms, now);
    &&& post.spec_target_millibits() == pre.spec_target_millibits()
    &&& if kept.len() > 0 {
        post.layers() == kept
    } else {
        post.layers().len() == 1 && is_initial_layer(post.layers()[0], now)
    }
}

/// Pruning is idempotent: pruning an already pruned filter with the same
/// arguments leaves its model (the sequence of layer models) unchanged.
pub proof fn lemma_prune_idempotent(
    s1: ScalableBloomFilter,
    s2: ScalableBloomFilter,
    s3: ScalableBloomFilter,
    max_age_ms: u64,
    now: u64,
)
    requires
        s1.wf(),
        s2.wf(),
        s3.wf(),
        prune_rel(s1, s2, max_age_ms, now),
        prune_rel(s2, s3, max_age_ms, now),
    ensures
        s3.model() == s2.model(),
{
    let kept1 = young_layers(s1.layers(), max_age_ms, now);
    let kept2 = young_layers(s2.layers(), max_age_ms, now);
    if kept1.len() > 0 {
        // every survivor is young, so the second prune keeps them all
        lemma_young_layers_sub(s1.layers(), max_age_ms, now);
        lemma_young_layers_all(s2.layers(), max_age_ms, now);
        assert(s3.layers() == s2.layers());
    } else {
        // the fresh layer has age zero
        if max_age_ms > 0 {
            assert(layer_young(s2.layers()[0], max_age_ms, now));
            assert(forall|i: int|
                0 <= i < s2.layers().len() ==> layer_young(#[trigger] s2.layers()[i], max_age_ms, now));
            lemma_young_layers_all(s2.layers(), max_age_ms, now);
            assert(s3.layers() == s2.layers());
        } else {
            // both prunes end with a fresh initial layer stamped `now`
            assert(!layer_young(s2.layers()[0], max_age_ms, now));
            lemma_young_layers_sub(s2.layers(), max_age_ms, now);
            if kept2.len() > 0 {
                let w = choose|w: int| 0 <= w < s2.layers().len() && s2.layers()[w] == kept2[0];
                assert(w == 0);
                assert(false);
            }
            assert(s3.layers().len() == 1 && is_initial_layer(s3.layers()[0], now));
            lemma_initial_layer_model(s2.layers()[0], s3.layers()[0], now);
        }
    }
    assert(s3.model() =~= s2.model());
}

/// Two fresh initial layers stamped with the same time have equal models./// Two fresh initial layers stamped with the same time have equal models.
proof fn lemma_initial_layer_model(f1: BloomFilter, f2: BloomFilter, now: u64)
    requires
        is_initial_layer(f1, now),
        is_initial_layer(f2, now),
    ensures
        f1.model() == f2.model(),
{
    assert(f1.view_bits() =~= f2.view_bits());
    assert(f1.model() =~= f2.model());
}

} // verus!
