//! The densified one-permutation hash family (DOPH).
//!
//! A hash family maps each sparse vector of a batch to one bucket index per
//! table, in `[0, 2^range_pow)`. Per vector there are three stages: a
//! scrambled min-hash over `num_hashes = k * l` bins; densification, which
//! fills each empty bin from another bin found by a deterministic probe (a
//! bin still empty after 100 probes falls back to 0); and a compound stage
//! that folds each table's `k` densified hashes into one bucket index. Every
//! intermediate is a 32-bit word with wrapping arithmetic, so the output is a
//! pure function of the seeds and the input.

use vstd::prelude::*;

use std::io::Write;

use crate::batch::SparseBatch;
use crate::entropy;
use crate::heap_array::HeapAllocatedArray;

verus! {

use vstd::arithmetic::power2::pow2;
use vstd::wrapping::u32_specs;

/// Relies on std::io::stderr: reports a densification fallback on the
/// diagnostic stream. Informational only; the affected bin falls back to 0.
#[verifier::external_body]
fn densification_failure_notice() {
    let _ = writeln!(std::io::stderr(), "Densification Failure");
}

/// The number of probe rounds after which densification gives up on a bin.
pub const MAX_DENSIFY_RETRY: u32 = 100;

/// The scrambled hash of one feature index: multiply, fold, multiply again,
/// and keep the top `range_pow` bits.
pub open spec fn feature_hash(randa: u32, range_pow: u32, v: u32) -> u32 {
    let h0 = u32_specs::wrapping_mul(v, randa);
    let h1 = h0 ^ (h0 >> 13u32);
    let h2 = u32_specs::wrapping_mul(h1, 0x85ebca6bu32);
    (u32_specs::wrapping_mul(h2, v) << 5u32) >> (32 - range_pow) as u32
}

/// Keeping the top `range_pow` bits of a word leaves a value below
/// `2^range_pow`.
pub proof fn lemma_shift_range(x: u32, range_pow: u32)
    requires
        1 <= range_pow <= 31,
    ensures
        ((x >> (32 - range_pow) as u32) as int) < pow2(range_pow as nat),
{
    assert((x >> (32 - range_pow) as u32) < (1u32 << range_pow)) by (bit_vector)
        requires
            1 <= range_pow <= 31,
    ;
    vstd::bits::lemma_u32_pow2_no_overflow(range_pow as nat);
    vstd::bits::lemma_u32_shl_is_mul(1u32, range_pow);
}

/// The largest power of two strictly below `h`, computed by doubling from
/// `log` (1 when `h <= 2`).
pub open spec fn log_cap_from(h: int, log: int) -> int
    decreases (if h - 2 * log > 0 {
        h - 2 * log
    } else {
        0
    }),
{
    if log < 1 {
        log
    } else if 2 * log < h {
        log_cap_from(h, 2 * log)
    } else {
        log
    }
}

/// The densification retry mask width for a family of `h` sub-hashes.
pub open spec fn spec_log_num_hash(h: int) -> int {
    log_cap_from(h, 1)
}

/// The mathematical content of a hash family: its shape, derived constants,
/// and seeds.
#[verifier::ext_equal]
pub ghost struct DOPHView {
    pub k: nat,
    pub l: nat,
    pub num_hashes: nat,
    pub range_pow: u32,
    pub log_num_hash: u32,
    pub binsize: u32,
    pub seeds: Seq<u32>,
    pub randa: u32,
    pub randb: u32,
}

impl DOPHView {
    /// Shape constraints: at least one sub-hash per table and one table; the
    /// bucket exponent fits a 32-bit hash; the bin count divides the row
    /// count so that every scrambled hash lands in a real bin; the family is
    /// small enough for the probe mask; the derived constants match.
    pub open spec fn wf(self) -> bool {
        &&& self.k >= 1
        &&& self.l >= 1
        &&& self.num_hashes == self.k * self.l
        &&& 1 <= self.range_pow <= 31
        &&& self.num_hashes <= 64
        &&& self.binsize as int == pow2(self.range_pow as nat) as int / self.num_hashes as int
        &&& self.binsize as int * self.num_hashes as int == pow2(self.range_pow as nat)
        &&& self.log_num_hash as int == spec_log_num_hash(self.num_hashes as int)
        &&& 1 <= self.log_num_hash <= 32
        &&& self.seeds.len() == self.num_hashes
    }

    /// The bin min-hash state after the given features, starting from all
    /// bins empty (`u32::MAX`).
    pub open spec fn min_hash_seq(self, feats: Seq<u32>) -> Seq<u32>
        decreases feats.len(),
    {
        if feats.len() == 0 {
            Seq::new(self.num_hashes, |i: int| u32::MAX)
        } else {
            let prev = self.min_hash_seq(feats.drop_last());
            let f = feature_hash(self.randa, self.range_pow, feats.last());
            let bin = f as int / self.binsize as int;
            if prev[bin] > f {
                prev.update(bin, f)
            } else {
                prev
            }
        }
    }

    /// The densification probe target for one retry.
    pub open spec fn rand_hash(self, bin: u32, cnt: u32) -> u32 {
        let temp = u32_specs::wrapping_add(
            u32_specs::wrapping_shl(u32_specs::wrapping_add(bin, 1), 10),
            cnt,
        );
        (u32_specs::wrapping_mul(self.randb, temp) << 3u32) >> (32 - self.log_num_hash) as u32
    }

    /// What an empty bin adopts: the first occupied bin that the probe
    /// sequence reaches, or 0 after the retry limit.
    pub open spec fn densify_probe(self, mh: Seq<u32>, bin: int, cnt: u32) -> u32
        decreases MAX_DENSIFY_RETRY - cnt,
    {
        if cnt >= MAX_DENSIFY_RETRY {
            0u32
        } else {
            let rh = self.rand_hash(bin as u32, cnt) as int;
            let idx = if rh <= self.num_hashes as int - 1 {
                rh
            } else {
                self.num_hashes as int - 1
            };
            if mh[idx] != u32::MAX {
                mh[idx]
            } else {
                self.densify_probe(mh, bin, (cnt + 1) as u32)
            }
        }
    }

    /// The densified bins: occupied bins keep their min-hash, empty ones
    /// take the probe's result.
    pub open spec fn densify(self, mh: Seq<u32>) -> Seq<u32> {
        Seq::new(
            self.num_hashes,
            |i: int|
                if mh[i] != u32::MAX {
                    mh[i]
                } else {
                    self.densify_probe(mh, i, 1)
                },
        )
    }

    /// The compound accumulator over the first `i` of table `t`'s sub-hashes.
    pub open spec fn compound_acc(self, dh: Seq<u32>, t: int, i: int) -> u32
        decreases i,
    {
        if i <= 0 {
            0u32
        } else {
            let prev = self.compound_acc(dh, t, i - 1);
            let val = dh[t * self.k as int + (i - 1)];
            let sd = self.seeds[t * self.k as int + (i - 1)];
            let h0 = u32_specs::wrapping_mul(val, sd);
            let h1 = h0 ^ (h0 >> 13u32);
            let h2 = h1 ^ sd;
            u32_specs::wrapping_add(prev, u32_specs::wrapping_mul(h2, val))
        }
    }

    /// Table `t`'s bucket index for a vector with densified bins `dh`.
    pub open spec fn compound(self, dh: Seq<u32>, t: int) -> u32 {
        (self.compound_acc(dh, t, self.k as int) << 2u32) >> (32 - self.range_pow) as u32
    }

    /// The `l` bucket indices of one vector given by its feature indices.
    pub open spec fn vector_hashes(self, feats: Seq<u32>) -> Seq<u32> {
        let dh = self.densify(self.min_hash_seq(feats));
        Seq::new(self.l, |t: int| self.compound(dh, t))
    }

    /// The flat `n * l` bucket indices of a whole CSR batch: entry
    /// `n * l + t` is table `t`'s bucket for vector `n`.
    pub open spec fn batch_hashes(self, markers: Seq<usize>, indices: Seq<u32>) -> Seq<u32> {
        Seq::new(
            (((markers.len() - 1) as nat) * self.l) as nat,
            |j: int|
                self.vector_hashes(
                    indices.subrange(
                        markers[j / self.l as int] as int,
                        markers[j / self.l as int + 1] as int,
                    ),
                )[j % self.l as int],
        )
    }

    /// Every bucket index of a vector lies in `[0, 2^range_pow)`.
    pub proof fn lemma_vector_hashes_range(self, feats: Seq<u32>)
        requires
            self.wf(),
        ensures
            self.vector_hashes(feats).len() == self.l,
            forall|t: int|
                0 <= t < self.l ==> ((#[trigger] self.vector_hashes(feats)[t]) as int) < pow2(
                    self.range_pow as nat,
                ),
    {
        let dh = self.densify(self.min_hash_seq(feats));
        assert forall|t: int|
            0 <= t < self.l implies ((#[trigger] self.vector_hashes(feats)[t]) as int) < pow2(
            self.range_pow as nat,
        ) by {
            lemma_shift_range(self.compound_acc(dh, t, self.k as int) << 2u32, self.range_pow);
        }
    }

    /// Hashing is per-vector: entry `n * l + t` of a batch's hashes is table
    /// `t`'s hash of vector `n`'s own features alone. Partitioning a batch
    /// therefore leaves every vector's hashes unchanged.
    pub proof fn lemma_hash_per_vector(self, markers: Seq<usize>, indices: Seq<u32>, n: int, t: int)
        requires
            self.wf(),
            0 <= n < markers.len() - 1,
            0 <= t < self.l,
        ensures
            self.batch_hashes(markers, indices)[n * self.l as int + t] == self.vector_hashes(
                indices.subrange(markers[n] as int, markers[n + 1] as int),
            )[t],
    {
        let j = n * self.l as int + t;
        assert(j / self.l as int == n && j % self.l as int == t && 0 <= j && j < (markers.len() - 1)
            * self.l as int) by (nonlinear_arith)
            requires
                self.l >= 1,
                0 <= t < self.l,
                0 <= n < markers.len() - 1,
                j == n * self.l as int + t,
        ;
    }

    /// Hash determinism: the family's state and the input fully determine
    /// the output, so hashing the same batch twice gives identical words.
    pub proof fn lemma_hash_deterministic(
        self,
        other: DOPHView,
        markers: Seq<usize>,
        indices: Seq<u32>,
    )
        requires
            self == other,
        ensures
            self.batch_hashes(markers, indices) == other.batch_hashes(markers, indices),
    {
    }
}

/// The densified one-permutation hash family. Immutable after construction;
/// `hash` is a pure function of the seeds and the batch.
pub struct DOPH {
    k: usize,
    l: usize,
    num_hashes: usize,
    range_pow: u32,
    log_num_hash: u32,
    binsize: u32,
    seeds: HeapAllocatedArray<u32>,
    randa: u32,
    randb: u32,
}

impl View for DOPH {
    type V = DOPHView;

    closed spec fn view(&self) -> DOPHView {
        DOPHView {
            k: self.k as nat,
            l: self.l as nat,
            num_hashes: self.num_hashes as nat,
            range_pow: self.range_pow,
            log_num_hash: self.log_num_hash,
            binsize: self.binsize,
            seeds: self.seeds@,
            randa: self.randa,
            randb: self.randb,
        }
    }
}

impl DOPH {
    pub open spec fn wf(&self) -> bool {
        self@.wf()
    }

    /// Valid construction parameters: a power-of-two family of at most 64
    /// sub-hashes whose count divides the row count `2^range_pow`.
    pub open spec fn params_ok(l: int, k: int, range_pow: u32) -> bool {
        &&& l >= 1
        &&& k >= 1
        &&& k * l <= 64
        &&& 1 <= range_pow <= 31
        &&& pow2(range_pow as nat) as int % (k * l) == 0
    }

    /// Builds the family from explicit seed words, for reproducible runs.
    pub fn with_seeds(
        l: usize,
        k: usize,
        range_pow: u32,
        seed_words: &[u32],
        randa: u32,
        randb: u32,
    ) -> (r: DOPH)
        requires
            Self::params_ok(l as int, k as int, range_pow),
            seed_words@.len() == k * l,
        ensures
            r.wf(),
            r@ == (DOPHView {
                k: k as nat,
                l: l as nat,
                num_hashes: (k * l) as nat,
                range_pow,
                log_num_hash: spec_log_num_hash((k * l) as int) as u32,
                binsize: (pow2(range_pow as nat) as int / (k * l) as int) as u32,
                seeds: seed_words@,
                randa,
                randb,
            }),
    {
        let num_hashes = k * l;
        let mut seeds = HeapAllocatedArray::<u32>::with_value(num_hashes, 0);
        let mut i: usize = 0;
        while i < num_hashes
            invariant
                i <= num_hashes,
                num_hashes == seed_words@.len(),
                seeds@.len() == num_hashes,
                forall|j: int| 0 <= j < i ==> seeds@[j] == seed_words@[j],
            decreases num_hashes - i,
        {
            seeds.set(i, seed_words[i]);
            i = i + 1;
        }
        proof {
            assert(seeds@ =~= seed_words@);
        }
        Self::assemble(l, k, range_pow, seeds, randa, randb)
    }

    /// Builds the family with freshly drawn seeds.
    pub fn new(l: usize, k: usize, range_pow: u32) -> (r: DOPH)
        requires
            Self::params_ok(l as int, k as int, range_pow),
        ensures
            r.wf(),
            r@.k == k,
            r@.l == l,
            r@.num_hashes == k * l,
            r@.range_pow == range_pow,
    {
        let num_hashes = k * l;
        let mut seeds = HeapAllocatedArray::<u32>::with_value(num_hashes, 0);
        let mut i: usize = 0;
        while i < num_hashes
            invariant
                i <= num_hashes,
                seeds@.len() == num_hashes,
            decreases num_hashes - i,
        {
            seeds.set(i, entropy::random_u32());
            i = i + 1;
        }
        Self::assemble(l, k, range_pow, seeds, entropy::random_u32(), entropy::random_u32())
    }

    /// Computes the derived constants and assembles the family.
    fn assemble(
        l: usize,
        k: usize,
        range_pow: u32,
        seeds: HeapAllocatedArray<u32>,
        randa: u32,
        randb: u32,
    ) -> (r: DOPH)
        requires
            Self::params_ok(l as int, k as int, range_pow),
            seeds@.len() == k * l,
        ensures
            r.wf(),
            r@ == (DOPHView {
                k: k as nat,
                l: l as nat,
                num_hashes: (k * l) as nat,
                range_pow,
                log_num_hash: spec_log_num_hash((k * l) as int) as u32,
                binsize: (pow2(range_pow as nat) as int / (k * l) as int) as u32,
                seeds: seeds@,
                randa,
                randb,
            }),
    {
        let num_hashes = k * l;
        proof {
            assert(1 <= k * l) by (nonlinear_arith)
                requires
                    k >= 1,
                    l >= 1,
            ;
        }

        let mut log_num_hash: u32 = 1;
        let ghost e: nat = 0nat;
        proof {
            vstd::arithmetic::power2::lemma2_to64();
        }
        while log_num_hash * 2 < (num_hashes as u32)
            invariant
                num_hashes <= 64,
                log_num_hash == pow2(e),
                1 <= log_num_hash <= 32,
                spec_log_num_hash(num_hashes as int) == log_cap_from(
                    num_hashes as int,
                    log_num_hash as int,
                ),
            decreases num_hashes - log_num_hash,
        {
            proof {
                vstd::arithmetic::power2::lemma_pow2_adds(e, 1nat);
                vstd::arithmetic::power2::lemma2_to64();
                if e + 1 >= 6 {
                    if e + 1 > 6 {
                        vstd::arithmetic::power2::lemma_pow2_strictly_increases(6nat, e + 1);
                    }
                    assert(pow2(e + 1) >= 64);
                    assert(false);
                }
            }
            log_num_hash = log_num_hash * 2;
            proof {
                e = e + 1;
            }
        }

        proof {
            vstd::bits::lemma_u32_pow2_no_overflow(range_pow as nat);
            vstd::bits::lemma_u32_shl_is_mul(1u32, range_pow);
        }
        let rows: u32 = 1u32 << range_pow;
        let binsize = rows / (num_hashes as u32);
        proof {
            assert(rows == pow2(range_pow as nat));
            vstd::arithmetic::div_mod::lemma_fundamental_div_mod(rows as int, num_hashes as int);
            assert(rows as int % (num_hashes as int) == 0);
            assert(rows as int == num_hashes as int * (binsize as int));
            assert(binsize as int * num_hashes as int == num_hashes as int * (binsize as int)) by (
            nonlinear_arith);
        }

        let r = DOPH {
            k,
            l,
            num_hashes,
            range_pow,
            log_num_hash,
            binsize,
            seeds,
            randa,
            randb,
        };
        proof {
            assert(r@ =~= (DOPHView {
                k: k as nat,
                l: l as nat,
                num_hashes: (k * l) as nat,
                range_pow,
                log_num_hash: spec_log_num_hash((k * l) as int) as u32,
                binsize: (pow2(range_pow as nat) as int / (k * l) as int) as u32,
                seeds: seeds@,
                randa,
                randb,
            }));
        }
        r
    }

    /// Maps every vector of the batch to `l` bucket indices, flattened as
    /// `r[n * l + t]` for vector `n` and table `t`; each index lies in
    /// `[0, 2^range_pow)`. A pure function of the family's state and the
    /// batch.
    pub fn hash(&self, data: &SparseBatch) -> (r: HeapAllocatedArray<u32>)
        requires
            self.wf(),
            data.wf(),
            self@.l * data.spec_len() <= usize::MAX,
        ensures
            r@ == self@.batch_hashes(data.markers@, data.indices@),
            r@.len() == data.spec_len() * self@.l,
            forall|j: int|
                0 <= j < r@.len() ==> ((#[trigger] r@[j]) as int) < pow2(self@.range_pow as nat),
    {
        let ghost v = self@;
        let ghost full = v.batch_hashes(data.markers@, data.indices@);
        let n_vec = data.len();
        proof {
            vstd::arithmetic::power2::lemma_pow2_pos(v.range_pow as nat);
            assert(v.binsize as int >= 1) by (nonlinear_arith)
                requires
                    v.binsize as int * v.num_hashes as int == pow2(v.range_pow as nat),
                    pow2(v.range_pow as nat) >= 1,
                    v.num_hashes >= 1,
            ;
            assert(n_vec * v.l as int == v.l as int * n_vec) by (nonlinear_arith);
            assert(full.len() == n_vec * v.l as int);
        }
        let out_len = self.l * n_vec;
        let mut out = HeapAllocatedArray::<u32>::with_default(out_len);
        let mut hashes = HeapAllocatedArray::<u32>::with_value(self.num_hashes, 0);
        let mut min_hashes = HeapAllocatedArray::<u32>::with_value(self.num_hashes, 0);
        let mut n: usize = 0;
        while n < n_vec
            invariant
                n <= n_vec,
                v == self@,
                v.wf(),
                v.binsize >= 1,
                data.wf(),
                n_vec == data.spec_len(),
                full == v.batch_hashes(data.markers@, data.indices@),
                full.len() == n_vec * v.l as int,
                out_len == n_vec * v.l as int,
                out@.len() == out_len,
                min_hashes@.len() == v.num_hashes,
                hashes@.len() == v.num_hashes,
                forall|j: int| 0 <= j < n * v.l as int ==> out@[j] == full[j],
            decreases n_vec - n,
        {
            proof {
                assert(n * v.l as int + v.l as int == (n + 1) * v.l as int && (n + 1) * v.l as int
                    <= n_vec * v.l as int) by (nonlinear_arith)
                    requires
                        0 <= n < n_vec,
                        v.l >= 1,
                ;
                assert(data.markers@[n as int] <= data.markers@[n as int + 1]);
                assert(data.markers@[n as int + 1] <= data.markers@[data.markers@.len() - 1]);
            }
            min_hashes.fill(u32::MAX);
            let s = data.markers[n];
            let e_end = data.markers[n + 1];
            let ghost feats = data.indices@.subrange(s as int, e_end as int);
            proof {
                assert(data.indices@.subrange(s as int, s as int) =~= Seq::<u32>::empty());
                assert(min_hashes@ =~= v.min_hash_seq(data.indices@.subrange(s as int, s as int)));
            }
            let mut ii = s;
            while ii < e_end
                invariant
                    s <= ii <= e_end,
                    v == self@,
                    v.wf(),
                    v.binsize >= 1,
                    data.wf(),
                    e_end <= data.indices@.len(),
                    min_hashes@ == v.min_hash_seq(data.indices@.subrange(s as int, ii as int)),
                    min_hashes@.len() == v.num_hashes,
                decreases e_end - ii,
            {
                let val = data.indices[ii];
                let h0 = val.wrapping_mul(self.randa);
                let h1 = h0 ^ (h0 >> 13u32);
                let h2 = h1.wrapping_mul(0x85ebca6bu32);
                let f = (h2.wrapping_mul(val) << 5u32) >> (32 - self.range_pow);
                proof {
                    assert(f == feature_hash(v.randa, v.range_pow, val));
                    lemma_shift_range(h2.wrapping_mul(val) << 5u32, v.range_pow);
                    vstd::arithmetic::div_mod::lemma_multiply_divide_lt(
                        f as int,
                        v.binsize as int,
                        v.num_hashes as int,
                    );
                }
                let bin = (f / self.binsize) as usize;
                if min_hashes.get(bin) > f {
                    min_hashes.set(bin, f);
                }
                proof {
                    let sub1 = data.indices@.subrange(s as int, ii as int + 1);
                    assert(sub1.drop_last() =~= data.indices@.subrange(s as int, ii as int));
                    assert(sub1.last() == val);
                    assert(min_hashes@ =~= v.min_hash_seq(sub1));
                }
                ii = ii + 1;
            }
            proof {
                assert(min_hashes@ == v.min_hash_seq(feats));
            }
            let ghost mh = min_hashes@;
            let mut i: usize = 0;
            while i < self.num_hashes
                invariant
                    i <= v.num_hashes,
                    v == self@,
                    v.wf(),
                    min_hashes@ == mh,
                    mh.len() == v.num_hashes,
                    hashes@.len() == v.num_hashes,
                    forall|j: int| 0 <= j < i ==> hashes@[j] == v.densify(mh)[j],
                decreases self.num_hashes - i,
            {
                let next0 = min_hashes.get(i);
                if next0 != u32::MAX {
                    hashes.set(i, next0);
                } else {
                    let d = self.densify_probe(&min_hashes, i, 1);
                    hashes.set(i, d);
                }
                i = i + 1;
            }
            let ghost dh = hashes@;
            proof {
                assert(hashes@ =~= v.densify(mh));
            }
            let mut t: usize = 0;
            while t < self.l
                invariant
                    t <= v.l,
                    n < n_vec,
                    v == self@,
                    v.wf(),
                    v.binsize >= 1,
                    data.wf(),
                    n_vec == data.spec_len(),
                    full == v.batch_hashes(data.markers@, data.indices@),
                    full.len() == n_vec * v.l as int,
                    out_len == n_vec * v.l as int,
                    out@.len() == out_len,
                    hashes@ == dh,
                    dh == v.densify(mh),
                    mh == v.min_hash_seq(feats),
                    feats == data.indices@.subrange(
                        data.markers@[n as int] as int,
                        data.markers@[n as int + 1] as int,
                    ),
                    min_hashes@ == mh,
                    hashes@.len() == v.num_hashes,
                    n * v.l as int + v.l as int == (n + 1) * v.l as int,
                    (n + 1) * v.l as int <= n_vec * v.l as int,
                    forall|j: int| 0 <= j < n * v.l as int ==> out@[j] == full[j],
                    forall|tt: int|
                        0 <= tt < t ==> out@[n * v.l as int + tt] == v.compound(dh, tt),
                decreases self.l - t,
            {
                proof {
                    assert(t * v.k as int + v.k as int == (t + 1) * v.k as int && (t + 1)
                        * v.k as int <= v.l as int * v.k as int && v.l as int * v.k as int
                        == v.k as int * v.l as int) by (nonlinear_arith)
                        requires
                            0 <= t < v.l,
                            v.k >= 1,
                    ;
                }
                let mut idx: u32 = 0;
                let mut iu: usize = 0;
                while iu < self.k
                    invariant
                        iu <= v.k,
                        v == self@,
                        v.wf(),
                        hashes@ == dh,
                        hashes@.len() == v.num_hashes,
                        0 <= t < v.l,
                        t * v.k as int + v.k as int == (t + 1) * v.k as int,
                        (t + 1) * v.k as int <= v.num_hashes as int,
                        idx == v.compound_acc(dh, t as int, iu as int),
                    decreases self.k - iu,
                {
                    let pos = t * self.k + iu;
                    let val = hashes.get(pos);
                    let sd = self.seeds.get(pos);
                    let h0 = val.wrapping_mul(sd);
                    let h1 = h0 ^ (h0 >> 13u32);
                    let h2 = h1 ^ sd;
                    idx = idx.wrapping_add(h2.wrapping_mul(val));
                    iu = iu + 1;
                }
                let outv = (idx << 2u32) >> (32 - self.range_pow);
                proof {
                    assert(outv == v.compound(dh, t as int));
                }
                out.set(n * self.l + t, outv);
                t = t + 1;
            }
            proof {
                assert forall|j: int|
                    n * v.l as int <= j < (n + 1) * v.l as int implies out@[j] == full[j] by {
                    let tt = j - n * v.l as int;
                    assert(j / v.l as int == n && j % v.l as int == tt) by (nonlinear_arith)
                        requires
                            v.l >= 1,
                            0 <= tt < v.l,
                            j == n * v.l as int + tt,
                    ;
                    assert(out@[j] == v.compound(dh, tt));
                    assert(full[j] == v.vector_hashes(feats)[tt]);
                }
            }
            n = n + 1;
        }
        proof {
            assert(out@ =~= full);
            assert forall|j: int| 0 <= j < out@.len() implies ((#[trigger] out@[j]) as int) < pow2(
                v.range_pow as nat,
            ) by {
                let nn = j / v.l as int;
                let tt = j % v.l as int;
                vstd::arithmetic::div_mod::lemma_multiply_divide_lt(j, v.l as int, n_vec as int);
                vstd::arithmetic::div_mod::lemma_mod_division_less_than_divisor(j, v.l as int);
                vstd::arithmetic::div_mod::lemma_div_pos_is_pos(j, v.l as int);
                vstd::arithmetic::div_mod::lemma_mod_decreases(j as nat, v.l as nat);
                assert(j < v.l as int * n_vec as int) by (nonlinear_arith)
                    requires
                        j < n_vec as int * v.l as int,
                ;
                let fts = data.indices@.subrange(
                    data.markers@[nn] as int,
                    data.markers@[nn + 1] as int,
                );
                v.lemma_vector_hashes_range(fts);
                assert(0 <= tt < v.l);
                assert(out@[j] == v.vector_hashes(fts)[tt]);
            }
        }
        out
    }

    /// The bin that a densification retry probes.
    fn rand_hash(&self, bin: u32, count: u32) -> (r: u32)
        requires
            self.wf(),
            bin < 64,
            count <= MAX_DENSIFY_RETRY,
        ensures
            r == self@.rand_hash(bin, count),
    {
        let temp = bin.wrapping_add(1).wrapping_shl(10).wrapping_add(count);
        (self.randb.wrapping_mul(temp) << 3u32) >> (32 - self.log_num_hash)
    }

    /// The probe loop for one empty bin.
    fn densify_probe(&self, mh: &HeapAllocatedArray<u32>, bin: usize, cnt: u32) -> (r: u32)
        requires
            self.wf(),
            mh@.len() == self@.num_hashes,
            bin < self@.num_hashes,
            1 <= cnt <= MAX_DENSIFY_RETRY,
        ensures
            r == self@.densify_probe(mh@, bin as int, cnt),
        decreases MAX_DENSIFY_RETRY - cnt,
    {
        if cnt >= MAX_DENSIFY_RETRY {
            densification_failure_notice();
            0
        } else {
            let rh = self.rand_hash(bin as u32, cnt) as usize;
            let idx = if rh <= self.num_hashes - 1 {
                rh
            } else {
                self.num_hashes - 1
            };
            let next = mh.get(idx);
            if next != u32::MAX {
                next
            } else {
                self.densify_probe(mh, bin, cnt + 1)
            }
        }
    }
}

} // verus!
