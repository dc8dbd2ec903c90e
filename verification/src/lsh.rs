//! The reservoir-sampled inverted index.
//!
//! One contiguous buffer of 32-bit IDs holds `tables` hash tables, each with
//! `rows` rows, each row `reservoir_size + 1` slots wide. Slot 0 of a row is
//! its occupancy counter; slots `1..=reservoir_size` hold sampled IDs, with
//! `u32::MAX` as the sentinel for a slot not yet occupied. Once a row's
//! counter passes the reservoir capacity, further insertions either overwrite
//! a sampled slot or are discarded, as directed by a table of random words
//! drawn at construction time; the table is indexed by the counter modulo its
//! length, so an insertion stream is reproducible from the table alone.

use vstd::prelude::*;

use crate::entropy;
use crate::heap_array::HeapAllocatedArray;

verus! {

use vstd::arithmetic::power2::pow2;
use vstd::multiset::Multiset;
use vstd::wrapping::u32_specs;

pub type IDType = u32;

pub type HashType = u32;

/// The mathematical state of an index: its shape, its flat ID buffer, and
/// the reservoir decision table.
#[verifier::ext_equal]
pub ghost struct LSHView {
    pub tables: nat,
    pub rows: nat,
    pub reservoir: nat,
    pub buf: Seq<u32>,
    pub rv: Seq<usize>,
}

impl LSHView {
    pub open spec fn row_size(self) -> int {
        self.reservoir as int + 1
    }

    pub open spec fn table_size(self) -> int {
        self.rows * self.row_size()
    }

    /// Index of a row's counter slot in the flat buffer.
    pub open spec fn row_base(self, t: int, row: int) -> int {
        t * self.table_size() + row * self.row_size()
    }

    /// A row's occupancy counter: the number of insertions that targeted it.
    pub open spec fn counter(self, t: int, row: int) -> nat {
        self.buf[self.row_base(t, row)] as nat
    }

    /// ID slot `j` (in `1..=reservoir`) of the given row.
    pub open spec fn slot(self, t: int, row: int, j: int) -> u32 {
        self.buf[self.row_base(t, row) + j]
    }

    pub open spec fn wf(self) -> bool {
        &&& self.tables >= 1
        &&& self.rows >= 1
        &&& self.reservoir >= 1
        &&& self.buf.len() == self.tables * self.table_size()
        &&& self.rv.len() == 20 * self.reservoir
    }

    /// Two views that differ at most in the buffer contents.
    pub open spec fn same_shape(self, other: LSHView) -> bool {
        &&& self.tables == other.tables
        &&& self.rows == other.rows
        &&& self.reservoir == other.reservoir
        &&& self.rv == other.rv
    }

    /// One reservoir insertion of `id` into the row that starts at `base`:
    /// bump the counter; append while the row is filling, and once it is
    /// full, overwrite the sampled slot the decision table names, or discard.
    pub open spec fn insert_at(self, base: int, id: u32) -> LSHView {
        let c = self.buf[base];
        let bumped = self.buf.update(base, u32_specs::wrapping_add(c, 1));
        let written = if (c as int) < self.reservoir {
            bumped.update(base + 1 + c, id)
        } else {
            let r = self.rv[(c as int) % (20 * self.reservoir as int)];
            if (r as int) < self.reservoir {
                bumped.update(base + 1 + r, id)
            } else {
                bumped
            }
        };
        LSHView { buf: written, ..self }
    }

    /// `id` inserted into its target row in each of the first `t` tables,
    /// the target rows given by `rowhash[0..t]`.
    pub open spec fn insert_tables(self, id: u32, rowhash: Seq<u32>, t: nat) -> LSHView
        decreases t,
    {
        if t == 0 {
            self
        } else {
            let prev = self.insert_tables(id, rowhash, (t - 1) as nat);
            prev.insert_at(prev.row_base(t - 1, rowhash[t - 1] as int), id)
        }
    }

    /// The first `n` IDs inserted in order, each into all tables.
    pub open spec fn insert_seq(self, ids: Seq<u32>, hashes: Seq<u32>, n: nat) -> LSHView
        decreases n,
    {
        if n == 0 {
            self
        } else {
            self.insert_seq(ids, hashes, (n - 1) as nat).insert_tables(
                ids[n - 1],
                hashes.subrange((n - 1) * self.tables as int, n * self.tables as int),
                self.tables,
            )
        }
    }

    /// The whole batch inserted: what `insert` and `insert_range` compute.
    pub open spec fn insert_batch(self, ids: Seq<u32>, hashes: Seq<u32>) -> LSHView {
        self.insert_seq(ids, hashes, ids.len())
    }

    /// Row occupancy discipline: slot `j` of a row holds a real ID (not the
    /// sentinel) exactly when the row's counter has reached `j`.
    pub open spec fn rows_wf(self) -> bool {
        forall|t: int, row: int, j: int|
            0 <= t < self.tables && 0 <= row < self.rows && 1 <= j <= self.reservoir
                ==> (#[trigger] self.slot(t, row, j) != u32::MAX <==> j <= self.counter(t, row))
    }

    /// How many of the first `n` insertions target row `row` of table `t`.
    pub open spec fn hits(hashes: Seq<u32>, tables: int, t: int, row: int, n: int) -> nat
        decreases n,
    {
        if n <= 0 {
            0
        } else {
            Self::hits(hashes, tables, t, row, n - 1) + (if hashes[(n - 1) * tables + t] == row {
                1nat
            } else {
                0nat
            })
        }
    }

    pub proof fn lemma_hits_le(hashes: Seq<u32>, tables: int, t: int, row: int, n: int)
        ensures
            Self::hits(hashes, tables, t, row, n) <= (if n >= 0 {
                n
            } else {
                0
            }),
        decreases n,
    {
        if n > 0 {
            Self::lemma_hits_le(hashes, tables, t, row, n - 1);
        }
    }

    /// How many IDs a queried row contributes: `min(counter, reservoir)`.
    pub open spec fn row_take(self, t: int, row: int) -> int {
        if self.counter(t, row) < self.reservoir {
            self.counter(t, row) as int
        } else {
            self.reservoir as int
        }
    }

    /// Slots `1..=i` of one row tallied, oldest slot first.
    pub open spec fn tally_row(self, tally: Seq<(u32, u32)>, t: int, row: int, i: int) -> Seq<
        (u32, u32),
    >
        decreases i,
    {
        if i <= 0 {
            tally
        } else {
            bump(self.tally_row(tally, t, row, i - 1), self.slot(t, row, i))
        }
    }

    /// The tally over the first `t` tables for one query's row hashes.
    pub open spec fn tally_tables(self, qh: Seq<u32>, t: int) -> Seq<(u32, u32)>
        decreases t,
    {
        if t <= 0 {
            Seq::empty()
        } else {
            let prev = self.tally_tables(qh, t - 1);
            self.tally_row(prev, t - 1, qh[t - 1] as int, self.row_take(t - 1, qh[t - 1] as int))
        }
    }

    /// The whole flat result buffer for `nq` queries: one block per query,
    /// each the sorted tally of its `tables` row hashes.
    pub open spec fn spec_query(self, hashes: Seq<u32>, k: int, nq: int) -> Seq<u32>
        decreases nq,
    {
        if nq <= 0 {
            Seq::empty()
        } else {
            self.spec_query(hashes, k, nq - 1) + query_block(
                sort_desc(
                    self.tally_tables(
                        hashes.subrange((nq - 1) * self.tables as int, nq * self.tables as int),
                        self.tables as int,
                    ),
                ),
                k,
            )
        }
    }

    pub proof fn lemma_spec_query_len(self, hashes: Seq<u32>, k: int, nq: int)
        requires
            k >= 0,
        ensures
            self.spec_query(hashes, k, nq).len() == (if nq <= 0 {
                0
            } else {
                nq * (k + 1)
            }),
        decreases nq,
    {
        if nq > 0 {
            self.lemma_spec_query_len(hashes, k, nq - 1);
            let block = query_block(
                sort_desc(
                    self.tally_tables(
                        hashes.subrange((nq - 1) * self.tables as int, nq * self.tables as int),
                        self.tables as int,
                    ),
                ),
                k,
            );
            assert(block.len() == k + 1);
            assert(self.spec_query(hashes, k, nq).len() == self.spec_query(hashes, k, nq - 1).len()
                + block.len());
            assert(nq * (k + 1) == (nq - 1) * (k + 1) + (k + 1) && (nq - 1 == 0 ==> (nq - 1) * (k
                + 1) == 0)) by (nonlinear_arith);
            assert(self.spec_query(hashes, k, nq - 1).len() == (nq - 1) * (k + 1));
            assert(self.spec_query(hashes, k, nq).len() == nq * (k + 1));
        }
    }

    /// A row scan of length `i` adds at most `i` entries and `i` votes.
    pub proof fn lemma_tally_row_bounds(
        self,
        tally: Seq<(u32, u32)>,
        t: int,
        row: int,
        i: int,
        b: int,
    )
        requires
            0 <= b,
            0 <= i,
            b + i <= u32::MAX,
            forall|j: int| 0 <= j < tally.len() ==> ((#[trigger] tally[j]).1 as int) <= b,
        ensures
            self.tally_row(tally, t, row, i).len() <= tally.len() + i,
            forall|j: int|
                0 <= j < self.tally_row(tally, t, row, i).len() ==> ((#[trigger] self.tally_row(
                    tally,
                    t,
                    row,
                    i,
                )[j]).1 as int) <= b + i,
        decreases i,
    {
        if i > 0 {
            self.lemma_tally_row_bounds(tally, t, row, i - 1, b);
            lemma_bump_bounds(self.tally_row(tally, t, row, i - 1), self.slot(t, row, i), b + i - 1);
        }
    }

    /// The tally over `t` tables holds at most `t * reservoir` entries, each
    /// with at most `t * reservoir` votes.
    pub proof fn lemma_tally_tables_bounds(self, qh: Seq<u32>, t: int)
        requires
            self.wf(),
            0 <= t <= self.tables,
            self.tables * self.reservoir <= u32::MAX,
        ensures
            self.tally_tables(qh, t).len() <= t * self.reservoir as int,
            forall|j: int|
                0 <= j < self.tally_tables(qh, t).len() ==> ((#[trigger] self.tally_tables(
                    qh,
                    t,
                )[j]).1 as int) <= t * self.reservoir as int,
        decreases t,
    {
        let res = self.reservoir as int;
        if t > 0 {
            self.lemma_tally_tables_bounds(qh, t - 1);
            assert((t - 1) * res + res == t * res && t * res <= self.tables * res) by (
            nonlinear_arith)
                requires
                    0 < t <= self.tables,
                    res >= 0,
            ;
            let prev = self.tally_tables(qh, t - 1);
            let row = qh[t - 1] as int;
            let take = self.row_take(t - 1, row);
            assert forall|j: int| 0 <= j < prev.len() implies ((#[trigger] prev[j]).1 as int) <= (t
                - 1) * res by {}
            self.lemma_tally_row_bounds(prev, t - 1, row, take, (t - 1) * res);
            assert forall|j: int|
                0 <= j < self.tally_tables(qh, t).len() implies ((#[trigger] self.tally_tables(
                qh,
                t,
            )[j]).1 as int) <= t * res by {
                assert(self.tally_tables(qh, t) == self.tally_row(prev, t - 1, row, take));
                assert((self.tally_row(prev, t - 1, row, take)[j].1 as int) <= (t - 1) * res
                    + take);
            }
        }
    }

    /// The number of non-sentinel ID slots among the first `j` of a row.
    pub open spec fn occupied_upto(self, t: int, row: int, j: int) -> nat
        decreases j,
    {
        if j <= 0 {
            0
        } else {
            self.occupied_upto(t, row, j - 1) + (if self.slot(t, row, j) != u32::MAX {
                1nat
            } else {
                0nat
            })
        }
    }

    proof fn lemma_occupancy_upto(self, t: int, row: int, j: int)
        requires
            self.wf(),
            self.rows_wf(),
            0 <= t < self.tables,
            0 <= row < self.rows,
            0 <= j <= self.reservoir,
        ensures
            self.occupied_upto(t, row, j) == (if self.counter(t, row) < j {
                self.counter(t, row) as int
            } else {
                j
            }),
        decreases j,
    {
        if j > 0 {
            self.lemma_occupancy_upto(t, row, j - 1);
            assert(self.slot(t, row, j) != u32::MAX <==> j <= self.counter(t, row));
        }
    }

    /// Occupancy bound: every row holds exactly `min(counter, reservoir)`
    /// IDs, the rest of its slots still being the sentinel.
    pub proof fn lemma_occupancy(self, t: int, row: int)
        requires
            self.wf(),
            self.rows_wf(),
            0 <= t < self.tables,
            0 <= row < self.rows,
        ensures
            self.occupied_upto(t, row, self.reservoir as int) == (if self.counter(t, row)
                < self.reservoir {
                self.counter(t, row) as int
            } else {
                self.reservoir as int
            }),
    {
        self.lemma_occupancy_upto(t, row, self.reservoir as int);
    }

    /// The sum of the counters of rows `0..upto` of table `t`.
    pub open spec fn sum_counters_rows(self, t: int, upto: int) -> nat
        decreases upto,
    {
        if upto <= 0 {
            0
        } else {
            self.sum_counters_rows(t, upto - 1) + self.counter(t, upto - 1)
        }
    }

    /// The sum of all row counters of tables `0..t`.
    pub open spec fn sum_counters_tables(self, t: int) -> nat
        decreases t,
    {
        if t <= 0 {
            0
        } else {
            self.sum_counters_tables(t - 1) + self.sum_counters_rows(t - 1, self.rows as int)
        }
    }

    /// The sum of the occupancy counters over every row of every table.
    pub open spec fn sum_counters(self) -> nat {
        self.sum_counters_tables(self.tables as int)
    }

    proof fn lemma_sum_rows_zero(self, t: int, upto: int)
        requires
            0 <= t < self.tables,
            upto <= self.rows,
            forall|tt: int, row: int|
                0 <= tt < self.tables && 0 <= row < self.rows ==> #[trigger] self.counter(tt, row)
                    == 0,
        ensures
            self.sum_counters_rows(t, upto) == 0,
        decreases upto,
    {
        if upto > 0 {
            self.lemma_sum_rows_zero(t, upto - 1);
        }
    }

    proof fn lemma_sum_tables_zero(self, upto: int)
        requires
            upto <= self.tables,
            forall|tt: int, row: int|
                0 <= tt < self.tables && 0 <= row < self.rows ==> #[trigger] self.counter(tt, row)
                    == 0,
        ensures
            self.sum_counters_tables(upto) == 0,
        decreases upto,
    {
        if upto > 0 {
            self.lemma_sum_tables_zero(upto - 1);
            self.lemma_sum_rows_zero(upto - 1, self.rows as int);
        }
    }

    /// A fresh index, all of whose counters are zero, has counter total zero;
    /// with `lemma_counter_sum`, its total after inserting `n` IDs is
    /// exactly `n * tables`.
    pub proof fn lemma_fresh_counter_sum(self)
        requires
            self.wf(),
            forall|tt: int, row: int|
                0 <= tt < self.tables && 0 <= row < self.rows ==> #[trigger] self.counter(tt, row)
                    == 0,
        ensures
            self.sum_counters() == 0,
    {
        self.lemma_sum_tables_zero(self.tables as int);
    }

    proof fn lemma_sum_rows_single(self, w: LSHView, t: int, t0: int, row0: int, upto: int)
        requires
            w.counter(t0, row0) == self.counter(t0, row0) + 1,
            forall|tt: int, row: int|
                0 <= tt < self.tables && 0 <= row < self.rows && !(tt == t0 && row == row0)
                    ==> #[trigger] w.counter(tt, row) == self.counter(tt, row),
            0 <= t < self.tables,
            0 <= row0 < self.rows,
            0 <= t0 < self.tables,
            upto <= self.rows,
        ensures
            w.sum_counters_rows(t, upto) == self.sum_counters_rows(t, upto) + (if t == t0 && row0
                < upto {
                1int
            } else {
                0int
            }),
        decreases upto,
    {
        if upto > 0 {
            self.lemma_sum_rows_single(w, t, t0, row0, upto - 1);
        }
    }

    proof fn lemma_sum_tables_single(self, w: LSHView, t0: int, row0: int, upto: int)
        requires
            w.rows == self.rows,
            w.counter(t0, row0) == self.counter(t0, row0) + 1,
            forall|tt: int, row: int|
                0 <= tt < self.tables && 0 <= row < self.rows && !(tt == t0 && row == row0)
                    ==> #[trigger] w.counter(tt, row) == self.counter(tt, row),
            0 <= t0 < self.tables,
            0 <= row0 < self.rows,
            upto <= self.tables,
        ensures
            w.sum_counters_tables(upto) == self.sum_counters_tables(upto) + (if t0 < upto {
                1int
            } else {
                0int
            }),
        decreases upto,
    {
        if upto > 0 {
            self.lemma_sum_tables_single(w, t0, row0, upto - 1);
            self.lemma_sum_rows_single(w, upto - 1, t0, row0, self.rows as int);
        }
    }

    proof fn lemma_sum_insert_tables(self, id: u32, rowhash: Seq<u32>, t: nat)
        requires
            self.wf(),
            t <= self.tables,
            rowhash.len() == self.tables,
            forall|i: int| 0 <= i < t ==> (rowhash[i] as int) < self.rows,
            forall|tt: int, row: int|
                0 <= tt < self.tables && 0 <= row < self.rows ==> #[trigger] self.counter(tt, row)
                    < u32::MAX,
        ensures
            self.insert_tables(id, rowhash, t).sum_counters() == self.sum_counters() + t,
        decreases t,
    {
        if t == 0 {
        } else {
            let prev = self.insert_tables(id, rowhash, (t - 1) as nat);
            self.lemma_sum_insert_tables(id, rowhash, (t - 1) as nat);
            self.lemma_insert_tables_effect(id, rowhash, (t - 1) as nat);
            let t0 = t - 1;
            let row0 = rowhash[t0] as int;
            prev.lemma_insert_at_effect(t0, row0, id);
            assert(prev.row_base(t0, row0) == self.row_base(t0, row0));
            let w = self.insert_tables(id, rowhash, t);
            prev.lemma_sum_tables_single(w, t0, row0, prev.tables as int);
        }
    }

    proof fn lemma_sum_insert_seq(self, ids: Seq<u32>, hashes: Seq<u32>, n: nat)
        requires
            self.wf(),
            n <= ids.len(),
            hashes.len() == ids.len() * self.tables,
            forall|i: int| 0 <= i < hashes.len() ==> (hashes[i] as int) < self.rows,
            forall|tt: int, row: int|
                0 <= tt < self.tables && 0 <= row < self.rows ==> #[trigger] self.counter(tt, row)
                    + n <= u32::MAX,
        ensures
            self.insert_seq(ids, hashes, n).sum_counters() == self.sum_counters() + n
                * self.tables as int,
        decreases n,
    {
        let tables = self.tables as int;
        if n == 0 {
            assert(0 * tables == 0) by (nonlinear_arith);
        } else {
            let m = (n - 1) as nat;
            self.lemma_sum_insert_seq(ids, hashes, m);
            self.lemma_insert_seq_effect(ids, hashes, m);
            let prev = self.insert_seq(ids, hashes, m);
            let rowhash = hashes.subrange(m * tables, n * tables);
            assert(n * tables == m * tables + tables && n * tables <= ids.len() * tables) by (
            nonlinear_arith)
                requires
                    0 < n <= ids.len(),
                    m == n - 1,
                    tables >= 1,
            ;
            assert forall|tt: int, row: int|
                0 <= tt < prev.tables && 0 <= row < prev.rows implies #[trigger] prev.counter(
                tt,
                row,
            ) < u32::MAX by {
                Self::lemma_hits_le(hashes, tables, tt, row, m as int);
            }
            assert forall|i: int| 0 <= i < prev.tables implies (rowhash[i] as int)
                < prev.rows by {
                assert(rowhash[i] == hashes[m * tables + i]);
            }
            prev.lemma_sum_insert_tables(ids[m as int], rowhash, prev.tables);
        }
    }

    /// Counter monotonicity: inserting `n` IDs raises the total of the row
    /// counters by exactly `n * tables`; on a fresh index the total after the
    /// first batch is therefore `ids.len() * tables`.
    pub proof fn lemma_counter_sum(self, ids: Seq<u32>, hashes: Seq<u32>)
        requires
            self.wf(),
            hashes.len() == ids.len() * self.tables,
            forall|i: int| 0 <= i < hashes.len() ==> (hashes[i] as int) < self.rows,
            forall|tt: int, row: int|
                0 <= tt < self.tables && 0 <= row < self.rows ==> #[trigger] self.counter(tt, row)
                    + ids.len() <= u32::MAX,
        ensures
            self.insert_batch(ids, hashes).sum_counters() == self.sum_counters() + ids.len()
                * self.tables as int,
    {
        self.lemma_sum_insert_seq(ids, hashes, ids.len());
    }

    /// Determinism: the index state and its inputs fully determine both the
    /// buffer after an insertion and the flat result buffer of a query.
    pub proof fn lemma_deterministic(
        self,
        other: LSHView,
        ids: Seq<u32>,
        hashes: Seq<u32>,
        qhashes: Seq<u32>,
        k: int,
        nq: int,
    )
        requires
            self == other,
        ensures
            self.insert_batch(ids, hashes) == other.insert_batch(ids, hashes),
            self.insert_batch(ids, hashes).spec_query(qhashes, k, nq) == other.insert_batch(
                ids,
                hashes,
            ).spec_query(qhashes, k, nq),
    {
    }

    proof fn lemma_empty_rows_tally(self, qh: Seq<u32>, t: int)
        requires
            self.wf(),
            qh.len() == self.tables,
            0 <= t <= self.tables,
            forall|i: int|
                0 <= i < self.tables ==> #[trigger] self.counter(i, qh[i] as int) == 0,
        ensures
            self.tally_tables(qh, t) == Seq::<(u32, u32)>::empty(),
        decreases t,
    {
        if t > 0 {
            self.lemma_empty_rows_tally(qh, t - 1);
            assert(self.row_take(t - 1, qh[t - 1] as int) == 0);
        }
    }

    /// Empty-row silence: a query whose hashes all land on rows with counter
    /// zero reports zero candidates.
    pub proof fn lemma_empty_rows_silent(self, qh: Seq<u32>, k: int)
        requires
            self.wf(),
            qh.len() == self.tables,
            k >= 0,
            forall|i: int|
                0 <= i < self.tables ==> #[trigger] self.counter(i, qh[i] as int) == 0,
        ensures
            self.tally_tables(qh, self.tables as int) == Seq::<(u32, u32)>::empty(),
            query_block(sort_desc(self.tally_tables(qh, self.tables as int)), k)[0] == 0u32,
    {
        self.lemma_empty_rows_tally(qh, self.tables as int);
        assert(sort_desc(Seq::<(u32, u32)>::empty()) == Seq::<(u32, u32)>::empty());
    }

    /// Insert-range equivalence: a batch whose IDs are the consecutive run
    /// `id_start..id_start + count` builds the same index as `insert_range`.
    pub proof fn lemma_insert_range_equiv(
        self,
        ids: Seq<u32>,
        id_start: u32,
        count: int,
        hashes: Seq<u32>,
    )
        requires
            count >= 0,
            ids.len() == count,
            forall|i: int| 0 <= i < count ==> ids[i] == (id_start + i) as u32,
        ensures
            self.insert_batch(ids, hashes) == self.insert_batch(
                Seq::new(count as nat, |i: int| (id_start + i) as u32),
                hashes,
            ),
    {
        assert(ids =~= Seq::new(count as nat, |i: int| (id_start + i) as u32));
    }

    /// How often `id` occurs among slots `1..=i` of a row.
    pub open spec fn row_occurrences(self, t: int, row: int, i: int, id: u32) -> nat
        decreases i,
    {
        if i <= 0 {
            0
        } else {
            self.row_occurrences(t, row, i - 1, id) + (if self.slot(t, row, i) == id {
                1nat
            } else {
                0nat
            })
        }
    }

    /// How often `id` occurs among the scanned slots of the first `t`
    /// queried rows.
    pub open spec fn occurrences(self, qh: Seq<u32>, t: int, id: u32) -> nat
        decreases t,
    {
        if t <= 0 {
            0
        } else {
            self.occurrences(qh, t - 1, id) + self.row_occurrences(
                t - 1,
                qh[t - 1] as int,
                self.row_take(t - 1, qh[t - 1] as int),
                id,
            )
        }
    }

    proof fn lemma_tally_row_votes(
        self,
        tally: Seq<(u32, u32)>,
        t: int,
        row: int,
        i: int,
        b: int,
        id: u32,
    )
        requires
            0 <= b,
            0 <= i,
            b + i <= u32::MAX,
            forall|j: int| 0 <= j < tally.len() ==> ((#[trigger] tally[j]).1 as int) <= b,
        ensures
            tally_votes(self.tally_row(tally, t, row, i), id) == tally_votes(tally, id)
                + self.row_occurrences(t, row, i, id),
        decreases i,
    {
        if i > 0 {
            self.lemma_tally_row_votes(tally, t, row, i - 1, b, id);
            self.lemma_tally_row_bounds(tally, t, row, i - 1, b);
            lemma_bump_votes(
                self.tally_row(tally, t, row, i - 1),
                self.slot(t, row, i),
                id,
                b + i - 1,
            );
        }
    }

    /// Votes are co-occurrence counts: in the tally of a query, every ID
    /// holds exactly as many votes as it has occurrences among the scanned
    /// slots of the queried rows.
    pub proof fn lemma_tally_counts(self, qh: Seq<u32>, t: int, id: u32)
        requires
            self.wf(),
            0 <= t <= self.tables,
            self.tables * self.reservoir <= u32::MAX,
        ensures
            tally_votes(self.tally_tables(qh, t), id) == self.occurrences(qh, t, id),
        decreases t,
    {
        let res = self.reservoir as int;
        if t > 0 {
            self.lemma_tally_counts(qh, t - 1, id);
            self.lemma_tally_tables_bounds(qh, t - 1);
            assert((t - 1) * res + res == t * res && t * res <= self.tables as int * res) by (
            nonlinear_arith)
                requires
                    0 < t <= self.tables,
                    res >= 0,
            ;
            let prev = self.tally_tables(qh, t - 1);
            let row = qh[t - 1] as int;
            let take = self.row_take(t - 1, row);
            self.lemma_tally_row_votes(prev, t - 1, row, take, (t - 1) * res, id);
        }
    }

    /// Position facts about slot `j` of a row: rows tile the buffer, so the
    /// slot lies in bounds and sits at offset `j` within its row.
    pub proof fn lemma_slot_pos(self, t: int, row: int, j: int)
        requires
            self.wf(),
            0 <= t < self.tables,
            0 <= row < self.rows,
            0 <= j <= self.reservoir,
        ensures
            self.row_base(t, row) == (t * self.rows + row) * self.row_size(),
            0 <= self.row_base(t, row),
            self.row_base(t, row) + self.row_size() <= self.buf.len(),
            (self.row_base(t, row) + j) % self.row_size() == j,
    {
        let rs = self.row_size();
        let base = self.row_base(t, row);
        let k = t * self.rows as int + row;
        assert(base == k * rs && 0 <= k && k + 1 <= self.tables * self.rows) by (nonlinear_arith)
            requires
                base == t * ((self.rows as int) * rs) + row * rs,
                k == t * self.rows as int + row,
                0 <= t < self.tables,
                0 <= row < self.rows,
                rs >= 2,
        ;
        vstd::arithmetic::mul::lemma_mul_inequality(k + 1, self.tables as int * self.rows as int, rs);
        assert((k + 1) * rs == k * rs + rs && (self.tables as int * self.rows as int) * rs
            == self.tables as int * (self.rows as int * rs) && k * rs >= 0) by (nonlinear_arith)
            requires
                0 <= k,
                rs >= 2,
        ;
        vstd::arithmetic::div_mod::lemma_mod_multiples_vanish(k, j, rs);
        vstd::arithmetic::div_mod::lemma_small_mod(j as nat, rs as nat);
        assert(rs * k == k * rs) by (nonlinear_arith);
    }

    /// Distinct rows occupy disjoint stretches of the buffer.
    pub proof fn lemma_rows_disjoint(self, t1: int, row1: int, t2: int, row2: int)
        requires
            self.wf(),
            0 <= t1 < self.tables,
            0 <= row1 < self.rows,
            0 <= t2 < self.tables,
            0 <= row2 < self.rows,
            !(t1 == t2 && row1 == row2),
        ensures
            self.row_base(t1, row1) + self.row_size() <= self.row_base(t2, row2)
                || self.row_base(t2, row2) + self.row_size() <= self.row_base(t1, row1),
    {
        let rs = self.row_size();
        let k1 = t1 * self.rows as int + row1;
        let k2 = t2 * self.rows as int + row2;
        self.lemma_slot_pos(t1, row1, 0);
        self.lemma_slot_pos(t2, row2, 0);
        assert(k1 != k2) by (nonlinear_arith)
            requires
                k1 == t1 * self.rows as int + row1,
                k2 == t2 * self.rows as int + row2,
                0 <= t1 < self.tables,
                0 <= row1 < self.rows,
                0 <= t2 < self.tables,
                0 <= row2 < self.rows,
                !(t1 == t2 && row1 == row2),
        ;
        if k1 < k2 {
            vstd::arithmetic::mul::lemma_mul_inequality(k1 + 1, k2, rs);
            assert((k1 + 1) * rs == k1 * rs + rs) by (nonlinear_arith);
        } else {
            vstd::arithmetic::mul::lemma_mul_inequality(k2 + 1, k1, rs);
            assert((k2 + 1) * rs == k2 * rs + rs) by (nonlinear_arith);
        }
    }

    /// What one reservoir insertion does: the target row's counter goes up by
    /// one (it never wraps below `u32::MAX`), the written slot is the one the
    /// sampling policy names, every other row is untouched, and occupancy
    /// discipline survives when the ID is not the sentinel.
    pub proof fn lemma_insert_at_effect(self, t0: int, row0: int, id: u32)
        requires
            self.wf(),
            0 <= t0 < self.tables,
            0 <= row0 < self.rows,
            self.counter(t0, row0) < u32::MAX,
        ensures
            ({
                let w = self.insert_at(self.row_base(t0, row0), id);
                let c = self.counter(t0, row0) as int;
                &&& w.wf()
                &&& w.same_shape(self)
                &&& w.buf.len() == self.buf.len()
                &&& w.counter(t0, row0) == c + 1
                &&& forall|t: int, row: int|
                    0 <= t < self.tables && 0 <= row < self.rows && !(t == t0 && row == row0)
                        ==> #[trigger] w.counter(t, row) == self.counter(t, row)
                &&& forall|t: int, row: int, j: int|
                    0 <= t < self.tables && 0 <= row < self.rows && !(t == t0 && row == row0) && 1
                        <= j <= self.reservoir ==> #[trigger] w.slot(t, row, j) == self.slot(
                        t,
                        row,
                        j,
                    )
                &&& c < self.reservoir ==> w.slot(t0, row0, c + 1) == id && (forall|j: int|
                    1 <= j <= self.reservoir && j != c + 1 ==> #[trigger] w.slot(t0, row0, j)
                        == self.slot(t0, row0, j))
                &&& c >= self.reservoir ==> ({
                    let rr = self.rv[c % (20 * self.reservoir as int)] as int;
                    if rr < self.reservoir {
                        w.slot(t0, row0, rr + 1) == id && (forall|j: int|
                            1 <= j <= self.reservoir && j != rr + 1 ==> #[trigger] w.slot(
                                t0,
                                row0,
                                j,
                            ) == self.slot(t0, row0, j))
                    } else {
                        forall|j: int|
                            1 <= j <= self.reservoir ==> #[trigger] w.slot(t0, row0, j)
                                == self.slot(t0, row0, j)
                    }
                })
                &&& (id != u32::MAX && self.rows_wf()) ==> w.rows_wf()
            }),
    {
        let rs = self.row_size();
        let base = self.row_base(t0, row0);
        let w = self.insert_at(base, id);
        let c = self.counter(t0, row0) as int;
        self.lemma_slot_pos(t0, row0, 0);
        if c < self.reservoir {
            self.lemma_slot_pos(t0, row0, c + 1);
        } else {
            vstd::arithmetic::div_mod::lemma_mod_division_less_than_divisor(
                c,
                20 * self.reservoir as int,
            );
            let rr = self.rv[c % (20 * self.reservoir as int)] as int;
            if rr < self.reservoir {
                self.lemma_slot_pos(t0, row0, rr + 1);
            }
        }
        assert(w.buf.len() == self.buf.len());
        assert forall|j: int| 1 <= j <= self.reservoir implies w.slot(t0, row0, j) == {
            let cc = if c < self.reservoir {
                c + 1
            } else {
                let rr = self.rv[c % (20 * self.reservoir as int)] as int;
                if rr < self.reservoir {
                    rr + 1
                } else {
                    0
                }
            };
            if j == cc {
                id
            } else {
                self.slot(t0, row0, j)
            }
        } by {
            self.lemma_slot_pos(t0, row0, j);
        }
        assert forall|t: int, row: int|
            0 <= t < self.tables && 0 <= row < self.rows && !(t == t0 && row == row0)
            implies #[trigger] w.counter(t, row) == self.counter(t, row) by {
            self.lemma_rows_disjoint(t, row, t0, row0);
            self.lemma_slot_pos(t, row, 0);
        }
        assert forall|t: int, row: int, j: int|
            0 <= t < self.tables && 0 <= row < self.rows && !(t == t0 && row == row0) && 1 <= j
                <= self.reservoir implies #[trigger] w.slot(t, row, j) == self.slot(t, row, j) by {
            self.lemma_rows_disjoint(t, row, t0, row0);
            self.lemma_slot_pos(t, row, j);
        }
        if id != u32::MAX && self.rows_wf() {
            assert forall|t: int, row: int, j: int|
                0 <= t < w.tables && 0 <= row < w.rows && 1 <= j <= w.reservoir implies (
            #[trigger] w.slot(t, row, j) != u32::MAX <==> j <= w.counter(t, row)) by {
                if t == t0 && row == row0 {
                    assert(self.slot(t, row, j) != u32::MAX <==> j <= c);
                } else {
                    assert(w.slot(t, row, j) == self.slot(t, row, j));
                    assert(w.counter(t, row) == self.counter(t, row));
                }
            }
        }
    }

    /// Folding one ID through the first `t` tables: each in-range row's
    /// counter rises by one exactly when its table has reached that row.
    pub proof fn lemma_insert_tables_effect(self, id: u32, rowhash: Seq<u32>, t: nat)
        requires
            self.wf(),
            t <= self.tables,
            rowhash.len() == self.tables,
            forall|i: int| 0 <= i < t ==> (rowhash[i] as int) < self.rows,
            forall|tt: int, row: int|
                0 <= tt < self.tables && 0 <= row < self.rows ==> #[trigger] self.counter(tt, row)
                    < u32::MAX,
        ensures
            ({
                let w = self.insert_tables(id, rowhash, t);
                &&& w.wf()
                &&& w.same_shape(self)
                &&& w.buf.len() == self.buf.len()
                &&& forall|tt: int, row: int|
                    0 <= tt < self.tables && 0 <= row < self.rows ==> #[trigger] w.counter(tt, row)
                        == self.counter(tt, row) + (if 0 <= tt < t && rowhash[tt] == row {
                        1int
                    } else {
                        0int
                    })
                &&& (id != u32::MAX && self.rows_wf()) ==> w.rows_wf()
            }),
        decreases t,
    {
        if t != 0 {
            let prev = self.insert_tables(id, rowhash, (t - 1) as nat);
            self.lemma_insert_tables_effect(id, rowhash, (t - 1) as nat);
            let t0 = t - 1;
            let row0 = rowhash[t0] as int;
            assert(prev.counter(t0, row0) == self.counter(t0, row0));
            prev.lemma_insert_at_effect(t0, row0, id);
            assert(prev.row_base(t0, row0) == self.row_base(t0, row0));
            let w = self.insert_tables(id, rowhash, t);
            assert forall|tt: int, row: int|
                0 <= tt < self.tables && 0 <= row < self.rows implies #[trigger] w.counter(tt, row)
                == self.counter(tt, row) + (if 0 <= tt < t && rowhash[tt] == row {
                1int
            } else {
                0int
            }) by {
                if tt == t0 && row == row0 {
                    assert(w.counter(tt, row) == prev.counter(tt, row) + 1);
                } else {
                    assert(w.counter(tt, row) == prev.counter(tt, row));
                }
            }
        }
    }

    /// Folding the first `n` IDs through all tables: each row's counter rises
    /// by the number of those insertions that target it.
    pub proof fn lemma_insert_seq_effect(self, ids: Seq<u32>, hashes: Seq<u32>, n: nat)
        requires
            self.wf(),
            n <= ids.len(),
            hashes.len() == ids.len() * self.tables,
            forall|i: int| 0 <= i < hashes.len() ==> (hashes[i] as int) < self.rows,
            forall|tt: int, row: int|
                0 <= tt < self.tables && 0 <= row < self.rows ==> #[trigger] self.counter(tt, row)
                    + n <= u32::MAX,
        ensures
            ({
                let w = self.insert_seq(ids, hashes, n);
                &&& w.wf()
                &&& w.same_shape(self)
                &&& w.buf.len() == self.buf.len()
                &&& forall|tt: int, row: int|
                    0 <= tt < self.tables && 0 <= row < self.rows ==> #[trigger] w.counter(tt, row)
                        == self.counter(tt, row) + Self::hits(
                        hashes,
                        self.tables as int,
                        tt,
                        row,
                        n as int,
                    )
                &&& (self.rows_wf() && (forall|i: int| 0 <= i < n ==> ids[i] != u32::MAX))
                    ==> w.rows_wf()
            }),
        decreases n,
    {
        let tables = self.tables as int;
        if n != 0 {
            let m = (n - 1) as nat;
            self.lemma_insert_seq_effect(ids, hashes, m);
            let prev = self.insert_seq(ids, hashes, m);
            let rowhash = hashes.subrange(m * tables, n * tables);
            assert(n * tables == m * tables + tables && n * tables <= ids.len() * tables) by (
            nonlinear_arith)
                requires
                    0 < n <= ids.len(),
                    m == n - 1,
                    tables >= 1,
            ;
            assert forall|tt: int, row: int|
                0 <= tt < prev.tables && 0 <= row < prev.rows implies #[trigger] prev.counter(
                tt,
                row,
            ) < u32::MAX by {
                Self::lemma_hits_le(hashes, tables, tt, row, m as int);
            }
            assert forall|i: int| 0 <= i < prev.tables implies (rowhash[i] as int)
                < prev.rows by {
                assert(rowhash[i] == hashes[m * tables + i]);
            }
            prev.lemma_insert_tables_effect(ids[m as int], rowhash, prev.tables);
            let w = self.insert_seq(ids, hashes, n);
            assert forall|tt: int, row: int|
                0 <= tt < self.tables && 0 <= row < self.rows implies #[trigger] w.counter(tt, row)
                == self.counter(tt, row) + Self::hits(hashes, tables, tt, row, n as int) by {
                assert(rowhash[tt] == hashes[m * tables + tt]);
                assert(Self::hits(hashes, tables, tt, row, n as int) == Self::hits(
                    hashes,
                    tables,
                    tt,
                    row,
                    m as int,
                ) + (if hashes[m * tables + tt] == row {
                    1nat
                } else {
                    0nat
                }));
            }
        }
    }
}

/// One query's output block: the match count, then the top IDs in rank
/// order, then zeros out to the fixed stride of `k + 1` slots.
pub open spec fn query_block(sorted: Seq<(u32, u32)>, k: int) -> Seq<u32> {
    let num = if sorted.len() <= k {
        sorted.len() as int
    } else {
        k
    };
    Seq::new(
        (k + 1) as nat,
        |i: int|
            if i == 0 {
                num as u32
            } else if i <= num {
                sorted[i - 1].0
            } else {
                0u32
            },
    )
}

/// Index of the first tally entry for `id`, or -1 if there is none.
pub open spec fn find_idx(s: Seq<(u32, u32)>, id: u32) -> int
    decreases s.len(),
{
    if s.len() == 0 {
        -1
    } else if s[0].0 == id {
        0
    } else {
        let r = find_idx(s.skip(1), id);
        if r < 0 {
            -1
        } else {
            r + 1
        }
    }
}

pub proof fn lemma_find_idx_char(s: Seq<(u32, u32)>, id: u32)
    ensures
        ({
            let r = find_idx(s, id);
            &&& -1 <= r < s.len()
            &&& r >= 0 ==> s[r].0 == id && (forall|j: int| 0 <= j < r ==> (#[trigger] s[j]).0 != id)
            &&& r < 0 ==> (forall|j: int| 0 <= j < s.len() ==> (#[trigger] s[j]).0 != id)
        }),
    decreases s.len(),
{
    if s.len() != 0 && s[0].0 != id {
        lemma_find_idx_char(s.skip(1), id);
        assert forall|j: int| 1 <= j < s.len() implies s.skip(1)[j - 1] == (#[trigger] s[j]) by {}
    }
}

/// A tally step: the first entry for `id` gains one vote; a new ID enters
/// with one vote at the end.
pub open spec fn bump(s: Seq<(u32, u32)>, id: u32) -> Seq<(u32, u32)> {
    let r = find_idx(s, id);
    if r < 0 {
        s.push((id, 1u32))
    } else {
        s.update(r, (id, u32_specs::wrapping_add(s[r].1, 1)))
    }
}

/// Every vote count in a bumped tally stays below the running bound, and the
/// tally grows by at most one entry.
pub proof fn lemma_bump_bounds(s: Seq<(u32, u32)>, id: u32, b: int)
    requires
        forall|j: int| 0 <= j < s.len() ==> ((#[trigger] s[j]).1 as int) <= b,
        0 <= b,
        b + 1 <= u32::MAX,
    ensures
        bump(s, id).len() <= s.len() + 1,
        forall|j: int|
            0 <= j < bump(s, id).len() ==> ((#[trigger] bump(s, id)[j]).1 as int) <= b + 1,
{
    lemma_find_idx_char(s, id);
}

/// The votes an ID holds in a tally, 0 if it is absent.
pub open spec fn tally_votes(s: Seq<(u32, u32)>, id: u32) -> nat {
    let r = find_idx(s, id);
    if r < 0 {
        0
    } else {
        s[r].1 as nat
    }
}

/// A bump gives its ID one more vote and leaves every other ID's votes as
/// they were.
pub proof fn lemma_bump_votes(s: Seq<(u32, u32)>, id: u32, x: u32, b: int)
    requires
        forall|j: int| 0 <= j < s.len() ==> ((#[trigger] s[j]).1 as int) <= b,
        0 <= b,
        b + 1 <= u32::MAX,
    ensures
        tally_votes(bump(s, id), id) == tally_votes(s, id) + 1,
        x != id ==> tally_votes(bump(s, id), x) == tally_votes(s, x),
{
    lemma_find_idx_char(s, id);
    lemma_find_idx_char(s, x);
    let r = find_idx(s, id);
    let w = bump(s, id);
    lemma_find_idx_char(w, id);
    lemma_find_idx_char(w, x);
    if r < 0 {
        assert(w == s.push((id, 1u32)));
        assert(w[s.len() as int].0 == id);
        assert(forall|j: int| 0 <= j < s.len() ==> (#[trigger] w[j]).0 == s[j].0);
        assert(find_idx(w, id) == s.len());
        if x != id {
            if find_idx(s, x) >= 0 {
                let rx = find_idx(s, x);
                assert(w[rx].0 == x);
                assert(find_idx(w, x) == rx);
            } else {
                assert(find_idx(w, x) < 0);
            }
        }
    } else {
        assert(w == s.update(r, (id, u32_specs::wrapping_add(s[r].1, 1))));
        assert(forall|j: int| 0 <= j < s.len() ==> (#[trigger] w[j]).0 == s[j].0);
        assert(w[r].0 == id);
        assert(find_idx(w, id) == r);
        assert((s[r].1 as int) <= b);
        if x != id {
            if find_idx(s, x) >= 0 {
                let rx = find_idx(s, x);
                assert(w[rx].0 == x);
                assert(find_idx(w, x) == rx);
                assert(w[rx] == s[rx]);
            } else {
                assert(find_idx(w, x) < 0);
            }
        }
    }
}

/// Insertion into a descending tally: `x` goes after every entry with at
/// least as many votes, so entries with equal votes keep their order.
pub open spec fn insort(s: Seq<(u32, u32)>, x: (u32, u32)) -> Seq<(u32, u32)>
    decreases s.len(),
{
    if s.len() == 0 {
        seq![x]
    } else if s[0].1 >= x.1 {
        seq![s[0]] + insort(s.skip(1), x)
    } else {
        seq![x] + s
    }
}

/// Stable sort by descending vote count, folding from the left.
pub open spec fn sort_desc(s: Seq<(u32, u32)>) -> Seq<(u32, u32)>
    decreases s.len(),
{
    if s.len() == 0 {
        Seq::empty()
    } else {
        insort(sort_desc(s.drop_last()), s.last())
    }
}

/// Where the scan for the insertion point stops, `insort` inserts.
pub proof fn lemma_insort_at(s: Seq<(u32, u32)>, x: (u32, u32), p: int)
    requires
        0 <= p <= s.len(),
        forall|j: int| 0 <= j < p ==> ((#[trigger] s[j]).1) >= x.1,
        p < s.len() ==> s[p].1 < x.1,
    ensures
        insort(s, x) == s.insert(p, x),
    decreases p,
{
    if s.len() == 0 {
        assert(insort(s, x) =~= s.insert(0, x));
    } else if p == 0 {
        assert(insort(s, x) =~= s.insert(0, x));
    } else {
        assert(s[0].1 >= x.1);
        lemma_insort_at(s.skip(1), x, p - 1);
        assert(insort(s, x) =~= s.insert(p, x));
    }
}

pub proof fn lemma_insort_len(s: Seq<(u32, u32)>, x: (u32, u32))
    ensures
        insort(s, x).len() == s.len() + 1,
    decreases s.len(),
{
    if s.len() != 0 && s[0].1 >= x.1 {
        lemma_insort_len(s.skip(1), x);
    }
}

pub proof fn lemma_sort_desc_len(s: Seq<(u32, u32)>)
    ensures
        sort_desc(s).len() == s.len(),
    decreases s.len(),
{
    if s.len() != 0 {
        lemma_sort_desc_len(s.drop_last());
        lemma_insort_len(sort_desc(s.drop_last()), s.last());
    }
}

proof fn lemma_insort_multiset(s: Seq<(u32, u32)>, x: (u32, u32))
    ensures
        insort(s, x).to_multiset() =~= s.to_multiset().insert(x),
    decreases s.len(),
{
    broadcast use vstd::seq_lib::group_to_multiset_ensures;
    broadcast use vstd::multiset::group_multiset_axioms;

    if s.len() == 0 || s[0].1 < x.1 {
        assert(insort(s, x) =~= seq![x] + s);
        vstd::seq_lib::lemma_multiset_commutative(seq![x], s);
        assert(seq![x] =~= Seq::<(u32, u32)>::empty().push(x));
        assert(Seq::<(u32, u32)>::empty().to_multiset() =~= Multiset::<(u32, u32)>::empty());
    } else {
        lemma_insort_multiset(s.skip(1), x);
        vstd::seq_lib::lemma_multiset_commutative(seq![s[0]], insort(s.skip(1), x));
        vstd::seq_lib::lemma_multiset_commutative(seq![s[0]], s.skip(1));
        assert(s =~= seq![s[0]] + s.skip(1));
    }
}

/// Sorting permutes the tally: the ranked sequence holds exactly the
/// tally's entries, each with its vote count.
pub proof fn lemma_sort_desc_multiset(s: Seq<(u32, u32)>)
    ensures
        sort_desc(s).to_multiset() == s.to_multiset(),
    decreases s.len(),
{
    broadcast use vstd::seq_lib::group_to_multiset_ensures;

    if s.len() != 0 {
        lemma_sort_desc_multiset(s.drop_last());
        lemma_insort_multiset(sort_desc(s.drop_last()), s.last());
        assert(s =~= s.drop_last().push(s.last()));
        assert(sort_desc(s).to_multiset() =~= s.to_multiset());
    }
}

/// Vote counts never increase along the sorted tally.
pub open spec fn sorted_desc(s: Seq<(u32, u32)>) -> bool {
    forall|i: int, j: int| 0 <= i < j < s.len() ==> (#[trigger] s[i]).1 >= (#[trigger] s[j]).1
}

/// The sorted tally really is ranked by descending vote count.
pub proof fn lemma_sort_desc_sorted(s: Seq<(u32, u32)>)
    ensures
        sorted_desc(sort_desc(s)),
    decreases s.len(),
{
    if s.len() != 0 {
        lemma_sort_desc_sorted(s.drop_last());
        lemma_insort_sorted(sort_desc(s.drop_last()), s.last());
    }
}

pub proof fn lemma_insort_sorted(s: Seq<(u32, u32)>, x: (u32, u32))
    requires
        sorted_desc(s),
    ensures
        sorted_desc(insort(s, x)),
    decreases s.len(),
{
    if s.len() == 0 {
    } else if s[0].1 >= x.1 {
        assert(sorted_desc(s.skip(1)));
        lemma_insort_sorted(s.skip(1), x);
        let r = seq![s[0]] + insort(s.skip(1), x);
        lemma_insort_len(s.skip(1), x);
        assert forall|i: int, j: int| 0 <= i < j < r.len() implies (#[trigger] r[i]).1 >= (
        #[trigger] r[j]).1 by {
            if i == 0 {
                if j >= 1 {
                    let t = insort(s.skip(1), x);
                    assert(r[j] == t[j - 1]);
                    lemma_insort_element(s.skip(1), x, j - 1);
                }
            }
        }
    }
}

/// Every entry of an insorted tally is the new element or one of the old.
pub proof fn lemma_insort_element(s: Seq<(u32, u32)>, x: (u32, u32), i: int)
    requires
        0 <= i < insort(s, x).len(),
    ensures
        insort(s, x)[i] == x || exists|j: int| 0 <= j < s.len() && (#[trigger] s[j]) == insort(
            s,
            x,
        )[i],
    decreases s.len(),
{
    lemma_insort_len(s, x);
    if s.len() == 0 {
    } else if s[0].1 >= x.1 {
        if i >= 1 {
            lemma_insort_element(s.skip(1), x, i - 1);
            if insort(s, x)[i] != x {
                let j = choose|j: int|
                    0 <= j < s.skip(1).len() && (#[trigger] s.skip(1)[j]) == insort(
                        s.skip(1),
                        x,
                    )[i - 1];
                assert(s[j + 1] == insort(s, x)[i]);
            }
        } else {
            assert(s[0] == insort(s, x)[0]);
        }
    } else {
        if i >= 1 {
            assert(s[i - 1] == insort(s, x)[i]);
        }
    }
}

/// The match count stored at the head of query `q`'s block.
pub open spec fn block_count_at(data: Seq<u32>, k: int, q: int) -> nat {
    data[q * (k + 1)] as nat
}

/// Read-only top-k results, one `(k + 1)`-slot block per query: the match
/// count `m <= k`, then `m` candidate IDs ranked by descending vote count.
pub struct QueryResult {
    results: HeapAllocatedArray<IDType>,
    len: usize,
    k: usize,
}

impl QueryResult {
    pub closed spec fn spec_data(&self) -> Seq<u32> {
        self.results@
    }

    /// The number of queries answered.
    pub closed spec fn spec_len(&self) -> nat {
        self.len as nat
    }

    pub closed spec fn spec_k(&self) -> nat {
        self.k as nat
    }

    pub open spec fn wf(&self) -> bool {
        &&& self.spec_data().len() == self.spec_len() * (self.spec_k() + 1)
        &&& forall|q: int|
            0 <= q < self.spec_len() ==> #[trigger] block_count_at(
                self.spec_data(),
                self.spec_k() as int,
                q,
            ) <= self.spec_k()
    }

    pub fn new(results: HeapAllocatedArray<IDType>, len: usize, k: usize) -> (r: Self)
        requires
            results@.len() == len * (k as int + 1),
            forall|q: int|
                0 <= q < len ==> #[trigger] block_count_at(results@, k as int, q) <= k,
        ensures
            r.wf(),
            r.spec_data() == results@,
            r.spec_len() == len,
            r.spec_k() == k,
    {
        QueryResult { results, len, k }
    }

    pub fn len(&self) -> (r: usize)
        ensures
            r == self.spec_len(),
    {
        self.len
    }

    /// The match count of query `idx`.
    pub fn count(&self, idx: usize) -> (r: usize)
        requires
            self.wf(),
            idx < self.spec_len(),
        ensures
            r == block_count_at(self.spec_data(), self.spec_k() as int, idx as int),
    {
        let dlen = self.results.len();
        proof {
            assert(idx * (self.k as int + 1) + (self.k as int + 1) <= dlen && idx * (self.k as int
                + 1) >= 0) by (nonlinear_arith)
                requires
                    0 <= idx < self.len,
                    dlen == self.len * (self.k as int + 1),
            ;
        }
        let start = idx * (self.k + 1);
        self.results.get(start) as usize
    }

    /// The candidate IDs of query `idx`, best ranked first.
    pub fn nth(&self, idx: usize) -> (r: Vec<IDType>)
        requires
            self.wf(),
            idx < self.spec_len(),
        ensures
            r@.len() == block_count_at(self.spec_data(), self.spec_k() as int, idx as int),
            forall|i: int|
                0 <= i < r@.len() ==> r@[i] == self.spec_data()[idx as int * (self.spec_k() as int
                    + 1) + 1 + i],
    {
        let dlen = self.results.len();
        proof {
            assert(idx * (self.k as int + 1) + (self.k as int + 1) <= dlen && idx * (self.k as int
                + 1) >= 0) by (nonlinear_arith)
                requires
                    0 <= idx < self.len,
                    dlen == self.len * (self.k as int + 1),
            ;
        }
        let start = idx * (self.k + 1);
        let m = self.results.get(start) as usize;
        proof {
            assert(block_count_at(self.spec_data(), self.spec_k() as int, idx as int)
                <= self.spec_k());
            assert(m == block_count_at(self.spec_data(), self.spec_k() as int, idx as int));
        }
        let mut r: Vec<IDType> = Vec::new();
        let mut i: usize = 0;
        while i < m
            invariant
                i <= m,
                m <= self.k,
                start == idx * (self.k as int + 1),
                dlen == self.results@.len(),
                start + self.k + 1 <= dlen,
                r@.len() == i,
                forall|j: int| 0 <= j < i ==> r@[j] == self.results@[start + 1 + j],
            decreases m - i,
        {
            r.push(self.results.get(start + 1 + i));
            i = i + 1;
        }
        r
    }
}

/// Index of the first entry for `id` in the tally, or its length if absent.
fn find_entry(tally: &Vec<(u32, u32)>, id: u32) -> (r: usize)
    ensures
        r <= tally@.len(),
        (r as int) < tally@.len() ==> find_idx(tally@, id) == r,
        r == tally@.len() ==> find_idx(tally@, id) == -1,
{
    proof {
        lemma_find_idx_char(tally@, id);
    }
    let n = tally.len();
    let mut p: usize = 0;
    while p < n
        invariant
            p <= n,
            n == tally@.len(),
            forall|j: int| 0 <= j < p ==> (#[trigger] tally@[j]).0 != id,
        decreases n - p,
    {
        let e = tally[p];
        if e.0 == id {
            proof {
                lemma_find_idx_char(tally@, id);
            }
            return p;
        }
        p = p + 1;
    }
    p
}

/// Index of the first sorted entry with fewer votes than `cnt`, or the
/// length if every entry has at least `cnt`.
fn insert_pos(sorted: &Vec<(u32, u32)>, cnt: u32) -> (r: usize)
    ensures
        r <= sorted@.len(),
        forall|j: int| 0 <= j < r ==> (#[trigger] sorted@[j]).1 >= cnt,
        (r as int) < sorted@.len() ==> sorted@[r as int].1 < cnt,
{
    let n = sorted.len();
    let mut p: usize = 0;
    while p < n
        invariant
            p <= n,
            n == sorted@.len(),
            forall|j: int| 0 <= j < p ==> (#[trigger] sorted@[j]).1 >= cnt,
        decreases n - p,
    {
        let e = sorted[p];
        if e.1 < cnt {
            return p;
        }
        p = p + 1;
    }
    p
}

pub struct LSH {
    data: HeapAllocatedArray<IDType>,
    tables: usize,
    rows: usize,
    reservoir_size: usize,
    row_size: usize,
    table_size: usize,
    rand_values: HeapAllocatedArray<usize>,
}

impl View for LSH {
    type V = LSHView;

    closed spec fn view(&self) -> LSHView {
        LSHView {
            tables: self.tables as nat,
            rows: self.rows as nat,
            reservoir: self.reservoir_size as nat,
            buf: self.data@,
            rv: self.rand_values@,
        }
    }
}

impl LSH {
    pub closed spec fn wf(&self) -> bool {
        &&& self@.wf()
        &&& self.row_size == self.reservoir_size + 1
        &&& self.table_size == self.rows * self.row_size
        &&& self.tables * self.table_size == self.data@.len()
    }

    pub proof fn lemma_wf_view(&self)
        requires
            self.wf(),
        ensures
            self@.wf(),
    {
    }

    /// Builds an empty index: `tables` tables of `2^range_pow` rows, each row
    /// one counter slot (zero) and `reservoir_size` sentinel slots, and a
    /// freshly drawn reservoir decision table with `rv[0] == 0` and
    /// `rv[i] < i` for `i >= 1`.
    pub fn new(tables: usize, range_pow: usize, reservoir_size: usize) -> (r: Self)
        requires
            tables >= 1,
            reservoir_size >= 1,
            range_pow <= 31,
            20 * reservoir_size <= usize::MAX,
            pow2(range_pow as nat) * tables * (reservoir_size + 1) <= usize::MAX,
        ensures
            r.wf(),
            r@.tables == tables,
            r@.rows == pow2(range_pow as nat),
            r@.reservoir == reservoir_size,
            r@.rv.len() == 20 * reservoir_size,
            r@.rv[0] == 0,
            forall|i: int| 1 <= i < r@.rv.len() ==> (r@.rv[i] as int) < i,
            forall|t: int, row: int|
                0 <= t < r@.tables && 0 <= row < r@.rows ==> r@.counter(t, row) == 0,
            forall|t: int, row: int, j: int|
                0 <= t < r@.tables && 0 <= row < r@.rows && 1 <= j <= r@.reservoir
                    ==> #[trigger] r@.slot(t, row, j) == u32::MAX,
            r@.rows_wf(),
    {
        let rv_len = 20 * reservoir_size;
        let mut rand_values = HeapAllocatedArray::<usize>::with_value(rv_len, 0);
        let mut i: usize = 1;
        while i < rv_len
            invariant
                1 <= i,
                rand_values@.len() == rv_len,
                rand_values@[0] == 0,
                forall|j: int| 1 <= j < i ==> (rand_values@[j] as int) < j,
            decreases rv_len - i,
        {
            let w = entropy::random_usize();
            rand_values.set(i, w % i);
            i = i + 1;
        }

        proof {
            vstd::bits::lemma_usize_pow2_no_overflow(range_pow as nat);
            vstd::bits::lemma_usize_shl_is_mul(1usize, range_pow as usize);
        }
        let rows: usize = 1usize << range_pow;
        assert(rows == pow2(range_pow as nat));

        let row_size = reservoir_size + 1;
        proof {
            assert(rows * row_size <= rows * tables * row_size && rows * tables * row_size
                == pow2(range_pow as nat) * tables * row_size && tables * (rows * row_size)
                == rows * tables * row_size) by (nonlinear_arith)
                requires
                    tables >= 1,
                    rows >= 1,
                    row_size >= 1,
                    rows == pow2(range_pow as nat),
            ;
        }
        let table_size = rows * row_size;
        let total = tables * table_size;
        let mut data = HeapAllocatedArray::<u32>::with_value(total, u32::MAX);

        proof {
            assert(tables * rows <= total && (tables * rows) * row_size == total) by (
            nonlinear_arith)
                requires
                    table_size == rows * row_size,
                    total == tables * table_size,
                    tables >= 1,
                    rows >= 1,
                    row_size >= 2,
            ;
        }
        let num_rows = tables * rows;
        let mut li: usize = 0;
        while li < num_rows
            invariant
                li <= num_rows,
                num_rows * row_size == total,
                row_size >= 2,
                data@.len() == total,
                forall|p: int|
                    0 <= p < total ==> data@[p] == (if p % (row_size as int) == 0 && p < li
                        * row_size {
                        0u32
                    } else {
                        u32::MAX
                    }),
            decreases num_rows - li,
        {
            proof {
                assert(li * row_size + row_size <= num_rows * row_size && li * row_size >= 0
                    && (li * row_size) % (row_size as int) == 0) by (nonlinear_arith)
                    requires
                        0 <= li < num_rows,
                        row_size >= 2,
                ;
            }
            let ghost pre = data@;
            data.set(li * row_size, 0);
            proof {
                assert forall|p: int| 0 <= p < total implies data@[p] == (if p % (row_size as int)
                    == 0 && p < (li + 1) * row_size {
                    0u32
                } else {
                    u32::MAX
                }) by {
                    assert((li + 1) * row_size == li * row_size + row_size) by (nonlinear_arith);
                    if p != li * row_size {
                        assert(data@[p] == pre[p]);
                        if p % (row_size as int) == 0 && li * row_size <= p < (li + 1) * row_size {
                            assert(false) by (nonlinear_arith)
                                requires
                                    row_size >= 2,
                                    0 <= li,
                                    p % (row_size as int) == 0,
                                    li * row_size <= p,
                                    p < li * row_size + row_size,
                                    p != li * row_size,
                            ;
                        }
                    }
                }
            }
            li = li + 1;
        }

        let r = LSH {
            data,
            tables,
            rows,
            reservoir_size,
            row_size,
            table_size,
            rand_values,
        };
        proof {
            assert(r.wf());
            assert forall|t: int, row: int|
                0 <= t < r@.tables && 0 <= row < r@.rows implies #[trigger] r@.counter(t, row)
                == 0 by {
                r@.lemma_slot_pos(t, row, 0);
            }
            assert forall|t: int, row: int, j: int|
                0 <= t < r@.tables && 0 <= row < r@.rows && 1 <= j <= r@.reservoir
                implies #[trigger] r@.slot(t, row, j) == u32::MAX by {
                r@.lemma_slot_pos(t, row, j);
            }
        }
        r
    }

    /// Inserts `ids[n]` into the row `hashes[n * tables + t]` of every table
    /// `t`, in input order, sampling rows that are already full.
    ///
    /// `u32::MAX` is reserved as the empty-slot sentinel and is not a legal
    /// ID; counters must have room for `ids.len()` more insertions.
    pub fn insert(&mut self, ids: &[IDType], hashes: &[HashType])
        requires
            old(self).wf(),
            hashes@.len() == ids@.len() * old(self)@.tables,
            forall|i: int| 0 <= i < hashes@.len() ==> (hashes@[i] as int) < old(self)@.rows,
            forall|i: int| 0 <= i < ids@.len() ==> ids@[i] != u32::MAX,
            forall|t: int, row: int|
                0 <= t < old(self)@.tables && 0 <= row < old(self)@.rows
                    ==> #[trigger] old(self)@.counter(t, row) + ids@.len() <= u32::MAX,
        ensures
            final(self).wf(),
            final(self)@ == old(self)@.insert_batch(ids@, hashes@),
            old(self)@.rows_wf() ==> final(self)@.rows_wf(),
    {
        let ghost v0 = self@;
        let num = ids.len();
        let hlen = hashes.len();
        let mut n: usize = 0;
        while n < num
            invariant
                n <= num,
                num == ids@.len(),
                hlen == hashes@.len(),
                self.wf(),
                v0 == old(self)@,
                v0.wf(),
                self@ == v0.insert_seq(ids@, hashes@, n as nat),
                self@.same_shape(v0),
                self.tables == old(self).tables,
                self.rows == old(self).rows,
                self.reservoir_size == old(self).reservoir_size,
                self.row_size == old(self).row_size,
                self.table_size == old(self).table_size,
                hashes@.len() == num * v0.tables,
                forall|i: int| 0 <= i < hashes@.len() ==> (hashes@[i] as int) < v0.rows,
                forall|i: int| 0 <= i < ids@.len() ==> ids@[i] != u32::MAX,
                forall|t: int, row: int|
                    0 <= t < v0.tables && 0 <= row < v0.rows ==> #[trigger] v0.counter(t, row)
                        + num <= u32::MAX,
            decreases num - n,
        {
            let ghost vn = self@;
            let ghost tbl = v0.tables as int;
            proof {
                assert((n + 1) * tbl <= num * tbl && n * tbl + tbl == (n + 1) * tbl) by (
                nonlinear_arith)
                    requires
                        0 <= n < num,
                        tbl >= 1,
                ;
                v0.lemma_insert_seq_effect(ids@, hashes@, n as nat);
                assert forall|tt: int, row: int|
                    0 <= tt < vn.tables && 0 <= row < vn.rows implies #[trigger] vn.counter(
                    tt,
                    row,
                ) < u32::MAX by {
                    LSHView::lemma_hits_le(hashes@, tbl, tt, row, n as int);
                    assert(v0.counter(tt, row) + num <= u32::MAX);
                }
            }
            let ghost rowhash = hashes@.subrange(n as int * tbl, (n as int + 1) * tbl);
            let id = ids[n];
            let mut t: usize = 0;
            while t < self.tables
                invariant
                    t <= self.tables,
                    n < num,
                    num == ids@.len(),
                    self.wf(),
                    vn.wf(),
                    id == ids@[n as int],
                    tbl == vn.tables as int,
                    vn.same_shape(v0),
                    v0.wf(),
                    self@ == vn.insert_tables(id, rowhash, t as nat),
                    self@.same_shape(vn),
                    self.tables == old(self).tables,
                    self.rows == old(self).rows,
                    self.reservoir_size == old(self).reservoir_size,
                    self.row_size == old(self).row_size,
                    self.table_size == old(self).table_size,
                    rowhash == hashes@.subrange(n as int * tbl, (n as int + 1) * tbl),
                    hlen == hashes@.len(),
                    (n as int + 1) * tbl <= hashes@.len(),
                    n as int * tbl + tbl == (n as int + 1) * tbl,
                    hashes@.len() == num * v0.tables,
                    forall|i: int| 0 <= i < hashes@.len() ==> (hashes@[i] as int) < v0.rows,
                    forall|tt: int, row: int|
                        0 <= tt < vn.tables && 0 <= row < vn.rows ==> #[trigger] vn.counter(
                            tt,
                            row,
                        ) < u32::MAX,
                decreases self.tables - t,
            {
                proof {
                    vn.lemma_insert_tables_effect(id, rowhash, t as nat);
                    assert(self.tables as int == tbl);
                    assert(n * self.tables + t < hashes@.len());
                }
                let ghost w = self@;
                let h = hashes[n * self.tables + t] as usize;
                let dlen = self.data.len();
                proof {
                    assert(rowhash[t as int] == hashes@[n as int * tbl + t]);
                    w.lemma_slot_pos(t as int, h as int, 0);
                    assert(t * self.table_size <= w.row_base(t as int, h as int) && h
                        * self.row_size <= w.row_base(t as int, h as int)) by (nonlinear_arith)
                        requires
                            t >= 0,
                            h >= 0,
                            self.table_size >= 0,
                            self.row_size >= 1,
                            w.row_base(t as int, h as int) == t * self.table_size + h
                                * self.row_size,
                    ;
                    assert(w.row_base(t as int, h as int) + w.row_size() <= dlen);
                }
                let offset = t * self.table_size + h * self.row_size;
                let count = self.data.get(offset);
                proof {
                    assert(w.counter(t as int, h as int) == vn.counter(t as int, h as int));
                    if (count as int) < self.reservoir_size as int {
                        w.lemma_slot_pos(t as int, h as int, count as int + 1);
                    }
                }
                self.data.set(offset, count + 1);
                if (count as usize) < self.reservoir_size {
                    self.data.set(offset + 1 + (count as usize), id);
                } else {
                    let m = self.rand_values.len();
                    let rr = self.rand_values.get((count as usize) % m);
                    if rr < self.reservoir_size {
                        proof {
                            w.lemma_slot_pos(t as int, h as int, rr as int + 1);
                        }
                        self.data.set(offset + 1 + rr, id);
                    }
                }
                proof {
                    let w_next = vn.insert_tables(id, rowhash, (t + 1) as nat);
                    assert(self@.buf =~= w.insert_at(w.row_base(t as int, h as int), id).buf);
                    assert(self@ =~= w_next);
                }
                t = t + 1;
            }
            proof {
                assert(rowhash.len() == tbl);
                assert(self@ =~= v0.insert_seq(ids@, hashes@, (n + 1) as nat));
            }
            n = n + 1;
        }
        proof {
            v0.lemma_insert_seq_effect(ids@, hashes@, num as nat);
        }
    }

    /// Like `insert` with the consecutive IDs `id_start, id_start + 1, ...,
    /// id_start + count - 1`, without materializing an ID vector.
    pub fn insert_range(&mut self, id_start: IDType, count: usize, hashes: &[HashType])
        requires
            old(self).wf(),
            id_start + count <= u32::MAX,
            hashes@.len() == count * old(self)@.tables,
            forall|i: int| 0 <= i < hashes@.len() ==> (hashes@[i] as int) < old(self)@.rows,
            forall|t: int, row: int|
                0 <= t < old(self)@.tables && 0 <= row < old(self)@.rows
                    ==> #[trigger] old(self)@.counter(t, row) + count <= u32::MAX,
        ensures
            final(self).wf(),
            final(self)@ == old(self)@.insert_batch(
                Seq::new(count as nat, |i: int| (id_start + i) as u32),
                hashes@,
            ),
            old(self)@.rows_wf() ==> final(self)@.rows_wf(),
    {
        let ghost v0 = self@;
        let ghost ids_seq = Seq::new(count as nat, |i: int| (id_start + i) as u32);
        let num = count;
        let hlen = hashes.len();
        let mut n: usize = 0;
        while n < num
            invariant
                n <= num,
                num == count,
                ids_seq == Seq::new(count as nat, |i: int| (id_start + i) as u32),
                id_start + count <= u32::MAX,
                hlen == hashes@.len(),
                self.wf(),
                v0 == old(self)@,
                v0.wf(),
                self@ == v0.insert_seq(ids_seq, hashes@, n as nat),
                self@.same_shape(v0),
                self.tables == old(self).tables,
                self.rows == old(self).rows,
                self.reservoir_size == old(self).reservoir_size,
                self.row_size == old(self).row_size,
                self.table_size == old(self).table_size,
                hashes@.len() == num * v0.tables,
                forall|i: int| 0 <= i < hashes@.len() ==> (hashes@[i] as int) < v0.rows,
                forall|t: int, row: int|
                    0 <= t < v0.tables && 0 <= row < v0.rows ==> #[trigger] v0.counter(t, row)
                        + num <= u32::MAX,
            decreases num - n,
        {
            let ghost vn = self@;
            let ghost tbl = v0.tables as int;
            proof {
                assert((n + 1) * tbl <= num * tbl && n * tbl + tbl == (n + 1) * tbl) by (
                nonlinear_arith)
                    requires
                        0 <= n < num,
                        tbl >= 1,
                ;
                v0.lemma_insert_seq_effect(ids_seq, hashes@, n as nat);
                assert forall|tt: int, row: int|
                    0 <= tt < vn.tables && 0 <= row < vn.rows implies #[trigger] vn.counter(
                    tt,
                    row,
                ) < u32::MAX by {
                    LSHView::lemma_hits_le(hashes@, tbl, tt, row, n as int);
                    assert(v0.counter(tt, row) + num <= u32::MAX);
                }
            }
            let ghost rowhash = hashes@.subrange(n as int * tbl, (n as int + 1) * tbl);
            let id = id_start + (n as IDType);
            proof {
                assert(id == ids_seq[n as int]);
            }
            let mut t: usize = 0;
            while t < self.tables
                invariant
                    t <= self.tables,
                    n < num,
                    num == count,
                    self.wf(),
                    vn.wf(),
                    id == ids_seq[n as int],
                    tbl == vn.tables as int,
                    vn.same_shape(v0),
                    v0.wf(),
                    self@ == vn.insert_tables(id, rowhash, t as nat),
                    self@.same_shape(vn),
                    self.tables == old(self).tables,
                    self.rows == old(self).rows,
                    self.reservoir_size == old(self).reservoir_size,
                    self.row_size == old(self).row_size,
                    self.table_size == old(self).table_size,
                    rowhash == hashes@.subrange(n as int * tbl, (n as int + 1) * tbl),
                    hlen == hashes@.len(),
                    (n as int + 1) * tbl <= hashes@.len(),
                    n as int * tbl + tbl == (n as int + 1) * tbl,
                    hashes@.len() == num * v0.tables,
                    forall|i: int| 0 <= i < hashes@.len() ==> (hashes@[i] as int) < v0.rows,
                    forall|tt: int, row: int|
                        0 <= tt < vn.tables && 0 <= row < vn.rows ==> #[trigger] vn.counter(
                            tt,
                            row,
                        ) < u32::MAX,
                decreases self.tables - t,
            {
                proof {
                    vn.lemma_insert_tables_effect(id, rowhash, t as nat);
                    assert(self.tables as int == tbl);
                    assert(n * self.tables + t < hashes@.len());
                }
                let ghost w = self@;
                let h = hashes[n * self.tables + t] as usize;
                let dlen = self.data.len();
                proof {
                    assert(rowhash[t as int] == hashes@[n as int * tbl + t]);
                    w.lemma_slot_pos(t as int, h as int, 0);
                    assert(t * self.table_size <= w.row_base(t as int, h as int) && h
                        * self.row_size <= w.row_base(t as int, h as int)) by (nonlinear_arith)
                        requires
                            t >= 0,
                            h >= 0,
                            self.table_size >= 0,
                            self.row_size >= 1,
                            w.row_base(t as int, h as int) == t * self.table_size + h
                                * self.row_size,
                    ;
                    assert(w.row_base(t as int, h as int) + w.row_size() <= dlen);
                }
                let offset = t * self.table_size + h * self.row_size;
                let count_word = self.data.get(offset);
                proof {
                    assert(w.counter(t as int, h as int) == vn.counter(t as int, h as int));
                    if (count_word as int) < self.reservoir_size as int {
                        w.lemma_slot_pos(t as int, h as int, count_word as int + 1);
                    }
                }
                self.data.set(offset, count_word + 1);
                if (count_word as usize) < self.reservoir_size {
                    self.data.set(offset + 1 + (count_word as usize), id);
                } else {
                    let m = self.rand_values.len();
                    let rr = self.rand_values.get((count_word as usize) % m);
                    if rr < self.reservoir_size {
                        proof {
                            w.lemma_slot_pos(t as int, h as int, rr as int + 1);
                        }
                        self.data.set(offset + 1 + rr, id);
                    }
                }
                proof {
                    let w_next = vn.insert_tables(id, rowhash, (t + 1) as nat);
                    assert(self@.buf =~= w.insert_at(w.row_base(t as int, h as int), id).buf);
                    assert(self@ =~= w_next);
                }
                t = t + 1;
            }
            proof {
                assert(rowhash.len() == tbl);
                assert(self@ =~= v0.insert_seq(ids_seq, hashes@, (n + 1) as nat));
            }
            n = n + 1;
        }
        proof {
            v0.lemma_insert_seq_effect(ids_seq, hashes@, num as nat);
        }
    }

    /// Answers `hashes.len() / tables` queries: for each, tallies the IDs in
    /// the row `hashes[q * tables + t]` of every table `t`, ranks the
    /// candidates by descending vote count (ties keep first-seen order), and
    /// writes the top `k` into the query's result block.
    pub fn query(&self, hashes: &[HashType], k: usize) -> (res: QueryResult)
        requires
            self.wf(),
            k + 1 <= usize::MAX,
            forall|i: int| 0 <= i < hashes@.len() ==> (hashes@[i] as int) < self@.rows,
            (hashes@.len() as int / self@.tables as int) * (k + 1) <= usize::MAX,
            self@.tables * self@.reservoir <= u32::MAX,
        ensures
            res.wf(),
            res.spec_k() == k,
            res.spec_len() == hashes@.len() as int / self@.tables as int,
            res.spec_data() == self@.spec_query(
                hashes@,
                k as int,
                hashes@.len() as int / self@.tables as int,
            ),
    {
        let ghost v = self@;
        let hlen = hashes.len();
        let nq = hlen / self.tables;
        proof {
            assert(self.tables as int == v.tables);
            vstd::arithmetic::div_mod::lemma_fundamental_div_mod(hlen as int, v.tables as int);
            vstd::arithmetic::div_mod::lemma_mod_division_less_than_divisor(
                hlen as int,
                v.tables as int,
            );
            assert(nq * v.tables as int <= hlen) by (nonlinear_arith)
                requires
                    v.tables as int * nq + (hlen as int) % (v.tables as int) == hlen,
                    (hlen as int) % (v.tables as int) >= 0,
            ;
        }
        let stride = k + 1;
        let total = nq * stride;
        let mut result = HeapAllocatedArray::<u32>::with_default(total);
        let mut q: usize = 0;
        while q < nq
            invariant
                q <= nq,
                stride == k + 1,
                total == nq * stride,
                hlen == hashes@.len(),
                self.wf(),
                v == self@,
                v.wf(),
                nq == hlen as int / v.tables as int,
                nq * v.tables as int <= hlen,
                forall|i: int| 0 <= i < hashes@.len() ==> (hashes@[i] as int) < v.rows,
                v.tables * v.reservoir <= u32::MAX,
                result@.len() == total,
                result@.subrange(0, q * stride) == v.spec_query(hashes@, k as int, q as int),
                forall|p: int| q * stride <= p < total ==> result@[p] == 0u32,
                forall|qq: int|
                    0 <= qq < q ==> #[trigger] block_count_at(result@, k as int, qq) <= k,
            decreases nq - q,
        {
            proof {
                assert((q + 1) * v.tables as int <= nq * v.tables as int && q * v.tables as int
                    + v.tables as int == (q + 1) * v.tables as int && (q + 1) * stride <= nq
                    * stride && q * stride + stride == (q + 1) * stride) by (nonlinear_arith)
                    requires
                        0 <= q < nq,
                        v.tables >= 1,
                        stride >= 1,
                ;
            }
            let ghost qh = hashes@.subrange(
                q as int * v.tables as int,
                (q as int + 1) * v.tables as int,
            );
            let mut tally: Vec<(u32, u32)> = Vec::new();
            let mut t: usize = 0;
            while t < self.tables
                invariant
                    t <= self.tables,
                    q < nq,
                    hlen == hashes@.len(),
                    self.wf(),
                    v == self@,
                    v.wf(),
                    nq * v.tables as int <= hlen,
                    (q as int + 1) * v.tables as int <= nq * v.tables as int,
                    q as int * v.tables as int + v.tables as int == (q as int + 1) * v.tables as int,
                    forall|i: int| 0 <= i < hashes@.len() ==> (hashes@[i] as int) < v.rows,
                    v.tables * v.reservoir <= u32::MAX,
                    qh == hashes@.subrange(
                        q as int * v.tables as int,
                        (q as int + 1) * v.tables as int,
                    ),
                    tally@ == v.tally_tables(qh, t as int),
                decreases self.tables - t,
            {
                proof {
                    v.lemma_tally_tables_bounds(qh, t as int);
                    assert(t * v.reservoir as int + v.reservoir as int <= v.tables as int
                        * v.reservoir as int) by (nonlinear_arith)
                        requires
                            0 <= t < v.tables,
                            v.reservoir >= 1,
                    ;
                }
                let h = hashes[q * self.tables + t] as usize;
                let dlen = self.data.len();
                proof {
                    assert(qh[t as int] == hashes@[q as int * v.tables as int + t]);
                    v.lemma_slot_pos(t as int, h as int, 0);
                    assert(t * self.table_size <= v.row_base(t as int, h as int) && h
                        * self.row_size <= v.row_base(t as int, h as int)) by (nonlinear_arith)
                        requires
                            t >= 0,
                            h >= 0,
                            self.table_size >= 0,
                            self.row_size >= 1,
                            v.row_base(t as int, h as int) == t * self.table_size + h
                                * self.row_size,
                    ;
                    assert(v.row_base(t as int, h as int) + v.row_size() <= dlen);
                }
                let offset = t * self.table_size + h * self.row_size;
                let cword = self.data.get(offset);
                let m = if (cword as usize) < self.reservoir_size {
                    cword as usize
                } else {
                    self.reservoir_size
                };
                proof {
                    assert(m == v.row_take(t as int, h as int));
                }
                let ghost prev_tally = tally@;
                let ghost bound0 = t as int * v.reservoir as int;
                let mut i: usize = 1;
                while i <= m
                    invariant
                        1 <= i <= m + 1,
                        m <= self.reservoir_size,
                        self.wf(),
                        v == self@,
                        v.wf(),
                        v.tables * v.reservoir <= u32::MAX,
                        0 <= t < v.tables,
                        0 <= (h as int) < v.rows,
                        m == v.row_take(t as int, h as int),
                        offset == v.row_base(t as int, h as int),
                        dlen == self.data@.len(),
                        offset + v.row_size() <= dlen,
                        bound0 == t as int * v.reservoir as int,
                        bound0 + v.reservoir as int <= v.tables as int * v.reservoir as int,
                        prev_tally == v.tally_tables(qh, t as int),
                        prev_tally.len() <= bound0,
                        forall|j: int|
                            0 <= j < prev_tally.len() ==> ((#[trigger] prev_tally[j]).1 as int)
                                <= bound0,
                        tally@ == v.tally_row(prev_tally, t as int, h as int, i as int - 1),
                    decreases m + 1 - i,
                {
                    proof {
                        v.lemma_tally_row_bounds(
                            prev_tally,
                            t as int,
                            h as int,
                            i as int - 1,
                            bound0,
                        );
                        v.lemma_slot_pos(t as int, h as int, i as int);
                    }
                    let id = self.data.get(offset + i);
                    proof {
                        assert(id == v.slot(t as int, h as int, i as int));
                    }
                    let p = find_entry(&tally, id);
                    if p < tally.len() {
                        let c = tally[p].1;
                        proof {
                            assert((c as int) <= bound0 + i - 1);
                        }
                        tally[p] = (id, c + 1);
                    } else {
                        tally.push((id, 1));
                    }
                    proof {
                        assert(tally@ =~= bump(
                            v.tally_row(prev_tally, t as int, h as int, i as int - 1),
                            id,
                        ));
                    }
                    i = i + 1;
                }
                proof {
                    assert(tally@ == v.tally_row(prev_tally, t as int, h as int, m as int));
                    assert(tally@ == v.tally_tables(qh, t as int + 1));
                }
                t = t + 1;
            }
            proof {
                v.lemma_tally_tables_bounds(qh, v.tables as int);
            }
            let mut sorted: Vec<(u32, u32)> = Vec::new();
            let tlen = tally.len();
            let mut e: usize = 0;
            while e < tlen
                invariant
                    e <= tlen,
                    tlen == tally@.len(),
                    sorted@ == sort_desc(tally@.take(e as int)),
                    sorted@.len() == e,
                decreases tlen - e,
            {
                let x = tally[e];
                let p = insert_pos(&sorted, x.1);
                proof {
                    lemma_insort_at(sorted@, x, p as int);
                    lemma_insort_len(sorted@, x);
                    assert(tally@.take(e as int + 1).drop_last() =~= tally@.take(e as int));
                    assert(tally@.take(e as int + 1).last() == tally@[e as int]);
                }
                sorted.insert(p, x);
                e = e + 1;
            }
            proof {
                assert(tally@.take(tlen as int) =~= tally@);
                assert(sorted@ == sort_desc(v.tally_tables(qh, v.tables as int)));
                assert(sorted@.len() <= v.tables as int * v.reservoir as int);
            }
            let num = if sorted.len() < k {
                sorted.len()
            } else {
                k
            };
            let start = q * stride;
            let ghost result_pre = result@;
            result.set(start, num as u32);
            let ghost result_mid = result@;
            let mut w: usize = 0;
            while w < num
                invariant
                    w <= num,
                    num <= k,
                    num <= sorted@.len(),
                    stride == k + 1,
                    q < nq,
                    total == nq * stride,
                    start == q * stride,
                    start + stride <= total,
                    result@.len() == total,
                    forall|p: int| 0 <= p < total && !(start < p <= start + w) ==> result@[p]
                        == result_mid[p],
                    forall|j: int| 0 <= j < w ==> result@[start + 1 + j] == (#[trigger] sorted@[j]).0,
                decreases num - w,
            {
                result.set(start + 1 + w, sorted[w].0);
                w = w + 1;
            }
            proof {
                let sorted_spec = sort_desc(v.tally_tables(qh, v.tables as int));
                let block = query_block(sorted_spec, k as int);
                let st = start as int;
                let sd = stride as int;
                assert(block.len() == sd);
                assert forall|i: int| 0 <= i < sd implies result@[st + i] == block[i] by {
                    if i == 0 {
                        assert(result@[st] == result_mid[st]);
                    } else if i <= num {
                        assert(result@[st + i] == sorted@[i - 1].0);
                    } else {
                        assert(result@[st + i] == result_mid[st + i]);
                        assert(result_mid[st + i] == result_pre[st + i]);
                        assert(result_pre[st + i] == 0u32);
                    }
                }
                assert(result@.subrange(st, st + sd) =~= block);
                assert forall|p: int| 0 <= p < st implies result@[p] == result_pre[p] by {
                    assert(result@[p] == result_mid[p]);
                    assert(result_mid[p] == result_pre[p]);
                }
                assert(result@.subrange(0, st) =~= result_pre.subrange(0, st));
                v.lemma_spec_query_len(hashes@, k as int, q as int);
                assert(v.spec_query(hashes@, k as int, q as int + 1) == v.spec_query(
                    hashes@,
                    k as int,
                    q as int,
                ) + block);
                assert(result@.subrange(0, (q as int + 1) * sd) =~= v.spec_query(
                    hashes@,
                    k as int,
                    q as int,
                ) + block);
                assert forall|p: int| (q + 1) * stride <= p < total implies result@[p]
                    == 0u32 by {
                    assert(result@[p] == result_mid[p]);
                    assert(result_mid[p] == result_pre[p]);
                }
                assert forall|qq: int|
                    0 <= qq < q + 1 implies #[trigger] block_count_at(result@, k as int, qq)
                    <= k by {
                    assert(qq * sd + sd <= (q + 1) * sd && qq * sd >= 0 && (qq < q ==> qq * sd + sd
                        <= q * sd) && (qq == q ==> qq * sd == q * sd)) by (nonlinear_arith)
                        requires
                            0 <= qq <= q,
                            sd >= 1,
                    ;
                    if qq < q {
                        assert(result@[qq * sd] == result_mid[qq * sd]);
                        assert(result_mid[qq * sd] == result_pre[qq * sd]);
                        assert(block_count_at(result_pre, k as int, qq) <= k);
                    } else {
                        assert(result@[qq * sd] == result_mid[qq * sd]);
                        assert(result@[qq * sd] == num as u32);
                    }
                }
            }
            q = q + 1;
        }
        proof {
            assert(result@.subrange(0, total as int) =~= result@);
            v.lemma_spec_query_len(hashes@, k as int, nq as int);
        }
        QueryResult::new(result, nq, k)
    }

    /// Read-only access to the flat ID buffer.
    pub fn buffer(&self) -> (r: &HeapAllocatedArray<IDType>)
        ensures
            r@ == self@.buf,
    {
        &self.data
    }

    /// Replaces the reservoir decision table, so that sampling decisions can
    /// be fixed in advance.
    pub fn override_rand_values(&mut self, vals: &[usize])
        requires
            old(self).wf(),
            vals@.len() == old(self)@.rv.len(),
        ensures
            final(self).wf(),
            final(self)@ == (LSHView { rv: vals@, ..old(self)@ }),
    {
        let n = self.rand_values.len();
        let mut i: usize = 0;
        while i < n
            invariant
                i <= n,
                self.rand_values@.len() == n,
                n == vals@.len(),
                forall|j: int| 0 <= j < i ==> self.rand_values@[j] == vals@[j],
                forall|j: int| i <= j < n ==> self.rand_values@[j] == old(self).rand_values@[j],
                self.data == old(self).data,
                self.tables == old(self).tables,
                self.rows == old(self).rows,
                self.reservoir_size == old(self).reservoir_size,
                self.row_size == old(self).row_size,
                self.table_size == old(self).table_size,
            decreases n - i,
        {
            self.rand_values.set(i, vals[i]);
            i = i + 1;
        }
        proof {
            assert(self.rand_values@ =~= vals@);
        }
    }
}

} // verus!

