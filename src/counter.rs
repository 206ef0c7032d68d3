use vstd::prelude::*;

use crate::bigint::{ibig_add, ibig_mul_usize, ibig_sub, BigInteger};
use crate::combinatorics::{within, within_sum};
use crate::database::WordDb;

verus! {

/// Number of word sequences, of any number of words, whose lengths add up to exactly
/// `x`, where `n(k)` words have length `k`.
pub open spec fn reachable(n: spec_fn(int) -> nat, x: nat) -> int
    decreases x, x + 1,
{
    if x == 0 {
        1
    } else {
        reachable_sum(n, x, x)
    }
}

/// `n(1) * reachable(x - 1) + ... + n(m) * reachable(x - m)`.
pub open spec fn reachable_sum(n: spec_fn(int) -> nat, x: nat, m: nat) -> int
    decreases x, m,
{
    if m == 0 || m > x {
        0
    } else {
        reachable_sum(n, x, (m - 1) as nat) + n(m as int) * reachable(n, (x - m) as nat)
    }
}

/// The correction term: `reachable(x) - 1` at depth 0, and
/// `n(1) * unreachable_count(x, d - 1) + ... + n(x) * unreachable_count(1, d - 1)` at depth `d > 0`.
pub open spec fn unreachable_count(n: spec_fn(int) -> nat, x: nat, d: nat) -> int
    decreases d, 1nat, x,
{
    if d == 0 {
        reachable(n, x) - 1
    } else {
        unreachable_count_sum(n, x, d, x)
    }
}

/// `n(1) * unreachable_count(x, d - 1) + ... + n(m) * unreachable_count(x - m + 1, d - 1)`.
pub open spec fn unreachable_count_sum(n: spec_fn(int) -> nat, x: nat, d: nat, m: nat) -> int
    decreases d, 0nat, m,
{
    if d == 0 || m == 0 || m > x {
        0
    } else {
        unreachable_count_sum(n, x, d, (m - 1) as nat) + n(m as int) * unreachable_count(
            n,
            (x - m + 1) as nat,
            (d - 1) as nat,
        )
    }
}

/// The number of variations of `depth` words within `max_length` bytes:
/// `reachable(L) - unreachable_count(max(L - D, 0), D)`.
pub open spec fn variations(n: spec_fn(int) -> nat, max_length: nat, depth: nat) -> int {
    reachable(n, max_length) - unreachable_count(
        n,
        if max_length >= depth {
            (max_length - depth) as nat
        } else {
            0
        },
        depth,
    )
}

/// Every entry of `earlier` is kept, unchanged, at the start of `later`.
pub closed spec fn entries_kept(later: Seq<BigInteger>, earlier: Seq<BigInteger>) -> bool {
    &&& earlier.len() <= later.len()
    &&& forall|i: int| 0 <= i < earlier.len() ==> later[i] == #[trigger] earlier[i]
}

/// Every row of `earlier` is kept in `later`, with all its entries unchanged.
pub closed spec fn rows_kept(later: Seq<Vec<BigInteger>>, earlier: Seq<Vec<BigInteger>>) -> bool {
    &&& earlier.len() <= later.len()
    &&& forall|d: int| 0 <= d < earlier.len() ==> entries_kept(later[d]@, #[trigger] earlier[d]@)
}

proof fn lemma_entries_kept_trans(a: Seq<BigInteger>, b: Seq<BigInteger>, c: Seq<BigInteger>)
    requires
        entries_kept(a, b),
        entries_kept(b, c),
    ensures
        entries_kept(a, c),
{
}

proof fn lemma_rows_kept_trans(
    a: Seq<Vec<BigInteger>>,
    b: Seq<Vec<BigInteger>>,
    c: Seq<Vec<BigInteger>>,
)
    requires
        rows_kept(a, b),
        rows_kept(b, c),
    ensures
        rows_kept(a, c),
{
    assert forall|d: int| 0 <= d < c.len() implies entries_kept(a[d]@, #[trigger] c[d]@) by {
        lemma_entries_kept_trans(a[d]@, b[d]@, c[d]@);
    }
}

/// Counts word sequences over a word database, keeping every value it computes.
pub struct Algorithm {
    word_db: WordDb,
    /// `reachable_memo[x]` is `reachable(x)`.
    reachable_memo: Vec<BigInteger>,
    /// `unreachable_memo[d][x]` is `unreachable_count(x, d)`.
    unreachable_memo: Vec<Vec<BigInteger>>,
    /// `within_memo[d][x]` is `within(x, d)`.
    within_memo: Vec<Vec<BigInteger>>,
}

impl Algorithm {
    /// Number of words of each length in the database.
    pub open spec fn sizes(&self) -> spec_fn(int) -> nat {
        |k: int| self.db().group(k).len()
    }

    /// The database that the counts are taken over.
    pub closed spec fn db(&self) -> WordDb {
        self.word_db
    }

    /// Number of lengths, from 0 up, whose `reachable` value is kept.
    pub closed spec fn reachable_known(&self) -> nat {
        self.reachable_memo@.len()
    }

    /// Number of lengths, from 0 up, whose `unreachable_count` value at depth `d` is kept.
    pub closed spec fn unreachable_known(&self, d: int) -> nat {
        if 0 <= d < self.unreachable_memo@.len() {
            self.unreachable_memo@[d]@.len()
        } else {
            0
        }
    }

    /// Number of lengths, from 0 up, whose `within` value at depth `d` is kept.
    pub closed spec fn within_known(&self, d: int) -> nat {
        if 0 <= d < self.within_memo@.len() {
            self.within_memo@[d]@.len()
        } else {
            0
        }
    }

    /// Same database, and every value kept by `earlier` is still kept, unchanged.
    pub closed spec fn keeps(&self, earlier: Algorithm) -> bool {
        &&& self.word_db == earlier.word_db
        &&& entries_kept(self.reachable_memo@, earlier.reachable_memo@)
        &&& rows_kept(self.unreachable_memo@, earlier.unreachable_memo@)
        &&& rows_kept(self.within_memo@, earlier.within_memo@)
    }

    /// The two counters keep the same `unreachable_count` and `within` values.
    pub closed spec fn same_rows(&self, other: Algorithm) -> bool {
        &&& self.unreachable_memo == other.unreachable_memo
        &&& self.within_memo == other.within_memo
    }

    /// The two counters keep exactly the same values.
    pub open spec fn same_tables(&self, other: Algorithm) -> bool {
        self.keeps(other) && other.keeps(*self)
    }

    /// Every kept value is the value of its recurrence.
    pub closed spec fn wf(&self) -> bool {
        &&& forall|x: int|
            0 <= x < self.reachable_memo@.len() ==> (#[trigger] self.reachable_memo@[x])@
                == reachable(self.sizes(), x as nat)
        &&& forall|d: int, x: int|
            0 <= d < self.unreachable_memo@.len() && 0 <= x < self.unreachable_memo@[d]@.len()
                ==> (#[trigger] self.unreachable_memo@[d]@[x])@ == unreachable_count(
                self.sizes(),
                x as nat,
                d as nat,
            )
        &&& forall|d: int, x: int|
            0 <= d < self.within_memo@.len() && 0 <= x < self.within_memo@[d]@.len()
                ==> (#[trigger] self.within_memo@[d]@[x])@ == within(
                self.sizes(),
                x as nat,
                d as nat,
            )
    }

    /// Keeping values is transitive.
    pub proof fn lemma_keeps_trans(a: Algorithm, b: Algorithm, c: Algorithm)
        requires
            a.keeps(b),
            b.keeps(c),
        ensures
            a.keeps(c),
    {
        lemma_entries_kept_trans(a.reachable_memo@, b.reachable_memo@, c.reachable_memo@);
        lemma_rows_kept_trans(a.unreachable_memo@, b.unreachable_memo@, c.unreachable_memo@);
        lemma_rows_kept_trans(a.within_memo@, b.within_memo@, c.within_memo@);
    }

    /// Every counter keeps its own values.
    pub proof fn lemma_keeps_refl(a: Algorithm)
        ensures
            a.keeps(a),
    {
    }

    /// Counters that keep the same values know the same lengths.
    pub proof fn lemma_same_tables_known(a: Algorithm, b: Algorithm)
        requires
            a.same_tables(b),
        ensures
            a.reachable_known() == b.reachable_known(),
            forall|e: int|
                #[trigger] a.within_known(e) == b.within_known(e) && a.unreachable_known(e)
                    == b.unreachable_known(e),
    {
        assert forall|e: int|
            #[trigger] a.within_known(e) == b.within_known(e) && a.unreachable_known(e)
                == b.unreachable_known(e) by {
            if 0 <= e < a.within_memo@.len() {
                assert(entries_kept(a.within_memo@[e]@, b.within_memo@[e]@));
                assert(entries_kept(b.within_memo@[e]@, a.within_memo@[e]@));
            }
            if 0 <= e < a.unreachable_memo@.len() {
                assert(entries_kept(a.unreachable_memo@[e]@, b.unreachable_memo@[e]@));
                assert(entries_kept(b.unreachable_memo@[e]@, a.unreachable_memo@[e]@));
            }
        }
    }

    /// A counter over `word_db` that keeps no value yet.
    pub fn new(word_db: WordDb) -> (r: Algorithm)
        ensures
            r.wf(),
            r.db() == word_db,
            r.reachable_known() == 0,
            forall|d: int| r.unreachable_known(d) == 0 && r.within_known(d) == 0,
    {
        Algorithm {
            word_db,
            reachable_memo: Vec::new(),
            unreachable_memo: Vec::new(),
            within_memo: Vec::new(),
        }
    }

    /// The database itself.
    pub fn word_db(&self) -> (r: &WordDb)
        ensures
            *r == self.db(),
    {
        &self.word_db
    }

    /// `reachable(max_length)`, computing and keeping the values from the bottom up; a
    /// value that is kept already is read, never computed again.
    pub fn variations_for_length(&mut self, max_length: usize) -> (r: BigInteger)
        requires
            old(self).wf(),
        ensures
            final(self).wf(),
            final(self).db() == old(self).db(),
            r@ == reachable(old(self).sizes(), max_length as nat),
            final(self).keeps(*old(self)),
            final(self).reachable_known() > max_length,
            old(self).reachable_known() > max_length ==> final(self).same_tables(*old(self)),
            final(self).same_rows(*old(self)),
    {
        while self.reachable_memo.len() <= max_length
            invariant
                self.wf(),
                self.db() == old(self).db(),
                self.word_db == old(self).word_db,
                entries_kept(self.reachable_memo@, old(self).reachable_memo@),
                old(self).reachable_memo@.len() > max_length ==> self.reachable_memo@
                    == old(self).reachable_memo@,
                self.unreachable_memo == old(self).unreachable_memo,
                self.within_memo == old(self).within_memo,
            decreases max_length + 1 - self.reachable_memo@.len(),
        {
            let x = self.reachable_memo.len();
            let value = if x == 0 {
                BigInteger::from_usize(1)
            } else {
                let mut sum = BigInteger::zero();
                for k in 0..x
                    invariant
                        self.wf(),
                        x == self.reachable_memo@.len(),
                        x > 0,
                        sum@ == reachable_sum(self.sizes(), x as nat, k as nat),
                {
                    let n_k = self.word_db.group_size(k + 1);
                    let term = ibig_mul_usize(&self.reachable_memo[x - (k + 1)], n_k);
                    assert(n_k == (self.sizes())((k + 1) as int));
                    let ghost prev = self.reachable_memo@[(x - (k + 1)) as int]@;
                    assert(prev == reachable(self.sizes(), (x - (k + 1)) as nat));
                    assert(prev * n_k == n_k * prev) by (nonlinear_arith);
                    sum = ibig_add(&sum, &term);
                }
                sum
            };
            self.reachable_memo.push(value);
        }
        self.reachable_memo[max_length].clone()
    }

    /// Keeps `unreachable_count(x, d)` for every `x` up to `max_length`, computing only the
    /// values not kept yet.
    fn extend_row(&mut self, d: usize, max_length: usize)
        requires
            old(self).wf(),
            d <= old(self).unreachable_memo@.len(),
            old(self).reachable_memo@.len() > max_length,
            d > 0 ==> old(self).unreachable_memo@[d - 1]@.len() > max_length,
        ensures
            final(self).wf(),
            final(self).keeps(*old(self)),
            final(self).reachable_memo == old(self).reachable_memo,
            final(self).within_memo == old(self).within_memo,
            final(self).unreachable_memo@.len() == if d == old(self).unreachable_memo@.len() {
                d + 1
            } else {
                old(self).unreachable_memo@.len() as int
            },
            final(self).unreachable_memo@[d as int]@.len() > max_length,
            forall|e: int|
                0 <= e < old(self).unreachable_memo@.len() && e != d ==> (
                #[trigger] final(self).unreachable_memo@[e])@.len()
                    == old(self).unreachable_memo@[e]@.len(),
            old(self).unreachable_known(d as int) > max_length ==> final(self).same_tables(
                *old(self),
            ),
    {
        if d == self.unreachable_memo.len() {
            self.unreachable_memo.push(Vec::new());
        }
        let ghost covered = old(self).unreachable_known(d as int) > max_length;
        let ghost rows_before = self.unreachable_memo@;
        assert(covered ==> rows_before == old(self).unreachable_memo@);
        let mut row: Vec<BigInteger> = Vec::new();
        self.unreachable_memo.set_and_swap(d, &mut row);
        let ghost row_before = row@;
        let ghost row_value = row;
        while row.len() <= max_length
            invariant
                covered ==> row == row_value,
                row_value == rows_before[d as int],
                covered ==> row_value@.len() > max_length,
                self.wf(),
                self.word_db == old(self).word_db,
                self.reachable_memo == old(self).reachable_memo,
                self.within_memo == old(self).within_memo,
                self.reachable_memo@.len() > max_length,
                self.unreachable_memo@.len() == rows_before.len(),
                d < self.unreachable_memo@.len(),
                self.unreachable_memo@[d as int]@.len() == 0,
                forall|e: int|
                    0 <= e < rows_before.len() && e != d ==> #[trigger] self.unreachable_memo@[e]
                        == rows_before[e],
                d > 0 ==> self.unreachable_memo@[d - 1]@.len() > max_length,
                entries_kept(row@, row_before),
                forall|x: int|
                    0 <= x < row@.len() ==> (#[trigger] row@[x])@ == unreachable_count(
                        self.sizes(),
                        x as nat,
                        d as nat,
                    ),
            decreases max_length + 1 - row@.len(),
        {
            let x = row.len();
            let value = if d == 0 {
                let one = BigInteger::from_usize(1);
                ibig_sub(&self.reachable_memo[x], &one)
            } else {
                let mut sum = BigInteger::zero();
                for k in 0..x
                    invariant
                        self.wf(),
                        x <= max_length,
                        d > 0,
                        d < self.unreachable_memo@.len(),
                        self.unreachable_memo@[d - 1]@.len() > max_length,
                        sum@ == unreachable_count_sum(self.sizes(), x as nat, d as nat, k as nat),
                {
                    let n_k = self.word_db.group_size(k + 1);
                    let term = ibig_mul_usize(&self.unreachable_memo[d - 1][x - k], n_k);
                    let ghost prev = self.unreachable_memo@[d - 1]@[(x - k) as int]@;
                    assert(prev == unreachable_count(self.sizes(), (x - (k + 1) + 1) as nat, (d - 1) as nat));
                    assert(n_k == (self.sizes())((k + 1) as int));
                    assert(prev * n_k == n_k * prev) by (nonlinear_arith);
                    sum = ibig_add(&sum, &term);
                }
                sum
            };
            row.push(value);
        }
        self.unreachable_memo.set_and_swap(d, &mut row);
        proof {
            let rows = self.unreachable_memo@;
            let old_rows = old(self).unreachable_memo@;
            assert forall|e: int| 0 <= e < old_rows.len() implies entries_kept(rows[e]@, #[trigger] old_rows[e]@) by {
                if e != d {
                    assert(rows[e] == old_rows[e]);
                }
            }
            if covered {
                assert(rows =~= old_rows);
            }
        }
    }

    /// Keeps `within(x, d)` for every `x` up to `max_length`, computing only the values not
    /// kept yet.
    fn extend_within_row(&mut self, d: usize, max_length: usize)
        requires
            old(self).wf(),
            d <= old(self).within_memo@.len(),
            d > 0 ==> old(self).within_memo@[d - 1]@.len() > max_length,
        ensures
            final(self).wf(),
            final(self).keeps(*old(self)),
            final(self).reachable_memo == old(self).reachable_memo,
            final(self).unreachable_memo == old(self).unreachable_memo,
            final(self).within_memo@.len() == if d == old(self).within_memo@.len() {
                d + 1
            } else {
                old(self).within_memo@.len() as int
            },
            final(self).within_memo@[d as int]@.len() > max_length,
            forall|e: int|
                0 <= e < old(self).within_memo@.len() && e != d ==> (
                #[trigger] final(self).within_memo@[e])@.len() == old(self).within_memo@[e]@.len(),
            old(self).within_known(d as int) > max_length ==> final(self).same_tables(*old(self)),
    {
        if d == self.within_memo.len() {
            self.within_memo.push(Vec::new());
        }
        let ghost covered = old(self).within_known(d as int) > max_length;
        let ghost rows_before = self.within_memo@;
        assert(covered ==> rows_before == old(self).within_memo@);
        let mut row: Vec<BigInteger> = Vec::new();
        self.within_memo.set_and_swap(d, &mut row);
        let ghost row_before = row@;
        let ghost row_value = row;
        while row.len() <= max_length
            invariant
                covered ==> row == row_value,
                row_value == rows_before[d as int],
                covered ==> row_value@.len() > max_length,
                self.wf(),
                self.word_db == old(self).word_db,
                self.reachable_memo == old(self).reachable_memo,
                self.unreachable_memo == old(self).unreachable_memo,
                self.within_memo@.len() == rows_before.len(),
                d < self.within_memo@.len(),
                self.within_memo@[d as int]@.len() == 0,
                forall|e: int|
                    0 <= e < rows_before.len() && e != d ==> #[trigger] self.within_memo@[e]
                        == rows_before[e],
                d > 0 ==> self.within_memo@[d - 1]@.len() > max_length,
                entries_kept(row@, row_before),
                forall|x: int|
                    0 <= x < row@.len() ==> (#[trigger] row@[x])@ == within(
                        self.sizes(),
                        x as nat,
                        d as nat,
                    ),
            decreases max_length + 1 - row@.len(),
        {
            let x = row.len();
            let value = if d == 0 {
                BigInteger::from_usize(1)
            } else {
                let mut sum = BigInteger::zero();
                for k in 0..x
                    invariant
                        self.wf(),
                        x <= max_length,
                        d > 0,
                        d < self.within_memo@.len(),
                        self.within_memo@[d - 1]@.len() > max_length,
                        sum@ == within_sum(self.sizes(), x as nat, d as nat, k as nat),
                {
                    let n_k = self.word_db.group_size(k + 1);
                    let term = ibig_mul_usize(&self.within_memo[d - 1][x - (k + 1)], n_k);
                    let ghost prev = self.within_memo@[d - 1]@[(x - (k + 1)) as int]@;
                    assert(prev == within(self.sizes(), (x - (k + 1)) as nat, (d - 1) as nat));
                    assert(n_k == (self.sizes())((k + 1) as int));
                    assert(prev * n_k == n_k * prev) by (nonlinear_arith);
                    sum = ibig_add(&sum, &term);
                }
                sum
            };
            row.push(value);
        }
        self.within_memo.set_and_swap(d, &mut row);
        proof {
            let rows = self.within_memo@;
            let old_rows = old(self).within_memo@;
            assert forall|e: int| 0 <= e < old_rows.len() implies entries_kept(rows[e]@, #[trigger] old_rows[e]@) by {
                if e != d {
                    assert(rows[e] == old_rows[e]);
                }
            }
            if covered {
                assert(rows =~= old_rows);
            }
        }
    }

    /// `unreachable_count(max_length, depth)`, computing and keeping the values from the
    /// bottom up: `reachable` up to `max_length`, and `unreachable_count` for all lengths up to
    /// `max_length` at every depth up to `depth`. Values kept already are read, never
    /// computed again.
    pub fn unreachable_variations_at_depth(&mut self, max_length: usize, depth: usize) -> (r:
        BigInteger)
        requires
            old(self).wf(),
        ensures
            final(self).wf(),
            final(self).db() == old(self).db(),
            r@ == unreachable_count(old(self).sizes(), max_length as nat, depth as nat),
            final(self).keeps(*old(self)),
            final(self).reachable_known() > max_length,
            forall|e: int| 0 <= e <= depth ==> #[trigger] final(self).unreachable_known(e) > max_length,
            forall|e: int| #[trigger] final(self).within_known(e) == old(self).within_known(e),
            old(self).reachable_known() > max_length && (forall|e: int|
                0 <= e <= depth ==> #[trigger] old(self).unreachable_known(e) > max_length)
                ==> final(self).same_tables(*old(self)),
    {
        let ghost covered = old(self).reachable_known() > max_length && (forall|e: int|
            0 <= e <= depth ==> #[trigger] old(self).unreachable_known(e) > max_length);
        self.variations_for_length(max_length);
        for d in 0..depth
            invariant
                covered == (old(self).reachable_known() > max_length && (forall|e: int|
                    0 <= e <= depth ==> #[trigger] old(self).unreachable_known(e) > max_length)),
                self.wf(),
                self.db() == old(self).db(),
                self.keeps(*old(self)),
                self.within_memo == old(self).within_memo,
                self.reachable_memo@.len() > max_length,
                self.unreachable_memo@.len() >= d,
                forall|e: int| 0 <= e < d ==> (#[trigger] self.unreachable_memo@[e])@.len() > max_length,
                covered ==> self.same_tables(*old(self)),
                covered ==> self.unreachable_memo@.len() == old(self).unreachable_memo@.len(),
                covered ==> forall|e: int|
                    0 <= e < self.unreachable_memo@.len() ==> (#[trigger] self.unreachable_memo@[e])@.len()
                        == old(self).unreachable_memo@[e]@.len(),
        {
            let ghost before = *self;
            self.extend_row(d, max_length);
            proof {
                Self::lemma_keeps_trans(*self, before, *old(self));
                if covered {
                    assert(old(self).unreachable_known(d as int) > max_length);
                    Self::lemma_keeps_trans(before, *self, *old(self));
                    Self::lemma_keeps_trans(*old(self), before, *self);
                }
            }
        }
        let ghost before = *self;
        self.extend_row(depth, max_length);
        proof {
            Self::lemma_keeps_trans(*self, before, *old(self));
            if covered {
                assert(old(self).unreachable_known(depth as int) > max_length);
                Self::lemma_keeps_trans(*old(self), before, *self);
            }
        }
        self.unreachable_memo[depth][max_length].clone()
    }

    /// `within(max_length, depth)`, the number of `depth`-word sequences of at most
    /// `max_length` bytes, computing and keeping the values for all lengths up to
    /// `max_length` at every depth up to `depth`. Values kept already are read, never
    /// computed again.
    pub fn sequences_within(&mut self, max_length: usize, depth: usize) -> (r: BigInteger)
        requires
            old(self).wf(),
        ensures
            final(self).wf(),
            final(self).db() == old(self).db(),
            r@ == within(old(self).sizes(), max_length as nat, depth as nat),
            final(self).keeps(*old(self)),
            forall|e: int| 0 <= e <= depth ==> #[trigger] final(self).within_known(e) > max_length,
            final(self).reachable_known() == old(self).reachable_known(),
            forall|e: int| #[trigger] final(self).unreachable_known(e) == old(self).unreachable_known(e),
            (forall|e: int| 0 <= e <= depth ==> #[trigger] old(self).within_known(e) > max_length)
                ==> final(self).same_tables(*old(self)),
    {
        let ghost covered = forall|e: int|
            0 <= e <= depth ==> #[trigger] old(self).within_known(e) > max_length;
        for d in 0..depth
            invariant
                covered == (forall|e: int|
                    0 <= e <= depth ==> #[trigger] old(self).within_known(e) > max_length),
                self.wf(),
                self.db() == old(self).db(),
                self.keeps(*old(self)),
                self.reachable_memo == old(self).reachable_memo,
                self.unreachable_memo == old(self).unreachable_memo,
                self.within_memo@.len() >= d,
                forall|e: int| 0 <= e < d ==> (#[trigger] self.within_memo@[e])@.len() > max_length,
                covered ==> self.same_tables(*old(self)),
                covered ==> self.within_memo@.len() == old(self).within_memo@.len(),
                covered ==> forall|e: int|
                    0 <= e < self.within_memo@.len() ==> (#[trigger] self.within_memo@[e])@.len()
                        == old(self).within_memo@[e]@.len(),
        {
            let ghost before = *self;
            self.extend_within_row(d, max_length);
            proof {
                Self::lemma_keeps_trans(*self, before, *old(self));
                if covered {
                    assert(old(self).within_known(d as int) > max_length);
                    Self::lemma_keeps_trans(*old(self), before, *self);
                }
            }
        }
        let ghost before = *self;
        self.extend_within_row(depth, max_length);
        proof {
            Self::lemma_keeps_trans(*self, before, *old(self));
            if covered {
                assert(old(self).within_known(depth as int) > max_length);
                Self::lemma_keeps_trans(*old(self), before, *self);
            }
        }
        self.within_memo[depth][max_length].clone()
    }

    /// The number of variations of `depth` words within `max_length` bytes. Afterwards the
    /// values for every shorter bound and smaller depth are kept, and a call whose values
    /// are kept already adds no entry.
    pub fn variations_for_length_and_depth(&mut self, max_length: usize, depth: usize) -> (r:
        BigInteger)
        requires
            old(self).wf(),
        ensures
            final(self).wf(),
            final(self).db() == old(self).db(),
            r@ == variations(old(self).sizes(), max_length as nat, depth as nat),
            r@ >= 0,
            final(self).keeps(*old(self)),
            final(self).reachable_known() > max_length,
            forall|e: int|
                0 <= e <= depth ==> #[trigger] final(self).unreachable_known(e) > (
                if max_length >= depth {
                    max_length - depth
                } else {
                    0
                }),
            forall|e: int| #[trigger] final(self).within_known(e) == old(self).within_known(e),
            old(self).reachable_known() > max_length && (forall|e: int|
                0 <= e <= depth ==> #[trigger] old(self).unreachable_known(e) > (if max_length
                    >= depth {
                    max_length - depth
                } else {
                    0
                })) ==> final(self).same_tables(*old(self)),
    {
        proof {
            crate::combinatorics::lemma_variations_nonnegative(
                self.sizes(),
                max_length as nat,
                depth as nat,
            );
        }
        let f_x = self.variations_for_length(max_length);
        let ghost middle = *self;
        let rest = if max_length >= depth {
            max_length - depth
        } else {
            0
        };
        let g = self.unreachable_variations_at_depth(rest, depth);
        proof {
            Self::lemma_keeps_trans(*self, middle, *old(self));
            if old(self).reachable_known() > max_length && (forall|e: int|
                0 <= e <= depth ==> #[trigger] old(self).unreachable_known(e) > rest) {
                assert(middle.same_tables(*old(self)));
                assert(forall|e: int| 0 <= e <= depth ==> #[trigger] middle.unreachable_known(e) == old(self).unreachable_known(e));
                Self::lemma_keeps_trans(*old(self), middle, *self);
            }
        }
        ibig_sub(&f_x, &g)
    }
}

} // verus!
