//! The sparse count matrix: one row per feature, each row a list of
//! `(column, count)` pairs with distinct columns and strictly positive
//! counts. An absent column means a count of zero. Counts saturate at the
//! largest 32-bit value instead of wrapping.

use vstd::prelude::*;
use vstd::pervasive::VecAdditionalExecFns;

verus! {

/// `v + 1`, capped at the largest 32-bit count.
pub open spec fn sat_inc(v: nat) -> nat {
    if v + 1 <= u32::MAX {
        (v + 1) as nat
    } else {
        u32::MAX as nat
    }
}

/// `v + k`, capped at the largest 32-bit count.
pub open spec fn sat_add(v: nat, k: nat) -> nat {
    if v + k <= u32::MAX {
        (v + k) as nat
    } else {
        u32::MAX as nat
    }
}

/// Saturating additions compose.
pub proof fn lemma_sat_add_assoc(v: nat, a: nat, b: nat)
    ensures
        sat_add(sat_add(v, a), b) == sat_add(v, a + b),
{
}

/// A well-formed row: distinct columns, every stored count positive.
pub open spec fn row_wf(r: Seq<(usize, u32)>) -> bool {
    &&& forall|i: int, j: int| 0 <= i < j < r.len() ==> r[i].0 != r[j].0
    &&& forall|i: int| 0 <= i < r.len() ==> (#[trigger] r[i]).1 >= 1
}

/// The count a row holds for column `c`; zero when the column is absent.
pub open spec fn row_val(r: Seq<(usize, u32)>, c: int) -> nat
    decreases r.len(),
{
    if r.len() == 0 {
        0
    } else if r[0].0 == c {
        r[0].1 as nat
    } else {
        row_val(r.drop_first(), c)
    }
}

/// A row's count always fits in 32 bits.
pub broadcast proof fn lemma_row_val_bound(r: Seq<(usize, u32)>, c: int)
    ensures
        #[trigger] row_val(r, c) <= u32::MAX,
    decreases r.len(),
{
    if r.len() > 0 && r[0].0 != c {
        lemma_row_val_bound(r.drop_first(), c);
    }
}

/// The count held at feature `f`, column `c` of a row sequence; zero when
/// the feature is out of range or the column absent.
pub open spec fn counts_at(rows: Seq<Seq<(usize, u32)>>, f: int, c: int) -> nat {
    if 0 <= f < rows.len() {
        row_val(rows[f], c)
    } else {
        0
    }
}

/// In a well-formed row, each stored entry holds its column's count.
pub proof fn lemma_row_val_at_entry(r: Seq<(usize, u32)>, i: int)
    requires
        row_wf(r),
        0 <= i < r.len(),
    ensures
        row_val(r, r[i].0 as int) == r[i].1 as nat,
{
    assert(forall|j: int| 0 <= j < i ==> r[j].0 != r[i].0);
    lemma_row_val_at(r, r[i].0 as int, i);
}

/// Whether a row has an entry for column `c`.
pub open spec fn row_has(r: Seq<(usize, u32)>, c: int) -> bool {
    exists|i: int| 0 <= i < r.len() && r[i].0 == c
}

/// In a well-formed row the count is zero exactly when the column is absent.
pub proof fn lemma_row_val_zero(r: Seq<(usize, u32)>, c: int)
    requires
        row_wf(r),
    ensures
        row_val(r, c) == 0 <==> !row_has(r, c),
    decreases r.len(),
{
    if r.len() > 0 {
        if r[0].0 == c {
            assert(row_has(r, c));
        } else {
            assert(row_wf(r.drop_first()));
            lemma_row_val_zero(r.drop_first(), c);
            if row_has(r.drop_first(), c) {
                let i = choose|i: int| 0 <= i < r.drop_first().len() && r.drop_first()[i].0 == c;
                assert(r[i + 1].0 == c);
                assert(row_has(r, c));
            }
            if row_has(r, c) {
                let i = choose|i: int| 0 <= i < r.len() && r[i].0 == c;
                assert(i > 0);
                assert(r.drop_first()[i - 1].0 == c);
                assert(row_has(r.drop_first(), c));
            }
        }
    }
}

/// The count of a row is read at the entry that holds the column.
proof fn lemma_row_val_at(r: Seq<(usize, u32)>, c: int, i: int)
    requires
        0 <= i < r.len(),
        r[i].0 == c,
        forall|j: int| 0 <= j < i ==> r[j].0 != c,
    ensures
        row_val(r, c) == r[i].1 as nat,
    decreases i,
{
    if i > 0 {
        assert(r.drop_first()[i - 1].0 == c);
        assert(forall|j: int| 0 <= j < i - 1 ==> r.drop_first()[j].0 == r[j + 1].0);
        lemma_row_val_at(r.drop_first(), c, i - 1);
    }
}

/// Updating the entry of one column leaves every other column's count alone.
proof fn lemma_row_val_update(r: Seq<(usize, u32)>, i: int, p: (usize, u32), c: int)
    requires
        0 <= i < r.len(),
        p.0 == r[i].0,
        c != r[i].0,
    ensures
        row_val(r.update(i, p), c) == row_val(r, c),
    decreases r.len(),
{
    if i == 0 {
        assert(r.update(i, p).drop_first() =~= r.drop_first());
        assert(r.update(i, p)[0] == p);
    } else {
        assert(r.update(i, p).drop_first() =~= r.drop_first().update(i - 1, p));
        assert(r.update(i, p)[0] == r[0]);
        lemma_row_val_update(r.drop_first(), i - 1, p, c);
    }
}

/// Appending an entry for a fresh column gives that column its count.
proof fn lemma_row_val_push(r: Seq<(usize, u32)>, p: (usize, u32), c: int)
    requires
        !row_has(r, c),
        p.0 == c,
    ensures
        row_val(r.push(p), c) == p.1 as nat,
    decreases r.len(),
{
    if r.len() == 0 {
        assert(r.push(p)[0] == p);
    } else {
        assert(r[0].0 != c);
        assert(r.push(p)[0] == r[0]);
        assert(r.push(p).drop_first() =~= r.drop_first().push(p));
        assert(!row_has(r.drop_first(), c)) by {
            if row_has(r.drop_first(), c) {
                let i = choose|i: int| 0 <= i < r.drop_first().len() && r.drop_first()[i].0 == c;
                assert(r[i + 1].0 == c);
            }
        }
        lemma_row_val_push(r.drop_first(), p, c);
    }
}

/// Appending an entry for a different column leaves a column's count alone.
proof fn lemma_row_val_push_other(r: Seq<(usize, u32)>, p: (usize, u32), c: int)
    requires
        p.0 != c,
    ensures
        row_val(r.push(p), c) == row_val(r, c),
    decreases r.len(),
{
    if r.len() == 0 {
        assert(r.push(p)[0] == p);
        assert(r.push(p).len() == 1);
        assert(row_val(r.push(p).drop_first(), c) == 0) by {
            assert(r.push(p).drop_first() =~= Seq::<(usize, u32)>::empty());
        }
    } else {
        assert(r.push(p)[0] == r[0]);
        assert(r.push(p).drop_first() =~= r.drop_first().push(p));
        lemma_row_val_push_other(r.drop_first(), p, c);
    }
}

/// Adds one, saturating, to the count of column `c` in one row.
fn bump_row(row: &mut Vec<(usize, u32)>, c: usize)
    requires
        row_wf(old(row)@),
    ensures
        row_wf(final(row)@),
        row_val(final(row)@, c as int) == sat_inc(row_val(old(row)@, c as int)),
        forall|c2: int| c2 != c as int ==> row_val(final(row)@, c2) == row_val(old(row)@, c2),
        final(row)@.len() == old(row)@.len() + (if row_val(old(row)@, c as int) == 0 {
            1int
        } else {
            0int
        }),
{
    let ghost old_row = row@;
    let n = row.len();
    let mut i: usize = 0;
    while i < n
        invariant
            old_row == old(row)@,
            n == row@.len(),
            row@ == old_row,
            row_wf(old_row),
            0 <= i <= n,
            forall|j: int| 0 <= j < i ==> row@[j].0 != c,
        decreases n - i,
    {
        if row[i].0 == c {
            let v = row[i].1;
            let v2: u32 = if v == 0xffff_ffff {
                v
            } else {
                v + 1
            };
            let col = row[i].0;
            row.set(i, (col, v2));
            proof {
                assert(forall|j: int| 0 <= j < row@.len() && j != i ==> row@[j] == old_row[j]);
                lemma_row_val_at(old_row, c as int, i as int);
                assert(row@[i as int].0 == c);
                lemma_row_val_at(row@, c as int, i as int);
                assert forall|c2: int| c2 != c as int implies row_val(row@, c2) == row_val(
                    old_row,
                    c2,
                ) by {
                    lemma_row_val_update(old_row, i as int, (col, v2), c2);
                }
                lemma_row_val_zero(old_row, c as int);
                assert(row_wf(row@)) by {
                    assert(forall|j: int|
                        0 <= j < row@.len() ==> (#[trigger] row@[j]).0 == old_row[j].0);
                }
            }
            return ;
        }
        i += 1;
    }
    proof {
        assert(!row_has(old_row, c as int));
        lemma_row_val_push(old_row, (c, 1u32), c as int);
        assert forall|c2: int| c2 != c as int implies row_val(old_row.push((c, 1u32)), c2)
            == row_val(old_row, c2) by {
            lemma_row_val_push_other(old_row, (c, 1u32), c2);
        }
        lemma_row_val_zero(old_row, c as int);
    }
    row.push((c, 1));
    proof {
        assert(row_wf(row@)) by {
            assert(forall|j: int| 0 <= j < old_row.len() ==> row@[j] == old_row[j]);
            assert(row@[old_row.len() as int].0 == c);
            assert(forall|j: int| 0 <= j < row@.len() ==> (#[trigger] row@[j]).1 >= 1);
        }
    }
}

/// The sparse feature-by-cell count structure.
pub struct SparseCounts {
    rows: Vec<Vec<(usize, u32)>>,
}

impl SparseCounts {
    /// The rows as stored: for each feature, its `(column, count)` entries
    /// in insertion order.
    pub closed spec fn view(&self) -> Seq<Seq<(usize, u32)>> {
        self.rows@.map_values(|r: Vec<(usize, u32)>| r@)
    }

    /// All rows well-formed.
    pub open spec fn wf(&self) -> bool {
        forall|f: int| 0 <= f < self@.len() ==> row_wf(#[trigger] self@[f])
    }

    /// The accumulated count for feature `f` and column `c`.
    pub open spec fn count_at(&self, f: int, c: int) -> nat {
        counts_at(self@, f, c)
    }

    /// One empty row per feature: every count zero.
    pub fn new(total_features: usize) -> (r: SparseCounts)
        ensures
            r@.len() == total_features,
            r.wf(),
            forall|f: int, c: int| counts_at(r@, f, c) == 0,
    {
        let mut rows: Vec<Vec<(usize, u32)>> = Vec::new();
        let mut i: usize = 0;
        while i < total_features
            invariant
                0 <= i <= total_features,
                rows@.len() == i,
                forall|j: int| 0 <= j < i ==> (#[trigger] rows@[j])@ == Seq::<(usize, u32)>::empty(),
            decreases total_features - i,
        {
            let empty_row: Vec<(usize, u32)> = Vec::new();
            rows.push(empty_row);
            i += 1;
        }
        let r = SparseCounts { rows };
        r
    }

    /// The stored entries of one feature row, in insertion order.
    pub fn row_entries(&self, f: usize) -> (r: &Vec<(usize, u32)>)
        requires
            f < self@.len(),
        ensures
            r@ == self@[f as int],
    {
        &self.rows[f]
    }

    /// The number of feature rows.
    pub fn num_rows(&self) -> (r: usize)
        ensures
            r == self@.len(),
    {
        self.rows.len()
    }

    /// Adds one to the count of feature `f`, column `c`, saturating at the
    /// largest 32-bit count; every other count is unchanged, and the row
    /// gains an entry exactly when the count was zero.
    pub fn increment(&mut self, f: usize, c: usize)
        requires
            old(self).wf(),
            f < old(self)@.len(),
        ensures
            final(self).wf(),
            final(self)@.len() == old(self)@.len(),
            counts_at(final(self)@, f as int, c as int) == sat_inc(
                counts_at(old(self)@, f as int, c as int),
            ),
            forall|f2: int, c2: int|
                !(f2 == f as int && c2 == c as int) ==> counts_at(final(self)@, f2, c2)
                    == counts_at(old(self)@, f2, c2),
            forall|f2: int|
                f2 != f as int && 0 <= f2 < final(self)@.len() ==> final(self)@[f2] == old(
                    self,
                )@[f2],
            final(self)@[f as int].len() == old(self)@[f as int].len() + (if old(self).count_at(
                f as int,
                c as int,
            ) == 0 {
                1int
            } else {
                0int
            }),
    {
        let ghost old_view = self@;
        let mut row: Vec<(usize, u32)> = Vec::new();
        self.rows.set_and_swap(f, &mut row);
        proof {
            assert(row@ == old_view[f as int]);
        }
        bump_row(&mut row, c);
        let ghost new_row = row@;
        self.rows.set_and_swap(f, &mut row);
        proof {
            assert(self@ =~= old_view.update(f as int, new_row));
            assert(forall|f2: int|
                f2 != f as int && 0 <= f2 < self@.len() ==> self@[f2] == old_view[f2]);
        }
    }
}

} // verus!
