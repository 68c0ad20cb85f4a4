//! Serialization of the finished counts as a coordinate-format sparse
//! matrix: two header lines, a dimension line `rows cols nonzero`, then one
//! line `row col value` per stored entry, 1-based, rows in feature order and
//! entries in each row's stored order.

use vstd::prelude::*;
use vstd::string::StringSliceAdditionalSpecFns;
use crate::bytes::{dec_rep, u64_dec};
use crate::counts::{SparseCounts, row_wf, row_val, row_has, lemma_row_val_zero};

verus! {

/// The format identifier line.
pub open spec fn header_line() -> Seq<u8> {
    "%%MatrixMarket matrix coordinate integer general\n".spec_bytes()
}

/// The metadata comment line.
pub open spec fn metadata_line() -> Seq<u8> {
    "%%metadata json: {{\"software_version\": \"f2m-0.1.0\"}}\n".spec_bytes()
}

/// One entry line: 1-based feature and cell index, then the count.
pub open spec fn triple_line(f: int, c: int, v: nat) -> Seq<u8> {
    dec_rep((f + 1) as nat) + seq![32u8] + dec_rep((c + 1) as nat) + seq![32u8] + dec_rep(v)
        + seq![10u8]
}

/// The entry lines of one feature row, in stored order.
pub open spec fn row_triples(row: Seq<(usize, u32)>, f: int) -> Seq<u8>
    decreases row.len(),
{
    if row.len() == 0 {
        Seq::empty()
    } else {
        row_triples(row.drop_last(), f) + triple_line(
            f,
            row.last().0 as int,
            row.last().1 as nat,
        )
    }
}

/// The entry lines of all rows, in feature order.
pub open spec fn all_triples(rows: Seq<Seq<(usize, u32)>>) -> Seq<u8>
    decreases rows.len(),
{
    if rows.len() == 0 {
        Seq::empty()
    } else {
        all_triples(rows.drop_last()) + row_triples(rows.last(), rows.len() - 1)
    }
}

/// The number of stored entries: the `nonzero` of the dimension line.
pub open spec fn total_entries(rows: Seq<Seq<(usize, u32)>>) -> nat
    decreases rows.len(),
{
    if rows.len() == 0 {
        0
    } else {
        total_entries(rows.drop_last()) + rows.last().len()
    }
}

/// The dimension line: `rows cols nonzero`.
pub open spec fn dims_line(nrow: nat, ncol: nat, nonzero: nat) -> Seq<u8> {
    dec_rep(nrow) + seq![32u8] + dec_rep(ncol) + seq![32u8] + dec_rep(nonzero) + seq![10u8]
}

/// The whole serialized matrix.
pub open spec fn matrix_market_rep(rows: Seq<Seq<(usize, u32)>>, ncol: nat) -> Seq<u8> {
    header_line() + metadata_line() + dims_line(rows.len() as nat, ncol, total_entries(rows))
        + all_triples(rows)
}

/// A prefix never holds more entries than the whole.
proof fn lemma_total_entries_prefix(rows: Seq<Seq<(usize, u32)>>, k: int)
    requires
        0 <= k <= rows.len(),
    ensures
        total_entries(rows.take(k)) <= total_entries(rows),
    decreases rows.len() - k,
{
    if k < rows.len() {
        assert(rows.take(k + 1).drop_last() =~= rows.take(k));
        lemma_total_entries_prefix(rows, k + 1);
    } else {
        assert(rows.take(k) =~= rows);
    }
}

/// Serializes what precedes the entry lines: the header and metadata lines
/// and the dimension line `nrow ncol nonzero`, with `nonzero` the number of
/// stored entries.
pub fn write_matrix_header(counts: &SparseCounts, ncol: usize) -> (out: Vec<u8>)
    requires
        total_entries(counts@) <= usize::MAX,
    ensures
        out@ == header_line() + metadata_line() + dims_line(
            counts@.len() as nat,
            ncol as nat,
            total_entries(counts@),
        ),
{
    let ghost rows = counts@;
    let nrow = counts.num_rows();
    let mut nonzero: usize = 0;
    let mut f: usize = 0;
    proof {
        assert(rows.take(0) =~= Seq::<Seq<(usize, u32)>>::empty());
    }
    while f < nrow
        invariant
            rows == counts@,
            nrow == rows.len(),
            total_entries(rows) <= usize::MAX,
            0 <= f <= nrow,
            nonzero == total_entries(rows.take(f as int)),
        decreases nrow - f,
    {
        proof {
            assert(rows.take(f + 1).drop_last() =~= rows.take(f as int));
            assert(rows.take(f + 1).last() == rows[f as int]);
            lemma_total_entries_prefix(rows, f + 1);
        }
        nonzero += counts.row_entries(f).len();
        f += 1;
    }
    proof {
        assert(rows.take(nrow as int) =~= rows);
    }
    let mut out: Vec<u8> = Vec::new();
    out.extend_from_slice("%%MatrixMarket matrix coordinate integer general\n".as_bytes());
    out.extend_from_slice("%%metadata json: {{\"software_version\": \"f2m-0.1.0\"}}\n".as_bytes());
    let mut part = u64_dec(nrow as u64);
    out.append(&mut part);
    out.push(32);
    let mut part = u64_dec(ncol as u64);
    out.append(&mut part);
    out.push(32);
    let mut part = u64_dec(nonzero as u64);
    out.append(&mut part);
    out.push(10);
    proof {
        assert(out@ =~= header_line() + metadata_line() + dims_line(
            nrow as nat,
            ncol as nat,
            total_entries(rows),
        ));
    }
    out
}

/// Serializes the entry lines of one feature row, in stored order. Handing
/// the header and then each row's lines to a compressor in turn streams the
/// matrix without holding it whole.
pub fn write_row_triples(counts: &SparseCounts, f: usize, ncol: usize) -> (out: Vec<u8>)
    requires
        f < counts@.len(),
        forall|t: int| 0 <= t < counts@[f as int].len() ==> (#[trigger] counts@[f as int][t]).0
            < ncol,
    ensures
        out@ == row_triples(counts@[f as int], f as int),
{
    let ghost rv = counts@[f as int];
    let nrow = counts.num_rows();
    let row = counts.row_entries(f);
    let m = row.len();
    let mut out: Vec<u8> = Vec::new();
    let mut t: usize = 0;
    proof {
        assert(rv.take(0) =~= Seq::<(usize, u32)>::empty());
        assert(out@ =~= row_triples(rv.take(0), f as int));
    }
    while t < m
        invariant
            f < nrow,
            nrow == counts@.len(),
            row@ == rv,
            rv == counts@[f as int],
            m == rv.len(),
            0 <= t <= m,
            forall|t2: int| 0 <= t2 < rv.len() ==> (#[trigger] rv[t2]).0 < ncol,
            out@ == row_triples(rv.take(t as int), f as int),
        decreases m - t,
    {
        let (c, v) = row[t];
        let mut part = u64_dec(f as u64 + 1);
        out.append(&mut part);
        out.push(32);
        let mut part = u64_dec(c as u64 + 1);
        out.append(&mut part);
        out.push(32);
        let mut part = u64_dec(v as u64);
        out.append(&mut part);
        out.push(10);
        proof {
            assert(rv.take(t + 1).drop_last() =~= rv.take(t as int));
            assert(rv.take(t + 1).last() == rv[t as int]);
            assert(out@ =~= row_triples(rv.take(t + 1), f as int));
        }
        t += 1;
    }
    proof {
        assert(rv.take(m as int) =~= rv);
    }
    out
}

/// One more row's lines extend the streamed entries exactly as the whole
/// serialization has them.
pub proof fn lemma_stream_step(rows: Seq<Seq<(usize, u32)>>, f: int)
    requires
        0 <= f < rows.len(),
    ensures
        all_triples(rows.take(f + 1)) == all_triples(rows.take(f)) + row_triples(rows[f], f),
{
    assert(rows.take(f + 1).drop_last() =~= rows.take(f));
    assert(rows.take(f + 1).last() == rows[f]);
    assert(rows.take(f + 1).len() == f + 1);
}

/// Serializes the counts whole: the header and metadata lines, the dimension
/// line `nrow ncol nonzero` with `nonzero` the number of stored entries,
/// then one 1-based `row col value` line per entry, rows in feature order.
pub fn write_matrix_market(counts: &SparseCounts, ncol: usize) -> (out: Vec<u8>)
    requires
        total_entries(counts@) <= usize::MAX,
        forall|f: int, t: int|
            0 <= f < counts@.len() && 0 <= t < counts@[f].len() ==> (#[trigger] counts@[f][t]).0
                < ncol,
    ensures
        out@ == matrix_market_rep(counts@, ncol as nat),
{
    let ghost rows = counts@;
    let mut out = write_matrix_header(counts, ncol);
    let ghost head = out@;
    let nrow = counts.num_rows();
    let mut f: usize = 0;
    proof {
        assert(rows.take(0) =~= Seq::<Seq<(usize, u32)>>::empty());
        assert(out@ =~= head + all_triples(rows.take(0)));
    }
    while f < nrow
        invariant
            rows == counts@,
            nrow == rows.len(),
            0 <= f <= nrow,
            forall|f2: int, t: int|
                0 <= f2 < rows.len() && 0 <= t < rows[f2].len() ==> (#[trigger] rows[f2][t]).0
                    < ncol,
            out@ == head + all_triples(rows.take(f as int)),
        decreases nrow - f,
    {
        let mut part = write_row_triples(counts, f, ncol);
        out.append(&mut part);
        proof {
            lemma_stream_step(rows, f as int);
        }
        f += 1;
    }
    proof {
        assert(rows.take(nrow as int) =~= rows);
        assert(out@ == matrix_market_rep(rows, ncol as nat));
    }
    out
}

/// The distinct columns with a nonzero count in one row.
pub open spec fn nonzero_cols(r: Seq<(usize, u32)>) -> Set<int> {
    Set::new(|c: int| row_val(r, c) > 0)
}

/// The number of distinct cells with a nonzero count, summed over features.
pub open spec fn sum_nonzero_cols(rows: Seq<Seq<(usize, u32)>>) -> nat
    decreases rows.len(),
{
    if rows.len() == 0 {
        0
    } else {
        sum_nonzero_cols(rows.drop_last()) + nonzero_cols(rows.last()).len()
    }
}

/// In a well-formed row the stored entries are exactly the distinct columns
/// with a nonzero count.
proof fn lemma_row_nonzero_cols(r: Seq<(usize, u32)>)
    requires
        row_wf(r),
    ensures
        nonzero_cols(r).finite(),
        nonzero_cols(r).len() == r.len(),
{
    let keys = r.map_values(|p: (usize, u32)| p.0 as int);
    assert(keys.no_duplicates());
    assert(nonzero_cols(r) =~= keys.to_set()) by {
        assert forall|c: int| nonzero_cols(r).contains(c) <==> keys.to_set().contains(c) by {
            lemma_row_val_zero(r, c);
            if row_has(r, c) {
                let i = choose|i: int| 0 <= i < r.len() && r[i].0 == c;
                assert(keys[i] == c);
            }
            if keys.to_set().contains(c) {
                let i = choose|i: int| 0 <= i < keys.len() && keys[i] == c;
                assert(r[i].0 == c);
                assert(row_has(r, c));
            }
        }
    }
    keys.unique_seq_to_set();
}

/// Law: the `nonzero` count written in the dimension line equals the sum,
/// over all features, of the number of distinct cells with a nonzero count
/// for that feature.
pub proof fn lemma_nonzero_counts_distinct_cells(rows: Seq<Seq<(usize, u32)>>)
    requires
        forall|f: int| 0 <= f < rows.len() ==> row_wf(#[trigger] rows[f]),
    ensures
        total_entries(rows) == sum_nonzero_cols(rows),
    decreases rows.len(),
{
    if rows.len() > 0 {
        assert(forall|f: int|
            0 <= f < rows.drop_last().len() ==> row_wf(#[trigger] rows.drop_last()[f]));
        lemma_nonzero_counts_distinct_cells(rows.drop_last());
        assert(row_wf(rows.last()));
        lemma_row_nonzero_cols(rows.last());
    }
}


/// In a well-formed row, each stored entry holds its column's count.
proof fn lemma_row_entry_val(r: Seq<(usize, u32)>, i: int)
    requires
        row_wf(r),
        0 <= i < r.len(),
    ensures
        row_val(r, r[i].0 as int) == r[i].1 as nat,
{
    crate::counts::lemma_row_val_at_entry(r, i);
}

/// Law: two count structures that agree on every count hold, row by row,
/// the same entries up to order; with the rows already fixed, one run's
/// serialized triples are a permutation of the other's, whatever order
/// each run stored them in.
pub proof fn lemma_equal_counts_same_triples(
    rows1: Seq<Seq<(usize, u32)>>,
    rows2: Seq<Seq<(usize, u32)>>,
)
    requires
        rows1.len() == rows2.len(),
        forall|f: int| 0 <= f < rows1.len() ==> row_wf(#[trigger] rows1[f]),
        forall|f: int| 0 <= f < rows2.len() ==> row_wf(#[trigger] rows2[f]),
        forall|f: int, c: int|
            crate::counts::counts_at(rows1, f, c) == crate::counts::counts_at(rows2, f, c),
    ensures
        forall|f: int|
            0 <= f < rows1.len() ==> (#[trigger] rows1[f]).to_multiset() == rows2[f].to_multiset(),
{
    broadcast use vstd::seq_lib::group_to_multiset_ensures;

    assert forall|f: int|
        0 <= f < rows1.len() implies (#[trigger] rows1[f]).to_multiset()
        == rows2[f].to_multiset() by {
        let r1 = rows1[f];
        let r2 = rows2[f];
        assert(r1.no_duplicates()) by {
            assert(forall|a: int, b: int| 0 <= a < b < r1.len() ==> r1[a].0 != r1[b].0);
        }
        assert(r2.no_duplicates()) by {
            assert(forall|a: int, b: int| 0 <= a < b < r2.len() ==> r2[a].0 != r2[b].0);
        }
        r1.lemma_multiset_has_no_duplicates();
        r2.lemma_multiset_has_no_duplicates();
        assert forall|x: (usize, u32)| r1.contains(x) implies r2.contains(x) by {
            let i = choose|i: int| 0 <= i < r1.len() && r1[i] == x;
            lemma_row_entry_val(r1, i);
            assert(crate::counts::counts_at(rows1, f, x.0 as int) == crate::counts::counts_at(
                rows2,
                f,
                x.0 as int,
            ));
            assert(row_val(r2, x.0 as int) == x.1 as nat);
            lemma_row_val_zero(r2, x.0 as int);
            assert(row_has(r2, x.0 as int));
            let j = choose|j: int| 0 <= j < r2.len() && r2[j].0 == x.0;
            lemma_row_entry_val(r2, j);
            assert(r2[j] == x);
        }
        assert forall|x: (usize, u32)| r2.contains(x) implies r1.contains(x) by {
            let i = choose|i: int| 0 <= i < r2.len() && r2[i] == x;
            lemma_row_entry_val(r2, i);
            assert(crate::counts::counts_at(rows1, f, x.0 as int) == crate::counts::counts_at(
                rows2,
                f,
                x.0 as int,
            ));
            assert(row_val(r1, x.0 as int) == x.1 as nat);
            lemma_row_val_zero(r1, x.0 as int);
            assert(row_has(r1, x.0 as int));
            let j = choose|j: int| 0 <= j < r1.len() && r1[j].0 == x.0;
            lemma_row_entry_val(r1, j);
            assert(r1[j] == x);
        }
        assert(r1.to_multiset() =~= r2.to_multiset()) by {
            assert forall|x: (usize, u32)|
                r1.to_multiset().count(x) == r2.to_multiset().count(x) by {
                if r1.contains(x) {
                    assert(r1.to_multiset().count(x) == 1 && r2.to_multiset().count(x) == 1);
                } else {
                    assert(!r2.contains(x));
                    assert(r1.to_multiset().count(x) == 0 && r2.to_multiset().count(x) == 0);
                }
            }
        }
    }
}

} // verus!
