//! The overlap counter: decides, for one decoded fragment line, which
//! features it hits and how often, and accumulates the counts. A fragment
//! contributes one count per feature covering its start position; a feature
//! whose right edge lies strictly beyond the fragment's end gets a second
//! count at once, and when no such feature exists at the start, the features
//! covering the end position get one count each.

use vstd::prelude::*;
use crate::bytes::{spec_split, spec_parse_u32, split_fields, parse_u32, views_of, TAB};
use crate::cells::CellTable;
use crate::counts::{SparseCounts, counts_at, sat_add, sat_inc, lemma_sat_add_assoc};
use crate::index::{FeatureIndex, assoc_find, point_hits, lemma_point_query, lemma_point_hits_max,
    lemma_assoc_find_entry};
use crate::seqext::{lemma_filter_push, lemma_filter_none, lemma_filter_subset, lemma_take_full,
    lemma_filter_singleton, lemma_filter_multiset, lemma_filter_len_multiset};

verus! {

broadcast use crate::counts::lemma_row_val_bound;

/// A fatal fragment error: a coordinate field of an admitted record that is
/// not a well-formed 32-bit number.
#[derive(Clone, Copy, Debug, PartialEq, Eq, Structural)]
pub enum FragmentError {
    /// The start field does not parse.
    InvalidStart,
    /// The end field does not parse.
    InvalidEnd,
}

/// Number of intervals among `sh` carrying feature `f`.
pub open spec fn hits_for(sh: Seq<(u32, u32, usize)>, f: int) -> nat {
    sh.filter(|iv: (u32, u32, usize)| iv.2 == f).len()
}

/// Number of intervals among `sh` carrying feature `f` whose right edge
/// lies strictly beyond the fragment end `e`.
pub open spec fn contained_for(sh: Seq<(u32, u32, usize)>, e: u32, f: int) -> nat {
    sh.filter(|iv: (u32, u32, usize)| iv.2 == f && e < iv.1).len()
}

/// Number of intervals among `sh` whose right edge lies strictly beyond `e`.
pub open spec fn num_contained(sh: Seq<(u32, u32, usize)>, e: u32) -> nat {
    sh.filter(|iv: (u32, u32, usize)| e < iv.1).len()
}

/// The counts an admitted fragment `[s, e)` adds to feature `f` against the
/// intervals `ivs` of its chromosome: one per interval covering `s`, a second
/// one per such interval with `e <` its right edge, and, when no interval
/// covering `s` has `e <` its right edge, one per interval covering `e`.
pub open spec fn fragment_delta(ivs: Seq<(u32, u32, usize)>, s: u32, e: u32, f: int) -> nat {
    let sh = point_hits(ivs, s);
    hits_for(sh, f) + contained_for(sh, e, f) + if num_contained(sh, e) == 0 {
        hits_for(point_hits(ivs, e), f)
    } else {
        0
    }
}

/// A comment line, skipped without any effect.
pub open spec fn is_comment(line: Seq<u8>) -> bool {
    line.len() > 0 && line[0] == 35
}

/// A line the counter accepts: a comment, or one with at least four
/// tab-separated fields.
pub open spec fn line_shape_ok(line: Seq<u8>) -> bool {
    is_comment(line) || spec_split(line, 9).len() >= 4
}

/// The fatal error a line produces, if any: an admitted record (barcode
/// known) whose start or end field does not parse, whether or not its
/// chromosome is in the region set.
pub open spec fn line_error(line: Seq<u8>, cm: Map<Seq<u8>, int>) -> Option<FragmentError> {
    let fields = spec_split(line, 9);
    if is_comment(line) || !cm.contains_key(fields[3]) {
        None
    } else if spec_parse_u32(fields[1]) is None {
        Some(FragmentError::InvalidStart)
    } else if spec_parse_u32(fields[2]) is None {
        Some(FragmentError::InvalidEnd)
    } else {
        None
    }
}

/// What processing a line returns.
pub open spec fn spec_line_result(line: Seq<u8>, cm: Map<Seq<u8>, int>) -> Result<
    (),
    FragmentError,
> {
    match line_error(line, cm) {
        Some(e) => Err(e),
        None => Ok(()),
    }
}

/// The counts a line adds at feature `f`, column `c`: zero unless the line
/// is an admitted record bound to column `c` with both coordinates parsed,
/// and then what `fragment_delta` gives against its chromosome's intervals.
pub open spec fn line_delta(
    line: Seq<u8>,
    cm: Map<Seq<u8>, int>,
    im: Seq<(Seq<u8>, Seq<(u32, u32, usize)>)>,
    f: int,
    c: int,
) -> nat {
    let fields = spec_split(line, 9);
    if !is_comment(line) && cm.contains_key(fields[3]) && assoc_find(im, fields[0]) is Some
        && spec_parse_u32(fields[1]) is Some && spec_parse_u32(fields[2]) is Some && cm[fields[3]]
        == c {
        fragment_delta(
            assoc_find(im, fields[0]).unwrap(),
            spec_parse_u32(fields[1]).unwrap(),
            spec_parse_u32(fields[2]).unwrap(),
            f,
        )
    } else {
        0
    }
}

/// Every feature id stored in the index lies below `n`.
pub open spec fn index_ids_below(im: Seq<(Seq<u8>, Seq<(u32, u32, usize)>)>, n: int) -> bool {
    forall|j: int, t: int|
        0 <= j < im.len() && 0 <= t < im[j].1.len() ==> (#[trigger] im[j].1[t]).2 < n
}

/// One more interval changes the three per-fragment counters by its own
/// contribution alone.
proof fn lemma_delta_push(sh: Seq<(u32, u32, usize)>, x: (u32, u32, usize), e: u32)
    ensures
        forall|f: int|
            hits_for(sh.push(x), f) == hits_for(sh, f) + if x.2 == f {
                1nat
            } else {
                0nat
            },
        forall|f: int|
            contained_for(sh.push(x), e, f) == contained_for(sh, e, f) + if x.2 == f && e < x.1 {
                1nat
            } else {
                0nat
            },
        num_contained(sh.push(x), e) == num_contained(sh, e) + if e < x.1 {
            1nat
        } else {
            0nat
        },
{
    assert forall|f: int|
        hits_for(sh.push(x), f) == hits_for(sh, f) + (if x.2 == f {
            1nat
        } else {
            0nat
        }) by {
        lemma_filter_push(sh, x, |iv: (u32, u32, usize)| iv.2 == f);
    }
    assert forall|f: int|
        contained_for(sh.push(x), e, f) == contained_for(sh, e, f) + (if x.2 == f && e < x.1 {
            1nat
        } else {
            0nat
        }) by {
        lemma_filter_push(sh, x, |iv: (u32, u32, usize)| iv.2 == f && e < iv.1);
    }
    lemma_filter_push(sh, x, |iv: (u32, u32, usize)| e < iv.1);
}

/// On no intervals all three per-fragment counters are zero.
proof fn lemma_delta_empty(e: u32)
    ensures
        forall|f: int| hits_for(Seq::<(u32, u32, usize)>::empty(), f) == 0,
        forall|f: int| contained_for(Seq::<(u32, u32, usize)>::empty(), e, f) == 0,
        num_contained(Seq::<(u32, u32, usize)>::empty(), e) == 0,
{
    reveal(Seq::filter);
}

/// Processes one decoded fragment line against the cell table and feature
/// index, accumulating into `counts`: a comment or an unknown barcode
/// contributes nothing; an unparseable coordinate of an admitted record
/// (barcode known) is the fatal error, whether or not its chromosome is
/// indexed; an unindexed chromosome contributes nothing; otherwise each
/// count rises by what `line_delta` gives, saturating at the largest
/// 32-bit value.
pub fn process_line(
    line: &[u8],
    cells: &CellTable,
    index: &FeatureIndex,
    counts: &mut SparseCounts,
) -> (r: Result<(), FragmentError>)
    requires
        cells.wf(),
        old(counts).wf(),
        line_shape_ok(line@),
        index_ids_below(index@, old(counts)@.len() as int),
    ensures
        final(counts).wf(),
        final(counts)@.len() == old(counts)@.len(),
        r == spec_line_result(line@, cells@),
        forall|f: int, c: int|
            counts_at(final(counts)@, f, c) == sat_add(
                counts_at(old(counts)@, f, c),
                line_delta(line@, cells@, index@, f, c),
            ),
{
    let ghost cm = cells@;
    let ghost im = index@;
    let ghost n0 = old(counts)@.len() as int;
    if line.len() > 0 && line[0] == 35 {
        return Ok(());
    }
    let fields = split_fields(line, TAB);
    let ghost fs = spec_split(line@, 9);
    proof {
        assert(fields@.map_values(|f: Vec<u8>| f@) == fs);
        assert(fields@.len() == fs.len());
        assert(fields@[0]@ == fs[0] && fields@[1]@ == fs[1] && fields@[2]@ == fs[2] && fields@[3]@
            == fs[3]);
    }
    let col = match cells.lookup(fields[3].as_slice()) {
        Some(c) => c,
        None => {
            return Ok(());
        },
    };
    let s = match parse_u32(fields[1].as_slice()) {
        Some(v) => v,
        None => {
            return Err(FragmentError::InvalidStart);
        },
    };
    let e = match parse_u32(fields[2].as_slice()) {
        Some(v) => v,
        None => {
            return Err(FragmentError::InvalidEnd);
        },
    };
    if !index.contains_chrom(fields[0].as_slice()) {
        return Ok(());
    }
    let ghost ivs = index.spec_lookup(fs[0]).unwrap();
    proof {
        lemma_assoc_find_entry(im, fs[0]);
        assert(forall|t: int| 0 <= t < ivs.len() ==> (#[trigger] ivs[t]).2 < n0);
    }
    let found: Vec<(u32, u32, usize)> = if s < 0xffff_ffff {
        match index.find_overlaps(fields[0].as_slice(), s, s + 1) {
            Some(v) => v,
            None => vstd::pervasive::unreached(),
        }
    } else {
        Vec::new()
    };
    proof {
        if s < 0xffff_ffff {
            lemma_point_query(ivs, s);
        } else {
            lemma_point_hits_max(ivs);
            assert(found@ =~= Seq::<(u32, u32, usize)>::empty());
        }
        assert(found@ == point_hits(ivs, s));
        lemma_filter_subset(ivs, |iv: (u32, u32, usize)| iv.0 <= s && iv.1 > s);
        assert forall|t: int| 0 <= t < found@.len() implies (#[trigger] found@[t]).2 < n0 by {
            assert(ivs.contains(found@[t]));
            let w = choose|w: int| 0 <= w < ivs.len() && ivs[w] == found@[t];
            assert(ivs[w].2 < n0);
        }
    }
    let ghost sh = found@;
    let ghost base = counts@;
    let mut check_end = true;
    let nfound = found.len();
    let mut k: usize = 0;
    proof {
        assert(sh.take(0) =~= Seq::<(u32, u32, usize)>::empty());
        lemma_delta_empty(e);
        assert(forall|f: int, c2: int|
            counts_at(counts@, f, c2) == sat_add(counts_at(base, f, c2), 0));
    }
    while k < nfound
        invariant
            counts.wf(),
            counts@.len() == n0,
            base.len() == n0,
            nfound == sh.len(),
            found@ == sh,
            0 <= k <= nfound,
            forall|t: int| 0 <= t < sh.len() ==> (#[trigger] sh[t]).2 < n0,
            check_end == (num_contained(sh.take(k as int), e) == 0),
            forall|f: int, c2: int|
                counts_at(counts@, f, c2) == if c2 == col as int {
                    sat_add(
                        counts_at(base, f, c2),
                        hits_for(sh.take(k as int), f) + contained_for(sh.take(k as int), e, f),
                    )
                } else {
                    counts_at(base, f, c2)
                },
        decreases nfound - k,
    {
        let iv = found[k];
        let ghost pre = counts@;
        proof {
            assert(sh.take(k + 1) =~= sh.take(k as int).push(iv));
            lemma_delta_push(sh.take(k as int), iv, e);
        }
        counts.increment(iv.2, col);
        let ghost mid = counts@;
        if e < iv.1 {
            check_end = false;
            counts.increment(iv.2, col);
        }
        proof {
            assert forall|f: int, c2: int|
                counts_at(counts@, f, c2) == (if c2 == col as int {
                    sat_add(
                        counts_at(base, f, c2),
                        hits_for(sh.take(k + 1), f) + contained_for(sh.take(k + 1), e, f),
                    )
                } else {
                    counts_at(base, f, c2)
                }) by {
                let b = counts_at(base, f, c2);
                let h0 = hits_for(sh.take(k as int), f);
                let g0 = contained_for(sh.take(k as int), e, f);
                let h1 = hits_for(sh.take(k + 1), f);
                let g1 = contained_for(sh.take(k + 1), e, f);
                assert(counts_at(pre, f, c2) == if c2 == col as int {
                    sat_add(b, h0 + g0)
                } else {
                    b
                });
                if c2 == col as int && f == iv.2 {
                    assert(h1 == h0 + 1);
                    assert(counts_at(mid, f, c2) == sat_inc(sat_add(b, h0 + g0)));
                    assert(sat_inc(sat_add(b, h0 + g0)) == sat_add(b, h0 + g0 + 1)) by {
                        lemma_sat_add_assoc(b, h0 + g0, 1);
                    }
                    if e < iv.1 {
                        assert(g1 == g0 + 1);
                        assert(counts_at(counts@, f, c2) == sat_inc(sat_add(b, h0 + g0 + 1)));
                        assert(sat_inc(sat_add(b, h0 + g0 + 1)) == sat_add(b, h0 + g0 + 2)) by {
                            lemma_sat_add_assoc(b, h0 + g0 + 1, 1);
                        }
                    } else {
                        assert(g1 == g0);
                        assert(counts_at(counts@, f, c2) == counts_at(mid, f, c2));
                    }
                } else {
                    assert(counts_at(mid, f, c2) == counts_at(pre, f, c2));
                    assert(counts_at(counts@, f, c2) == counts_at(mid, f, c2));
                    if c2 == col as int {
                        assert(f != iv.2);
                        assert(h1 == h0 && g1 == g0);
                    }
                }
            }
        }
        k += 1;
    }
    proof {
        lemma_take_full(sh);
    }
    if check_end {
        let found_e: Vec<(u32, u32, usize)> = if e < 0xffff_ffff {
            match index.find_overlaps(fields[0].as_slice(), e, e + 1) {
                Some(v) => v,
                None => vstd::pervasive::unreached(),
            }
        } else {
            Vec::new()
        };
        proof {
            if e < 0xffff_ffff {
                lemma_point_query(ivs, e);
            } else {
                lemma_point_hits_max(ivs);
                assert(found_e@ =~= Seq::<(u32, u32, usize)>::empty());
            }
            assert(found_e@ == point_hits(ivs, e));
            lemma_filter_subset(ivs, |iv: (u32, u32, usize)| iv.0 <= e && iv.1 > e);
            assert forall|t: int| 0 <= t < found_e@.len() implies (#[trigger] found_e@[t]).2
                < n0 by {
                assert(ivs.contains(found_e@[t]));
                let w = choose|w: int| 0 <= w < ivs.len() && ivs[w] == found_e@[t];
                assert(ivs[w].2 < n0);
            }
        }
        let ghost eh = found_e@;
        let ghost sdelta = |f: int| hits_for(sh, f) + contained_for(sh, e, f);
        let nfe = found_e.len();
        let mut k2: usize = 0;
        proof {
            assert(eh.take(0) =~= Seq::<(u32, u32, usize)>::empty());
            lemma_delta_empty(e);
        }
        while k2 < nfe
            invariant
                counts.wf(),
                counts@.len() == n0,
                base.len() == n0,
                nfe == eh.len(),
                found_e@ == eh,
                0 <= k2 <= nfe,
                forall|t: int| 0 <= t < eh.len() ==> (#[trigger] eh[t]).2 < n0,
                sdelta == (|f: int| hits_for(sh, f) + contained_for(sh, e, f)),
                forall|f: int, c2: int|
                    counts_at(counts@, f, c2) == if c2 == col as int {
                        sat_add(
                            counts_at(base, f, c2),
                            sdelta(f) + hits_for(eh.take(k2 as int), f),
                        )
                    } else {
                        counts_at(base, f, c2)
                    },
            decreases nfe - k2,
        {
            let iv = found_e[k2];
            let ghost pre = counts@;
            proof {
                assert(eh.take(k2 + 1) =~= eh.take(k2 as int).push(iv));
                lemma_delta_push(eh.take(k2 as int), iv, e);
            }
            counts.increment(iv.2, col);
            proof {
                assert forall|f: int, c2: int|
                    counts_at(counts@, f, c2) == (if c2 == col as int {
                        sat_add(
                            counts_at(base, f, c2),
                            sdelta(f) + hits_for(eh.take(k2 + 1), f),
                        )
                    } else {
                        counts_at(base, f, c2)
                    }) by {
                    let b = counts_at(base, f, c2);
                    let h0 = hits_for(eh.take(k2 as int), f);
                    let h1 = hits_for(eh.take(k2 + 1), f);
                    assert(counts_at(pre, f, c2) == if c2 == col as int {
                        sat_add(b, sdelta(f) + h0)
                    } else {
                        b
                    });
                    if c2 == col as int && f == iv.2 {
                        assert(h1 == h0 + 1);
                        assert(counts_at(counts@, f, c2) == sat_inc(sat_add(b, sdelta(f) + h0)));
                        assert(sat_inc(sat_add(b, sdelta(f) + h0)) == sat_add(
                            b,
                            sdelta(f) + h0 + 1,
                        )) by {
                            lemma_sat_add_assoc(b, sdelta(f) + h0, 1);
                        }
                    } else {
                        assert(counts_at(counts@, f, c2) == counts_at(pre, f, c2));
                        if c2 == col as int {
                            assert(f != iv.2);
                            assert(h1 == h0);
                        }
                    }
                }
            }
            k2 += 1;
        }
        proof {
            lemma_take_full(eh);
            assert(num_contained(sh, e) == 0);
            assert forall|f: int, c2: int|
                counts_at(counts@, f, c2) == sat_add(
                    counts_at(base, f, c2),
                    line_delta(line@, cm, im, f, c2),
                ) by {
                if c2 == col as int {
                    assert(line_delta(line@, cm, im, f, c2) == fragment_delta(ivs, s, e, f));
                } else {
                    assert(line_delta(line@, cm, im, f, c2) == 0);
                }
            }
        }
    } else {
        proof {
            assert(num_contained(sh, e) != 0);
            assert forall|f: int, c2: int|
                counts_at(counts@, f, c2) == sat_add(
                    counts_at(base, f, c2),
                    line_delta(line@, cm, im, f, c2),
                ) by {
                if c2 == col as int {
                    assert(line_delta(line@, cm, im, f, c2) == fragment_delta(ivs, s, e, f));
                } else {
                    assert(line_delta(line@, cm, im, f, c2) == 0);
                }
            }
        }
    }
    Ok(())
}



/// The counts a list of lines adds at feature `f`, column `c`, line by line.
pub open spec fn lines_delta(
    lines: Seq<Seq<u8>>,
    cm: Map<Seq<u8>, int>,
    im: Seq<(Seq<u8>, Seq<(u32, u32, usize)>)>,
    f: int,
    c: int,
) -> nat
    decreases lines.len(),
{
    if lines.len() == 0 {
        0
    } else {
        lines_delta(lines.drop_last(), cm, im, f, c) + line_delta(lines.last(), cm, im, f, c)
    }
}

/// Runs the overlap counter over every decoded fragment line, in order,
/// into a fresh count structure sized for `total_features` features. The
/// first fatal line aborts the run with its error; otherwise every count is
/// the saturating sum of the per-line contributions.
pub fn fcount(
    lines: &Vec<Vec<u8>>,
    cells: &CellTable,
    index: &FeatureIndex,
    total_features: usize,
) -> (r: Result<SparseCounts, FragmentError>)
    requires
        cells.wf(),
        index_ids_below(index@, total_features as int),
        forall|i: int| 0 <= i < lines@.len() ==> line_shape_ok(#[trigger] views_of(lines@)[i]),
    ensures
        match r {
            Ok(counts) => {
                &&& counts.wf()
                &&& counts@.len() == total_features
                &&& forall|i: int|
                    0 <= i < lines@.len() ==> line_error(
                        #[trigger] views_of(lines@)[i],
                        cells@,
                    ) is None
                &&& forall|f: int, c: int|
                    counts_at(counts@, f, c) == sat_add(
                        0,
                        lines_delta(views_of(lines@), cells@, index@, f, c),
                    )
            },
            Err(e) => exists|j: int|
                0 <= j < lines@.len() && line_error(#[trigger] views_of(lines@)[j], cells@)
                    == Some(e) && (forall|t: int|
                    0 <= t < j ==> line_error(views_of(lines@)[t], cells@) is None),
        },
{
    let ghost lv = views_of(lines@);
    let ghost cm = cells@;
    let ghost im = index@;
    let mut counts = SparseCounts::new(total_features);
    let n = lines.len();
    let mut i: usize = 0;
    proof {
        assert(lv.take(0) =~= Seq::<Seq<u8>>::empty());
        assert(forall|f: int, c: int| counts_at(counts@, f, c) == sat_add(0, 0));
    }
    while i < n
        invariant
            cells.wf(),
            cm == cells@,
            im == index@,
            lv == views_of(lines@),
            n == lines@.len(),
            index_ids_below(im, total_features as int),
            forall|t: int| 0 <= t < n ==> line_shape_ok(#[trigger] lv[t]),
            counts.wf(),
            counts@.len() == total_features,
            0 <= i <= n,
            forall|t: int| 0 <= t < i ==> line_error(#[trigger] lv[t], cm) is None,
            forall|f: int, c: int|
                counts_at(counts@, f, c) == sat_add(
                    0,
                    lines_delta(lv.take(i as int), cm, im, f, c),
                ),
        decreases n - i,
    {
        let ghost pre = counts@;
        proof {
            assert(lv[i as int] == lines@[i as int]@);
        }
        match process_line(lines[i].as_slice(), cells, index, &mut counts) {
            Ok(()) => {},
            Err(e) => {
                proof {
                    assert(line_error(lv[i as int], cm) == Some(e));
                }
                return Err(e);
            },
        }
        proof {
            assert(line_error(lv[i as int], cm) is None);
            assert(lv.take(i + 1).drop_last() =~= lv.take(i as int));
            assert(lv.take(i + 1).last() == lv[i as int]);
            assert(lv.take(i + 1).len() == i + 1);
            assert forall|f: int, c: int|
                counts_at(counts@, f, c) == sat_add(
                    0,
                    lines_delta(lv.take(i + 1), cm, im, f, c),
                ) by {
                assert(counts_at(pre, f, c) == sat_add(
                    0,
                    lines_delta(lv.take(i as int), cm, im, f, c),
                ));
                assert(counts_at(counts@, f, c) == sat_add(
                    counts_at(pre, f, c),
                    line_delta(lv[i as int], cm, im, f, c),
                ));
                lemma_sat_add_assoc(
                    0,
                    lines_delta(lv.take(i as int), cm, im, f, c),
                    line_delta(lv[i as int], cm, im, f, c),
                );
                assert(lines_delta(lv.take(i + 1), cm, im, f, c) == lines_delta(
                    lv.take(i as int),
                    cm,
                    im,
                    f,
                    c,
                ) + line_delta(lv[i as int], cm, im, f, c));
            }
        }
        i += 1;
    }
    proof {
        lemma_take_full(lv);
    }
    Ok(counts)
}


/// Two intervals sharing no position: one empty, or one wholly before the
/// other.
pub open spec fn iv_disjoint(a: (u32, u32, usize), b: (u32, u32, usize)) -> bool {
    a.1 <= b.0 || b.1 <= a.0 || a.0 >= a.1 || b.0 >= b.1
}

/// A region set in which no two entries share a position.
pub open spec fn regions_disjoint(ivs: Seq<(u32, u32, usize)>) -> bool {
    forall|i: int, j: int| 0 <= i < j < ivs.len() ==> iv_disjoint(ivs[i], ivs[j])
}

/// Whether some region covers the position `p`.
pub open spec fn pt_in(ivs: Seq<(u32, u32, usize)>, p: u32) -> bool {
    exists|i: int| 0 <= i < ivs.len() && (#[trigger] ivs[i]).0 <= p && p < ivs[i].1
}

/// Over disjoint regions, a position is covered by at most one of them.
proof fn lemma_disjoint_point(ivs: Seq<(u32, u32, usize)>, p: u32)
    requires
        regions_disjoint(ivs),
    ensures
        point_hits(ivs, p).len() == (if pt_in(ivs, p) {
            1nat
        } else {
            0nat
        }),
    decreases ivs.len(),
{
    reveal(Seq::filter);
    if ivs.len() == 0 {
        assert(!pt_in(ivs, p));
    } else {
        let t = ivs.drop_last();
        let x = ivs.last();
        assert(regions_disjoint(t)) by {
            assert(forall|i: int, j: int| 0 <= i < j < t.len() ==> t[i] == ivs[i] && t[j] == ivs[j]);
        }
        lemma_disjoint_point(t, p);
        if x.0 <= p && p < x.1 {
            assert(!pt_in(t, p)) by {
                if pt_in(t, p) {
                    let i = choose|i: int| 0 <= i < t.len() && (#[trigger] t[i]).0 <= p && p < t[i].1;
                    assert(iv_disjoint(ivs[i], ivs[ivs.len() - 1]));
                }
            }
            assert(pt_in(ivs, p)) by {
                assert(ivs[ivs.len() - 1].0 <= p && p < ivs[ivs.len() - 1].1);
            }
        } else {
            assert(pt_in(ivs, p) == pt_in(t, p)) by {
                if pt_in(ivs, p) {
                    let i = choose|i: int|
                        0 <= i < ivs.len() && (#[trigger] ivs[i]).0 <= p && p < ivs[i].1;
                    assert(i < t.len() && t[i] == ivs[i]);
                }
                if pt_in(t, p) {
                    let i = choose|i: int| 0 <= i < t.len() && (#[trigger] t[i]).0 <= p && p < t[i].1;
                    assert(ivs[i] == t[i]);
                }
            }
        }
    }
}

/// Law: over disjoint regions, a fragment scores one count for each of its
/// endpoints that falls inside some region; a fragment fully contained in a
/// region, its end strictly before the region's right edge, scores exactly
/// two counts against that single region and nothing anywhere else.
pub proof fn lemma_nonoverlapping_fragment_counts(ivs: Seq<(u32, u32, usize)>, s: u32, e: u32)
    requires
        regions_disjoint(ivs),
    ensures
        point_hits(ivs, s).len() == (if pt_in(ivs, s) {
            1nat
        } else {
            0nat
        }),
        point_hits(ivs, e).len() == (if pt_in(ivs, e) {
            1nat
        } else {
            0nat
        }),
        num_contained(point_hits(ivs, s), e) > 0 ==> {
            &&& point_hits(ivs, s).len() == 1
            &&& fragment_delta(ivs, s, e, point_hits(ivs, s)[0].2 as int) == 2
            &&& forall|f: int|
                f != point_hits(ivs, s)[0].2 as int ==> fragment_delta(ivs, s, e, f) == 0
        },
        num_contained(point_hits(ivs, s), e) == 0 ==> forall|f: int|
            fragment_delta(ivs, s, e, f) == hits_for(point_hits(ivs, s), f) + hits_for(
                point_hits(ivs, e),
                f,
            ),
{
    lemma_disjoint_point(ivs, s);
    lemma_disjoint_point(ivs, e);
    let sh = point_hits(ivs, s);
    let eh = point_hits(ivs, e);
    if num_contained(sh, e) > 0 {
        assert(sh.len() == 1) by {
            if sh.len() == 0 {
                lemma_filter_none(sh, |iv: (u32, u32, usize)| e < iv.1);
            }
        }
        let x = sh[0];
        assert(sh =~= seq![x]);
        lemma_filter_singleton(x, |iv: (u32, u32, usize)| e < iv.1);
        assert(e < x.1);
        assert forall|f: int|
            fragment_delta(ivs, s, e, f) == (if f == x.2 as int {
                2nat
            } else {
                0nat
            }) by {
            lemma_filter_singleton(x, |iv: (u32, u32, usize)| iv.2 == f);
            lemma_filter_singleton(x, |iv: (u32, u32, usize)| iv.2 == f && e < iv.1);
        }
    } else {
        assert forall|f: int|
            fragment_delta(ivs, s, e, f) == hits_for(point_hits(ivs, s), f) + hits_for(
                point_hits(ivs, e),
                f,
            ) by {
            assert(contained_for(sh, e, f) == 0) by {
                assert forall|i: int| 0 <= i < sh.len() implies !(e < (#[trigger] sh[i]).1) by {
                    if e < sh[i].1 {
                        sh.lemma_filter_contains(|iv: (u32, u32, usize)| e < iv.1, i);
                    }
                }
                lemma_filter_none(sh, |iv: (u32, u32, usize)| iv.2 == f && e < iv.1);
            }
        }
    }
}

/// Law: what a fragment adds depends only on which intervals its chromosome
/// holds, not on the order the index stores them in: re-running over an
/// index holding the same intervals gives the same counts everywhere.
pub proof fn lemma_fragment_delta_order_independent(
    ivs1: Seq<(u32, u32, usize)>,
    ivs2: Seq<(u32, u32, usize)>,
    s: u32,
    e: u32,
)
    requires
        ivs1.to_multiset() == ivs2.to_multiset(),
    ensures
        forall|f: int| fragment_delta(ivs1, s, e, f) == fragment_delta(ivs2, s, e, f),
{
    let sh1 = point_hits(ivs1, s);
    let sh2 = point_hits(ivs2, s);
    let eh1 = point_hits(ivs1, e);
    let eh2 = point_hits(ivs2, e);
    assert(sh1.to_multiset() == sh2.to_multiset()) by {
        lemma_filter_multiset(ivs1, |iv: (u32, u32, usize)| iv.0 <= s && iv.1 > s);
        lemma_filter_multiset(ivs2, |iv: (u32, u32, usize)| iv.0 <= s && iv.1 > s);
    }
    assert(eh1.to_multiset() == eh2.to_multiset()) by {
        lemma_filter_multiset(ivs1, |iv: (u32, u32, usize)| iv.0 <= e && iv.1 > e);
        lemma_filter_multiset(ivs2, |iv: (u32, u32, usize)| iv.0 <= e && iv.1 > e);
    }
    lemma_filter_len_multiset(sh1, sh2, |iv: (u32, u32, usize)| e < iv.1);
    assert forall|f: int| fragment_delta(ivs1, s, e, f) == fragment_delta(ivs2, s, e, f) by {
        lemma_filter_len_multiset(sh1, sh2, |iv: (u32, u32, usize)| iv.2 == f);
        lemma_filter_len_multiset(sh1, sh2, |iv: (u32, u32, usize)| iv.2 == f && e < iv.1);
        lemma_filter_len_multiset(eh1, eh2, |iv: (u32, u32, usize)| iv.2 == f);
    }
}

/// Two index models that bind the same chromosomes, in the same order, to
/// the same intervals up to order.
pub open spec fn index_models_equivalent(
    im1: Seq<(Seq<u8>, Seq<(u32, u32, usize)>)>,
    im2: Seq<(Seq<u8>, Seq<(u32, u32, usize)>)>,
) -> bool {
    &&& im1.len() == im2.len()
    &&& forall|j: int|
        0 <= j < im1.len() ==> (#[trigger] im1[j]).0 == im2[j].0 && im1[j].1.to_multiset()
            == im2[j].1.to_multiset()
}

/// Lookup in equivalent index models finds the same chromosome, bound to
/// the same intervals up to order.
proof fn lemma_assoc_find_equivalent(
    im1: Seq<(Seq<u8>, Seq<(u32, u32, usize)>)>,
    im2: Seq<(Seq<u8>, Seq<(u32, u32, usize)>)>,
    k: Seq<u8>,
)
    requires
        index_models_equivalent(im1, im2),
    ensures
        assoc_find(im1, k) is Some <==> assoc_find(im2, k) is Some,
        assoc_find(im1, k) is Some ==> assoc_find(im1, k).unwrap().to_multiset() == assoc_find(
            im2,
            k,
        ).unwrap().to_multiset(),
    decreases im1.len(),
{
    if im1.len() > 0 {
        if im1[0].0 == k {
        } else {
            assert(index_models_equivalent(im1.drop_first(), im2.drop_first())) by {
                assert(forall|j: int|
                    0 <= j < im1.drop_first().len() ==> im1.drop_first()[j] == im1[j + 1]
                        && im2.drop_first()[j] == im2[j + 1]);
            }
            lemma_assoc_find_equivalent(im1.drop_first(), im2.drop_first(), k);
        }
    }
}

/// Law: a run against an equivalent index adds the same counts everywhere
/// (line classification never reads the index at all): the matrix contents
/// do not depend on the order the index stores each chromosome's intervals
/// in.
pub proof fn lemma_lines_order_independent(
    lines: Seq<Seq<u8>>,
    cm: Map<Seq<u8>, int>,
    im1: Seq<(Seq<u8>, Seq<(u32, u32, usize)>)>,
    im2: Seq<(Seq<u8>, Seq<(u32, u32, usize)>)>,
)
    requires
        index_models_equivalent(im1, im2),
    ensures
        forall|f: int, c: int|
            lines_delta(lines, cm, im1, f, c) == lines_delta(lines, cm, im2, f, c),
    decreases lines.len(),
{
    if lines.len() > 0 {
        assert(forall|i: int| 0 <= i < lines.drop_last().len() ==> lines.drop_last()[i] == lines[i]);
        lemma_lines_order_independent(lines.drop_last(), cm, im1, im2);
        let last = lines.last();
        assert forall|f: int, c: int|
            line_delta(last, cm, im1, f, c) == line_delta(last, cm, im2, f, c) by {
            let fields = spec_split(last, 9);
            lemma_assoc_find_equivalent(im1, im2, fields[0]);
            if assoc_find(im1, fields[0]) is Some {
                if !is_comment(last) && cm.contains_key(fields[3]) && spec_parse_u32(fields[1])
                    is Some && spec_parse_u32(fields[2]) is Some && cm[fields[3]] == c {
                    lemma_fragment_delta_order_independent(
                        assoc_find(im1, fields[0]).unwrap(),
                        assoc_find(im2, fields[0]).unwrap(),
                        spec_parse_u32(fields[1]).unwrap(),
                        spec_parse_u32(fields[2]).unwrap(),
                    );
                }
            }
        }
        assert forall|f: int, c: int|
            lines_delta(lines, cm, im1, f, c) == lines_delta(lines, cm, im2, f, c) by {
            assert(lines_delta(lines, cm, im1, f, c) == lines_delta(lines.drop_last(), cm, im1, f, c)
                + line_delta(last, cm, im1, f, c));
            assert(lines_delta(lines, cm, im2, f, c) == lines_delta(lines.drop_last(), cm, im2, f, c)
                + line_delta(last, cm, im2, f, c));
            assert(lines_delta(lines.drop_last(), cm, im1, f, c) == lines_delta(
                lines.drop_last(),
                cm,
                im2,
                f,
                c,
            ));
            assert(line_delta(last, cm, im1, f, c) == line_delta(last, cm, im2, f, c));
        }
    }
}

/// Bridges the bound on stored feature ids from the gathered interval lists
/// to an index holding a permutation of each.
pub proof fn lemma_index_ids_below(
    im: Seq<(Seq<u8>, Seq<(u32, u32, usize)>)>,
    cm: Seq<(Seq<u8>, Seq<(u32, u32, usize)>)>,
    n: int,
)
    requires
        im.len() == cm.len(),
        forall|j: int| 0 <= j < im.len() ==> (#[trigger] im[j]).1.to_multiset()
            == cm[j].1.to_multiset(),
        forall|j: int, t: int|
            0 <= j < cm.len() && 0 <= t < cm[j].1.len() ==> (#[trigger] cm[j].1[t]).2 < n,
    ensures
        index_ids_below(im, n),
{
    broadcast use vstd::seq_lib::group_to_multiset_ensures;

    assert forall|j: int, t: int|
        0 <= j < im.len() && 0 <= t < im[j].1.len() implies (#[trigger] im[j].1[t]).2 < n by {
        let x = im[j].1[t];
        assert(im[j].1.contains(x));
        assert(im[j].1.to_multiset().count(x) > 0);
        assert(cm[j].1.to_multiset().count(x) > 0);
        assert(cm[j].1.contains(x));
        let w = choose|w: int| 0 <= w < cm[j].1.len() && cm[j].1[w] == x;
        assert(cm[j].1[w].2 < n);
    }
}


/// Law: a fragment whose barcode is absent from the cell table contributes
/// zero counts anywhere, whatever else the line holds.
pub proof fn lemma_unknown_barcode_contributes_nothing(
    line: Seq<u8>,
    cm: Map<Seq<u8>, int>,
    im: Seq<(Seq<u8>, Seq<(u32, u32, usize)>)>,
)
    requires
        !cm.contains_key(spec_split(line, 9)[3]),
    ensures
        forall|f: int, c: int| line_delta(line, cm, im, f, c) == 0,
        line_error(line, cm) is None,
{
}

/// Law: a fragment on a chromosome absent from the region set contributes
/// zero counts anywhere, whatever else the line holds. Its coordinates are
/// still parsed: a malformed one remains the fatal error.
pub proof fn lemma_unknown_chromosome_contributes_nothing(
    line: Seq<u8>,
    cm: Map<Seq<u8>, int>,
    im: Seq<(Seq<u8>, Seq<(u32, u32, usize)>)>,
)
    requires
        assoc_find(im, spec_split(line, 9)[0]) is None,
    ensures
        forall|f: int, c: int| line_delta(line, cm, im, f, c) == 0,
{
}


/// Law: an index built from a region list fits the count structure sized by
/// that list's feature count: every feature id its entries store lies below
/// the total, whatever order each entry keeps its intervals in.
pub proof fn lemma_built_index_fits(
    im: Seq<(Seq<u8>, Seq<(u32, u32, usize)>)>,
    lines: Seq<Seq<u8>>,
    grouped: bool,
)
    requires
        im.len() == crate::regions::regions_model(lines, grouped).chroms.len(),
        forall|i: int|
            0 <= i < im.len() ==> (#[trigger] im[i]).1.to_multiset() == crate::regions::regions_model(
                lines,
                grouped,
            ).chroms[i].1.to_multiset(),
    ensures
        index_ids_below(
            im,
            crate::regions::model_total(crate::regions::regions_model(lines, grouped)) as int,
        ),
{
    crate::regions::lemma_model_ids_below(lines, grouped);
    lemma_index_ids_below(
        im,
        crate::regions::regions_model(lines, grouped).chroms,
        crate::regions::model_total(crate::regions::regions_model(lines, grouped)) as int,
    );
}

} // verus!
