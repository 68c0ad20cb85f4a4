//! The per-chromosome feature index. Each chromosome's regions are held in
//! an interval structure of the `rust_lapper` crate; the index maps a
//! chromosome name to the sequence of intervals `(start, end, feature_id)`
//! that structure stores, and answers overlap queries against it.

use vstd::prelude::*;
use crate::bytes::bytes_eq;

verus! {

/// One chromosome's interval structure, a `rust_lapper::Lapper` over
/// `(start, end, feature_id)` intervals. The lapper's own trait bounds keep
/// its type from being declared to the verifier directly, so it is held
/// opaquely here and spoken of through `lapper_seq`.
#[verifier::external_body]
pub struct ChromLapper {
    inner: rust_lapper::Lapper<u32, usize>,
}

/// The intervals a lapper stores, in its internal (sorted) order, each as
/// `(start, end, feature_id)`.
pub uninterp spec fn lapper_seq(l: ChromLapper) -> Seq<(u32, u32, usize)>;

/// True when the interval `[iv.0, iv.1)` intersects the query `[start, stop)`.
pub open spec fn query_overlaps(iv: (u32, u32, usize), start: u32, stop: u32) -> bool {
    iv.0 < stop && iv.1 > start
}

/// The intervals of `ivs` that intersect the query `[start, stop)`, in order.
pub open spec fn overlap_filter(ivs: Seq<(u32, u32, usize)>, start: u32, stop: u32) -> Seq<
    (u32, u32, usize),
> {
    ivs.filter(|iv: (u32, u32, usize)| query_overlaps(iv, start, stop))
}

/// The intervals of `ivs` that cover the single position `p`, in order.
pub open spec fn point_hits(ivs: Seq<(u32, u32, usize)>, p: u32) -> Seq<(u32, u32, usize)> {
    ivs.filter(|iv: (u32, u32, usize)| iv.0 <= p && iv.1 > p)
}

/// Below the largest coordinate, the one-wide query `[p, p + 1)` finds
/// exactly the intervals covering the position `p`.
pub proof fn lemma_point_query(ivs: Seq<(u32, u32, usize)>, p: u32)
    requires
        p < u32::MAX,
    ensures
        overlap_filter(ivs, p, (p + 1) as u32) == point_hits(ivs, p),
{
    assert((|iv: (u32, u32, usize)| query_overlaps(iv, p, (p + 1) as u32)) =~= (|iv: (
        u32,
        u32,
        usize,
    )| iv.0 <= p && iv.1 > p));
}

/// No interval covers the largest coordinate: an interval's exclusive end
/// can never exceed it.
pub proof fn lemma_point_hits_max(ivs: Seq<(u32, u32, usize)>)
    ensures
        point_hits(ivs, u32::MAX) == Seq::<(u32, u32, usize)>::empty(),
{
    crate::seqext::lemma_filter_none(ivs, |iv: (u32, u32, usize)| iv.0 <= u32::MAX && iv.1 > u32::MAX);
}

/// What `assoc_find` returns is one of the bound values.
pub proof fn lemma_assoc_find_entry<T>(v: Seq<(Seq<u8>, T)>, k: Seq<u8>)
    requires
        assoc_find(v, k) is Some,
    ensures
        exists|j: int|
            0 <= j < v.len() && (#[trigger] v[j]).0 == k && v[j].1 == assoc_find(v, k).unwrap(),
    decreases v.len(),
{
    if v.len() > 0 {
        if v[0].0 == k {
        } else {
            lemma_assoc_find_entry(v.drop_first(), k);
            let j = choose|j: int|
                0 <= j < v.drop_first().len() && (#[trigger] v.drop_first()[j]).0 == k
                    && v.drop_first()[j].1 == assoc_find(v.drop_first(), k).unwrap();
            assert(v[j + 1].0 == k && v[j + 1].1 == assoc_find(v, k).unwrap());
        }
    }
}

/// Relies on `rust_lapper::Lapper::new`: the lapper stores exactly the given
/// intervals, sorted, so its contents are a permutation of the input.
#[verifier::external_body]
fn lapper_new(ivs: Vec<(u32, u32, usize)>) -> (r: ChromLapper)
    ensures
        lapper_seq(r).to_multiset() == ivs@.to_multiset(),
{
    ChromLapper {
        inner: rust_lapper::Lapper::new(
            ivs.into_iter().map(
                |t| rust_lapper::Interval { start: t.0, stop: t.1, val: t.2 },
            ).collect(),
        ),
    }
}

/// Relies on `rust_lapper::Lapper::find`: it yields, in the lapper's stored
/// order, exactly the stored intervals with `start < stop_q && stop > start_q`.
#[verifier::external_body]
fn lapper_find(l: &ChromLapper, start: u32, stop: u32) -> (r: Vec<(u32, u32, usize)>)
    ensures
        r@ == overlap_filter(lapper_seq(*l), start, stop),
{
    l.inner.find(start, stop).map(|iv| (iv.start, iv.stop, iv.val)).collect()
}

/// First value bound to the key `k` in an association sequence.
pub open spec fn assoc_find<T>(v: Seq<(Seq<u8>, T)>, k: Seq<u8>) -> Option<T>
    decreases v.len(),
{
    if v.len() == 0 {
        None
    } else if v[0].0 == k {
        Some(v[0].1)
    } else {
        assoc_find(v.drop_first(), k)
    }
}

/// The feature index: one interval structure per chromosome name.
pub struct FeatureIndex {
    entries: Vec<(Vec<u8>, ChromLapper)>,
}

impl FeatureIndex {
    /// The index as an association sequence from chromosome name to the
    /// stored intervals of that chromosome.
    pub closed spec fn view(&self) -> Seq<(Seq<u8>, Seq<(u32, u32, usize)>)> {
        self.entries@.map_values(|p: (Vec<u8>, ChromLapper)| (p.0@, lapper_seq(p.1)))
    }

    /// Builds the index from finished per-chromosome interval lists: one
    /// entry per input pair, same names in the same order, and each entry's
    /// stored intervals a permutation of the intervals given for it.
    pub fn from_regions(chroms: Vec<(Vec<u8>, Vec<(u32, u32, usize)>)>) -> (r: FeatureIndex)
        ensures
            r@.len() == chroms@.len(),
            forall|i: int|
                0 <= i < chroms@.len() ==> r@[i].0 == chroms@[i].0@ && r@[i].1.to_multiset()
                    == chroms@[i].1@.to_multiset(),
    {
        let mut rest = chroms;
        let mut entries: Vec<(Vec<u8>, ChromLapper)> = Vec::new();
        let ghost cv = rest@;
        while rest.len() > 0
            invariant
                entries@.len() + rest@.len() == cv.len(),
                forall|j: int|
                    0 <= j < entries@.len() ==> entries@[j].0@ == cv[j].0@ && lapper_seq(
                        entries@[j].1,
                    ).to_multiset() == cv[j].1@.to_multiset(),
                forall|j: int| 0 <= j < rest@.len() ==> rest@[j] == cv[entries@.len() + j],
            decreases rest@.len(),
        {
            let pair = rest.remove(0);
            let name = pair.0;
            let ivs = pair.1;
            let ghost k = entries@.len() as int;
            proof {
                assert(name@ == cv[k].0@);
                assert(ivs@ == cv[k].1@);
            }
            let lap = lapper_new(ivs);
            entries.push((name, lap));
        }
        let r = FeatureIndex { entries };
        proof {
            assert(forall|j: int|
                0 <= j < cv.len() ==> r@[j].0 == cv[j].0@ && r@[j].1 == lapper_seq(
                    r.entries@[j].1,
                ));
        }
        r
    }

    /// The intervals stored for a chromosome, or `None` when the index has
    /// no entry for it.
    pub open spec fn spec_lookup(&self, chrom: Seq<u8>) -> Option<Seq<(u32, u32, usize)>> {
        assoc_find(self@, chrom)
    }

    /// Queries the index: `None` when the chromosome is absent, otherwise
    /// every stored interval of that chromosome intersecting `[start, stop)`,
    /// in stored order.
    pub fn find_overlaps(&self, chrom: &[u8], start: u32, stop: u32) -> (r: Option<
        Vec<(u32, u32, usize)>,
    >)
        ensures
            r is Some <==> self.spec_lookup(chrom@) is Some,
            r is Some ==> r.unwrap()@ == overlap_filter(
                self.spec_lookup(chrom@).unwrap(),
                start,
                stop,
            ),
    {
        let n = self.entries.len();
        let mut i: usize = 0;
        proof {
            assert(self@.skip(0) =~= self@);
        }
        while i < n
            invariant
                n == self.entries@.len(),
                0 <= i <= n,
                assoc_find(self@, chrom@) == assoc_find(self@.skip(i as int), chrom@),
            decreases n - i,
        {
            proof {
                assert(self@.skip(i as int)[0] == self@[i as int]);
            }
            if bytes_eq(self.entries[i].0.as_slice(), chrom) {
                let found = lapper_find(&self.entries[i].1, start, stop);
                proof {
                    assert(self@[i as int].0 == chrom@);
                    assert(assoc_find(self@.skip(i as int), chrom@) == Some(self@[i as int].1));
                }
                return Some(found);
            }
            proof {
                assert(self@.skip(i as int).drop_first() =~= self@.skip(i + 1));
                assert(self@[i as int].0 != chrom@);
            }
            i += 1;
        }
        proof {
            assert(self@.skip(n as int) =~= Seq::<(Seq<u8>, Seq<(u32, u32, usize)>)>::empty());
        }
        None
    }

    /// Whether the index has an entry for the chromosome.
    pub fn contains_chrom(&self, chrom: &[u8]) -> (r: bool)
        ensures
            r == (self.spec_lookup(chrom@) is Some),
    {
        let n = self.entries.len();
        let mut i: usize = 0;
        proof {
            assert(self@.skip(0) =~= self@);
        }
        while i < n
            invariant
                n == self.entries@.len(),
                0 <= i <= n,
                assoc_find(self@, chrom@) == assoc_find(self@.skip(i as int), chrom@),
            decreases n - i,
        {
            proof {
                assert(self@.skip(i as int)[0] == self@[i as int]);
            }
            if bytes_eq(self.entries[i].0.as_slice(), chrom) {
                proof {
                    assert(self@[i as int].0 == chrom@);
                }
                return true;
            }
            proof {
                assert(self@.skip(i as int).drop_first() =~= self@.skip(i + 1));
                assert(self@[i as int].0 != chrom@);
            }
            i += 1;
        }
        proof {
            assert(self@.skip(n as int) =~= Seq::<(Seq<u8>, Seq<(u32, u32, usize)>)>::empty());
        }
        false
    }
}

} // verus!
