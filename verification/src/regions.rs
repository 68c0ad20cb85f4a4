//! The feature index builder: parses the tab-separated region list line by
//! line, skipping malformed lines, assigns feature ids, collects the feature
//! labels, and gathers one interval list per chromosome. In ungrouped mode
//! every accepted line is its own feature, labelled `chrom-start-end`; in
//! grouped mode the fourth column names the feature, ids follow the order of
//! first appearance, and each name is labelled once.

use vstd::prelude::*;
use vstd::slice::slice_to_vec;
use crate::bytes::{spec_split, spec_parse_u32, split_fields, parse_u32, dec_rep, u64_dec, TAB,
    bytes_eq, views_of};
use crate::index::FeatureIndex;

verus! {

/// What the builder accumulates, as mathematical values: the labels written
/// so far, the group names in order of first appearance, and per-chromosome
/// interval lists in order of first appearance.
pub ghost struct RegionsModel {
    /// Feature labels, in feature-id order (ungrouped mode).
    pub labels: Seq<Seq<u8>>,
    /// Group names in order of first appearance (grouped mode).
    pub groups: Seq<Seq<u8>>,
    /// Chromosome name to its `(start, end, feature_id)` intervals.
    pub chroms: Seq<(Seq<u8>, Seq<(u32, u32, usize)>)>,
}

/// The label of an ungrouped region: `chrom-start-end`.
pub open spec fn region_label(chrom: Seq<u8>, s: u32, e: u32) -> Seq<u8> {
    chrom + seq![45u8] + dec_rep(s as nat) + seq![45u8] + dec_rep(e as nat)
}

/// Appends an interval to its chromosome's list, creating the entry at the
/// back on first sight of the chromosome.
pub open spec fn assoc_push(
    v: Seq<(Seq<u8>, Seq<(u32, u32, usize)>)>,
    k: Seq<u8>,
    iv: (u32, u32, usize),
) -> Seq<(Seq<u8>, Seq<(u32, u32, usize)>)> {
    if exists|j: int| 0 <= j < v.len() && (#[trigger] v[j]).0 == k {
        let j = choose|j: int| 0 <= j < v.len() && (#[trigger] v[j]).0 == k;
        v.update(j, (k, v[j].1.push(iv)))
    } else {
        v.push((k, seq![iv]))
    }
}

/// A region line that passes validation: at least three fields, both
/// coordinates well-formed; grouped mode also needs the fourth field.
pub open spec fn region_line_ok(line: Seq<u8>, grouped: bool) -> bool {
    let fields = spec_split(line, 9);
    &&& fields.len() >= 3
    &&& spec_parse_u32(fields[1]) is Some
    &&& spec_parse_u32(fields[2]) is Some
    &&& (grouped ==> fields.len() >= 4)
}

/// One region line's effect on the accumulated model: a malformed line
/// changes nothing; an accepted ungrouped line becomes the next feature and
/// its label; an accepted grouped line reuses its group's feature id, or
/// makes the group the next feature and its label on first sight.
pub open spec fn region_step(m: RegionsModel, line: Seq<u8>, grouped: bool) -> RegionsModel {
    let fields = spec_split(line, 9);
    if !region_line_ok(line, grouped) {
        m
    } else {
        let s = spec_parse_u32(fields[1]).unwrap();
        let e = spec_parse_u32(fields[2]).unwrap();
        if grouped {
            let g = fields[3];
            if m.groups.contains(g) {
                let fid = m.groups.index_of(g);
                RegionsModel {
                    labels: m.labels,
                    groups: m.groups,
                    chroms: assoc_push(m.chroms, fields[0], (s, e, fid as usize)),
                }
            } else {
                let fid = m.groups.len();
                RegionsModel {
                    labels: m.labels.push(g),
                    groups: m.groups.push(g),
                    chroms: assoc_push(m.chroms, fields[0], (s, e, fid as usize)),
                }
            }
        } else {
            let fid = m.labels.len();
            RegionsModel {
                labels: m.labels.push(region_label(fields[0], s, e)),
                groups: m.groups,
                chroms: assoc_push(m.chroms, fields[0], (s, e, fid as usize)),
            }
        }
    }
}

/// The empty model.
pub open spec fn regions_empty() -> RegionsModel {
    RegionsModel {
        labels: Seq::empty(),
        groups: Seq::empty(),
        chroms: Seq::empty(),
    }
}

/// The model after reading the given lines in order.
pub open spec fn regions_model(lines: Seq<Seq<u8>>, grouped: bool) -> RegionsModel
    decreases lines.len(),
{
    if lines.len() == 0 {
        regions_empty()
    } else {
        region_step(regions_model(lines.drop_last(), grouped), lines.last(), grouped)
    }
}

/// The total feature count of a model: labels written, one per feature.
pub open spec fn model_total(m: RegionsModel) -> nat {
    m.labels.len()
}

/// The builder.
pub struct RegionSetBuilder {
    grouped: bool,
    labels: Vec<Vec<u8>>,
    groups: Vec<Vec<u8>>,
    chroms: Vec<(Vec<u8>, Vec<(u32, u32, usize)>)>,
}

impl RegionSetBuilder {
    /// The accumulated model.
    pub closed spec fn view(&self) -> RegionsModel {
        RegionsModel {
            labels: self.labels@.map_values(|l: Vec<u8>| l@),
            groups: self.groups@.map_values(|g: Vec<u8>| g@),
            chroms: self.chroms@.map_values(
                |p: (Vec<u8>, Vec<(u32, u32, usize)>)| (p.0@, p.1@),
            ),
        }
    }

    /// Which mode the builder was made for.
    pub closed spec fn is_grouped(&self) -> bool {
        self.grouped
    }

    /// No chromosome entry and no group name stored twice, and in grouped
    /// mode the labels are the group names.
    pub closed spec fn wf(&self) -> bool {
        &&& forall|a: int, b: int|
            0 <= a < b < self@.chroms.len() ==> self@.chroms[a].0 != self@.chroms[b].0
        &&& forall|a: int, b: int|
            0 <= a < b < self@.groups.len() ==> self@.groups[a] != self@.groups[b]
        &&& (self.grouped ==> self@.labels == self@.groups)
    }

    /// A fresh builder holding the empty model.
    pub fn new(grouped: bool) -> (r: RegionSetBuilder)
        ensures
            r@ == regions_empty(),
            r.wf(),
            r.is_grouped() == grouped,
    {
        let r = RegionSetBuilder {
            grouped,
            labels: Vec::new(),
            groups: Vec::new(),
            chroms: Vec::new(),
        };
        proof {
            assert(r@.labels =~= Seq::<Seq<u8>>::empty());
            assert(r@.groups =~= Seq::<Seq<u8>>::empty());
            assert(r@.chroms =~= Seq::<(Seq<u8>, Seq<(u32, u32, usize)>)>::empty());
        }
        r
    }

    /// Index of the entry of a chromosome, by linear scan.
    fn chrom_position(&self, chrom: &[u8]) -> (r: Option<usize>)
        ensures
            match r {
                Some(i) => i < self@.chroms.len() && self@.chroms[i as int].0 == chrom@,
                None => forall|j: int|
                    0 <= j < self@.chroms.len() ==> (#[trigger] self@.chroms[j]).0 != chrom@,
            },
    {
        let n = self.chroms.len();
        let mut i: usize = 0;
        while i < n
            invariant
                n == self.chroms@.len(),
                n == self@.chroms.len(),
                0 <= i <= n,
                forall|j: int| 0 <= j < i ==> (#[trigger] self@.chroms[j]).0 != chrom@,
            decreases n - i,
        {
            if bytes_eq(self.chroms[i].0.as_slice(), chrom) {
                proof {
                    assert(self@.chroms[i as int].0 == chrom@);
                }
                return Some(i);
            }
            proof {
                assert(self@.chroms[i as int].0 == self.chroms@[i as int].0@);
            }
            i += 1;
        }
        None
    }

    /// Index of a group name, by linear scan.
    fn group_position(&self, g: &[u8]) -> (r: Option<usize>)
        ensures
            match r {
                Some(i) => i < self@.groups.len() && self@.groups[i as int] == g@,
                None => forall|j: int|
                    0 <= j < self@.groups.len() ==> (#[trigger] self@.groups[j]) != g@,
            },
    {
        let n = self.groups.len();
        let mut i: usize = 0;
        while i < n
            invariant
                n == self.groups@.len(),
                n == self@.groups.len(),
                0 <= i <= n,
                forall|j: int| 0 <= j < i ==> (#[trigger] self@.groups[j]) != g@,
            decreases n - i,
        {
            if bytes_eq(self.groups[i].as_slice(), g) {
                proof {
                    assert(self@.groups[i as int] == g@);
                }
                return Some(i);
            }
            proof {
                assert(self@.groups[i as int] == self.groups@[i as int]@);
            }
            i += 1;
        }
        None
    }

    /// Appends one interval under its chromosome.
    fn push_interval(&mut self, chrom: &[u8], iv: (u32, u32, usize))
        requires
            old(self).wf(),
        ensures
            final(self).wf(),
            final(self)@.chroms == assoc_push(old(self)@.chroms, chrom@, iv),
            final(self)@.labels == old(self)@.labels,
            final(self)@.groups == old(self)@.groups,
            final(self).is_grouped() == old(self).is_grouped(),
    {
        let ghost oldc = self@.chroms;
        match self.chrom_position(chrom) {
            Some(pos) => {
                let mut tmp: (Vec<u8>, Vec<(u32, u32, usize)>) = (Vec::new(), Vec::new());
                self.chroms.set_and_swap(pos, &mut tmp);
                let (name, mut ivs) = tmp;
                ivs.push(iv);
                let mut tmp2 = (name, ivs);
                self.chroms.set_and_swap(pos, &mut tmp2);
                proof {
                    let j = choose|j: int| 0 <= j < oldc.len() && (#[trigger] oldc[j]).0 == chrom@;
                    assert(j == pos) by {
                        if j != pos {
                            assert(oldc[j].0 == oldc[pos as int].0);
                        }
                    }
                    assert(self@.chroms =~= oldc.update(
                        pos as int,
                        (chrom@, oldc[pos as int].1.push(iv)),
                    ));
                    assert(self@.chroms == assoc_push(oldc, chrom@, iv));
                    assert(self@.groups == old(self)@.groups);
                    assert(self@.labels == old(self)@.labels);
                    assert(self.grouped == old(self).grouped);
                    assert(self.wf()) by {
                        assert(forall|a: int|
                            0 <= a < self@.chroms.len() ==> (#[trigger] self@.chroms[a]).0
                                == oldc[a].0);
                    }
                }
            },
            None => {
                let name = slice_to_vec(chrom);
                let mut ivs: Vec<(u32, u32, usize)> = Vec::new();
                ivs.push(iv);
                self.chroms.push((name, ivs));
                proof {
                    assert(ivs@ =~= seq![iv]);
                    assert(self@.chroms =~= oldc.push((chrom@, seq![iv])));
                    assert(self@.chroms == assoc_push(oldc, chrom@, iv));
                    assert(self@.groups == old(self)@.groups);
                    assert(self@.labels == old(self)@.labels);
                    assert(self.grouped == old(self).grouped);
                    assert(self.wf()) by {
                        assert(forall|a: int|
                            0 <= a < oldc.len() ==> (#[trigger] self@.chroms[a]) == oldc[a]);
                        assert(self@.chroms[oldc.len() as int].0 == chrom@);
                    }
                }
            },
        }
    }

    /// Reads one region line into the builder, exactly as `region_step`
    /// describes it; a malformed line is skipped.
    pub fn add_line(&mut self, line: &[u8])
        requires
            old(self).wf(),
        ensures
            final(self).wf(),
            final(self)@ == region_step(old(self)@, line@, old(self).is_grouped()),
            final(self).is_grouped() == old(self).is_grouped(),
    {
        let ghost m0 = self@;
        let ghost fs = spec_split(line@, 9);
        let fields = split_fields(line, TAB);
        proof {
            assert(fields@.map_values(|f: Vec<u8>| f@) == fs);
        }
        if fields.len() < 3 {
            return ;
        }
        let s = match parse_u32(fields[1].as_slice()) {
            Some(v) => v,
            None => {
                return ;
            },
        };
        let e = match parse_u32(fields[2].as_slice()) {
            Some(v) => v,
            None => {
                return ;
            },
        };
        if self.grouped {
            if fields.len() < 4 {
                return ;
            }
            match self.group_position(fields[3].as_slice()) {
                Some(gi) => {
                    proof {
                        assert(m0.groups.contains(fs[3])) by {
                            assert(m0.groups[gi as int] == fs[3]);
                        }
                        assert(m0.groups.index_of(fs[3]) == gi as int) by {
                            let w = m0.groups.index_of(fs[3]);
                            if w != gi as int {
                                assert(m0.groups[w] == m0.groups[gi as int]);
                            }
                        }
                    }
                    self.push_interval(fields[0].as_slice(), (s, e, gi));
                },
                None => {
                    let gi = self.groups.len();
                    let gname = slice_to_vec(fields[3].as_slice());
                    let gname2 = slice_to_vec(fields[3].as_slice());
                    proof {
                        assert(!m0.groups.contains(fs[3]));
                    }
                    self.groups.push(gname);
                    self.labels.push(gname2);
                    proof {
                        assert(self@.groups =~= m0.groups.push(fs[3]));
                        assert(self@.labels =~= m0.labels.push(fs[3]));
                        assert(self.wf()) by {
                            assert(forall|a: int|
                                0 <= a < m0.groups.len() ==> (#[trigger] self@.groups[a])
                                    == m0.groups[a]);
                        }
                    }
                    self.push_interval(fields[0].as_slice(), (s, e, gi));
                },
            }
        } else {
            let fid = self.labels.len();
            let label = make_label(fields[0].as_slice(), s, e);
            self.labels.push(label);
            proof {
                assert(self@.labels =~= m0.labels.push(region_label(fs[0], s, e)));
            }
            self.push_interval(fields[0].as_slice(), (s, e, fid));
        }
    }

    /// The feature count so far: labels written, one per feature.
    pub fn total(&self) -> (r: usize)
        ensures
            r == model_total(self@),
    {
        self.labels.len()
    }

    /// Hands out the labels, in feature-id order, and the finished index:
    /// the index has one entry per chromosome, in order of first appearance,
    /// each holding a permutation of the intervals gathered for it.
    pub fn finish(self) -> (r: (Vec<Vec<u8>>, FeatureIndex))
        ensures
            r.0@.map_values(|l: Vec<u8>| l@) == self@.labels,
            r.1@.len() == self@.chroms.len(),
            forall|i: int|
                0 <= i < self@.chroms.len() ==> r.1@[i].0 == self@.chroms[i].0
                    && r.1@[i].1.to_multiset() == self@.chroms[i].1.to_multiset(),
    {
        let RegionSetBuilder { grouped, labels, groups, chroms } = self;
        let index = FeatureIndex::from_regions(chroms);
        (labels, index)
    }
}

/// Builds the label `chrom-start-end` of an ungrouped region.
fn make_label(chrom: &[u8], s: u32, e: u32) -> (r: Vec<u8>)
    ensures
        r@ == region_label(chrom@, s, e),
{
    let mut out = slice_to_vec(chrom);
    out.push(45);
    let mut ds = u64_dec(s as u64);
    out.append(&mut ds);
    out.push(45);
    let mut de = u64_dec(e as u64);
    out.append(&mut de);
    proof {
        assert(out@ =~= region_label(chrom@, s, e));
    }
    out
}


/// The number of region lines that pass validation.
pub open spec fn count_valid(lines: Seq<Seq<u8>>, grouped: bool) -> nat
    decreases lines.len(),
{
    if lines.len() == 0 {
        0
    } else {
        count_valid(lines.drop_last(), grouped) + if region_line_ok(lines.last(), grouped) {
            1nat
        } else {
            0nat
        }
    }
}

/// The group field of a region line.
pub open spec fn line_group(line: Seq<u8>) -> Seq<u8> {
    spec_split(line, 9)[3]
}

/// Law: in ungrouped mode the feature count equals the number of region
/// lines that pass validation.
pub proof fn lemma_feature_count_ungrouped(lines: Seq<Seq<u8>>)
    ensures
        model_total(regions_model(lines, false)) == count_valid(lines, false),
    decreases lines.len(),
{
    if lines.len() > 0 {
        lemma_feature_count_ungrouped(lines.drop_last());
    }
}

/// Law: in grouped mode the labels are the group names of the validated
/// lines, without repetition, in order of first appearance: the feature
/// count is the number of distinct valid group names.
pub proof fn lemma_feature_count_grouped(lines: Seq<Seq<u8>>)
    ensures
        regions_model(lines, true).labels == regions_model(lines, true).groups,
        regions_model(lines, true).groups.no_duplicates(),
        forall|g: Seq<u8>|
            regions_model(lines, true).groups.contains(g) <==> exists|i: int|
                0 <= i < lines.len() && region_line_ok(#[trigger] lines[i], true) && line_group(
                    lines[i],
                ) == g,
    decreases lines.len(),
{
    if lines.len() == 0 {
        assert forall|g: Seq<u8>|
            regions_model(lines, true).groups.contains(g) <==> exists|i: int|
                0 <= i < lines.len() && region_line_ok(#[trigger] lines[i], true) && line_group(
                    lines[i],
                ) == g by {
            assert(!regions_model(lines, true).groups.contains(g));
        }
    } else {
        let t = lines.drop_last();
        let last = lines.last();
        lemma_feature_count_grouped(t);
        let m = regions_model(t, true);
        let m2 = regions_model(lines, true);
        assert(forall|i: int| 0 <= i < t.len() ==> t[i] == lines[i]);
        assert forall|g: Seq<u8>|
            m2.groups.contains(g) <==> exists|i: int|
                0 <= i < lines.len() && region_line_ok(#[trigger] lines[i], true) && line_group(
                    lines[i],
                ) == g by {
            if m2.groups.contains(g) {
                if m.groups.contains(g) {
                    let i = choose|i: int|
                        0 <= i < t.len() && region_line_ok(#[trigger] t[i], true) && line_group(
                            t[i],
                        ) == g;
                    assert(region_line_ok(lines[i], true) && line_group(lines[i]) == g);
                } else {
                    assert(region_line_ok(last, true) && line_group(last) == g) by {
                        let w = choose|w: int| 0 <= w < m2.groups.len() && m2.groups[w] == g;
                        assert(m2.groups == m.groups.push(g) || m2.groups == m.groups);
                        if m2.groups == m.groups.push(line_group(last)) {
                            if w < m.groups.len() {
                                assert(m.groups.contains(g)) by {
                                    assert(m.groups[w] == g);
                                }
                            }
                        }
                    }
                    assert(lines[lines.len() - 1] == last);
                }
            }
            if exists|i: int|
                0 <= i < lines.len() && region_line_ok(#[trigger] lines[i], true) && line_group(
                    lines[i],
                ) == g {
                let i = choose|i: int|
                    0 <= i < lines.len() && region_line_ok(#[trigger] lines[i], true) && line_group(
                        lines[i],
                    ) == g;
                if i < t.len() {
                    assert(region_line_ok(t[i], true) && line_group(t[i]) == g);
                    assert(m.groups.contains(g));
                    let w = choose|w: int| 0 <= w < m.groups.len() && m.groups[w] == g;
                    if m2.groups == m.groups {
                        assert(m2.groups[w] == g);
                    } else {
                        assert(m2.groups[w] == g);
                    }
                } else {
                    assert(lines[i] == last);
                    if m.groups.contains(line_group(last)) {
                        let w = choose|w: int| 0 <= w < m.groups.len() && m.groups[w] == g;
                        assert(m2.groups[w] == g);
                    } else {
                        assert(m2.groups == m.groups.push(g));
                        assert(m2.groups[m.groups.len() as int] == g);
                    }
                }
            }
        }
        assert(m2.groups.no_duplicates()) by {
            if region_line_ok(last, true) && !m.groups.contains(line_group(last)) {
                assert(m2.groups == m.groups.push(line_group(last)));
                assert(forall|a: int| 0 <= a < m.groups.len() ==> m2.groups[a] == m.groups[a]);
            }
        }
    }
}

/// Every feature id a model stores lies below its feature count.
pub open spec fn model_ids_below(m: RegionsModel) -> bool {
    forall|j: int, t: int|
        0 <= j < m.chroms.len() && 0 <= t < m.chroms[j].1.len() ==> (#[trigger] m.chroms[j].1[t]).2
            < model_total(m)
}

/// No chromosome entry stored twice.
pub open spec fn model_chroms_unique(m: RegionsModel) -> bool {
    forall|a: int, b: int| 0 <= a < b < m.chroms.len() ==> m.chroms[a].0 != m.chroms[b].0
}

/// One step keeps every stored feature id below the feature count.
proof fn lemma_step_invariants(m: RegionsModel, line: Seq<u8>, grouped: bool)
    requires
        model_ids_below(m),
        model_chroms_unique(m),
        grouped ==> m.labels == m.groups,
    ensures
        model_ids_below(region_step(m, line, grouped)),
        model_chroms_unique(region_step(m, line, grouped)),
        grouped ==> region_step(m, line, grouped).labels == region_step(m, line, grouped).groups,
{
    let m2 = region_step(m, line, grouped);
    if region_line_ok(line, grouped) {
        let fields = spec_split(line, 9);
        let k = fields[0];
        let c = m.chroms;
        let c2 = m2.chroms;
        let fid: int = if grouped {
            if m.groups.contains(fields[3]) {
                m.groups.index_of(fields[3])
            } else {
                m.groups.len() as int
            }
        } else {
            m.labels.len() as int
        };
        assert(model_total(m) <= model_total(m2));
        assert(0 <= fid < model_total(m2)) by {
            if grouped && m.groups.contains(fields[3]) {
                assert(m.groups[m.groups.index_of(fields[3])] == fields[3]);
            }
        }
        assert forall|j: int, t: int|
            0 <= j < c2.len() && 0 <= t < c2[j].1.len() implies (#[trigger] c2[j].1[t]).2
            < model_total(m2) by {
            if exists|j: int| 0 <= j < c.len() && (#[trigger] c[j]).0 == k {
                let j0 = choose|j: int| 0 <= j < c.len() && (#[trigger] c[j]).0 == k;
                assert forall|j1: int, j2: int|
                    0 <= j1 < c.len() && 0 <= j2 < c.len() && c[j1].0 == k && c[j2].0 == k
                    implies j1 == j2 by {
                    if j1 < j2 {
                        assert(c[j1].0 != c[j2].0);
                    }
                    if j2 < j1 {
                        assert(c[j2].0 != c[j1].0);
                    }
                }
                assert(c2 == c.update(j0, (k, c[j0].1.push((
                    spec_parse_u32(fields[1]).unwrap(),
                    spec_parse_u32(fields[2]).unwrap(),
                    fid as usize,
                )))));
                if j == j0 {
                    if t < c[j0].1.len() {
                        assert(c2[j].1[t] == c[j0].1[t]);
                    } else {
                        assert(c2[j].1[t].2 == fid as usize);
                    }
                } else {
                    assert(c2[j] == c[j]);
                }
            } else {
                if j < c.len() {
                    assert(c2[j] == c[j]);
                } else {
                    assert(c2[j].1[t].2 == fid as usize);
                }
            }
        }
        assert(model_chroms_unique(m2)) by {
            if exists|j: int| 0 <= j < c.len() && (#[trigger] c[j]).0 == k {
                let j0 = choose|j: int| 0 <= j < c.len() && (#[trigger] c[j]).0 == k;
                assert(forall|a: int|
                    0 <= a < c2.len() ==> (#[trigger] c2[a]).0 == c[a].0);
            } else {
                assert(forall|a: int| 0 <= a < c.len() ==> (#[trigger] c2[a]) == c[a]);
                assert(c2[c.len() as int].0 == k);
            }
        }
    }
}

/// Law: every feature id the builder stores lies below the feature count,
/// so the count structure sized by the feature count admits every stored id;
/// and in grouped mode the labels are exactly the group names.
pub proof fn lemma_model_ids_below(lines: Seq<Seq<u8>>, grouped: bool)
    ensures
        model_ids_below(regions_model(lines, grouped)),
        model_chroms_unique(regions_model(lines, grouped)),
        grouped ==> regions_model(lines, grouped).labels == regions_model(lines, grouped).groups,
    decreases lines.len(),
{
    if lines.len() > 0 {
        lemma_model_ids_below(lines.drop_last(), grouped);
        lemma_step_invariants(regions_model(lines.drop_last(), grouped), lines.last(), grouped);
    }
}


/// Reads the whole region list in order: the feature count, the labels in
/// feature-id order, and the finished per-chromosome index, whose entries
/// hold a permutation of the intervals gathered for each chromosome.
pub fn peak_intervals(lines: &Vec<Vec<u8>>, grouped: bool) -> (r: (usize, Vec<Vec<u8>>, FeatureIndex))
    ensures
        r.0 == model_total(regions_model(views_of(lines@), grouped)),
        r.1@.map_values(|l: Vec<u8>| l@) == regions_model(
            views_of(lines@),
            grouped,
        ).labels,
        r.2@.len() == regions_model(views_of(lines@), grouped).chroms.len(),
        forall|i: int|
            0 <= i < r.2@.len() ==> (#[trigger] r.2@[i]).0 == regions_model(
                views_of(lines@),
                grouped,
            ).chroms[i].0 && r.2@[i].1.to_multiset() == regions_model(
                views_of(lines@),
                grouped,
            ).chroms[i].1.to_multiset(),
{
    let ghost lv = views_of(lines@);
    let mut builder = RegionSetBuilder::new(grouped);
    let n = lines.len();
    let mut i: usize = 0;
    proof {
        assert(lv.take(0) =~= Seq::<Seq<u8>>::empty());
    }
    while i < n
        invariant
            n == lines@.len(),
            lv == views_of(lines@),
            0 <= i <= n,
            builder.wf(),
            builder.is_grouped() == grouped,
            builder@ == regions_model(lv.take(i as int), grouped),
        decreases n - i,
    {
        proof {
            assert(lv[i as int] == lines@[i as int]@);
            assert(lv.take(i + 1).drop_last() =~= lv.take(i as int));
            assert(lv.take(i + 1).last() == lv[i as int]);
        }
        builder.add_line(lines[i].as_slice());
        i += 1;
    }
    proof {
        assert(lv.take(n as int) =~= lv);
    }
    let total = builder.total();
    let (labels, index) = builder.finish();
    (total, labels, index)
}

} // verus!
