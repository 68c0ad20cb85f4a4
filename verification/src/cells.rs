//! The cell-identifier table: maps each allowed barcode to its 0-based
//! column, assigned by line number in the cell list. A duplicated barcode
//! keeps the index of its last occurrence, as repeated map insertion does.

use vstd::prelude::*;
use vstd::slice::slice_to_vec;
use crate::bytes::bytes_eq;

verus! {

/// The mapping induced by binding each key to its value, later pairs
/// overwriting earlier ones.
pub open spec fn entries_map(s: Seq<(Seq<u8>, int)>) -> Map<Seq<u8>, int>
    decreases s.len(),
{
    if s.len() == 0 {
        Map::empty()
    } else {
        entries_map(s.drop_last()).insert(s.last().0, s.last().1)
    }
}

/// The column of each identifier after reading the given lines in order:
/// line `i` binds its identifier to `i`, and a repeated identifier keeps
/// the last binding.
pub open spec fn cell_map(lines: Seq<Seq<u8>>) -> Map<Seq<u8>, int>
    decreases lines.len(),
{
    if lines.len() == 0 {
        Map::empty()
    } else {
        cell_map(lines.drop_last()).insert(lines.last(), lines.len() - 1)
    }
}

/// A key bound at a position of a duplicate-free pair list is in the map,
/// with that position's value.
proof fn lemma_entries_map_at(s: Seq<(Seq<u8>, int)>, i: int)
    requires
        forall|a: int, b: int| 0 <= a < b < s.len() ==> s[a].0 != s[b].0,
        0 <= i < s.len(),
    ensures
        entries_map(s).contains_key(s[i].0),
        entries_map(s)[s[i].0] == s[i].1,
    decreases s.len(),
{
    if i == s.len() - 1 {
    } else {
        assert(forall|a: int, b: int|
            0 <= a < b < s.drop_last().len() ==> s.drop_last()[a].0 != s.drop_last()[b].0);
        lemma_entries_map_at(s.drop_last(), i);
        assert(s.last().0 != s[i].0);
    }
}

/// A key bound nowhere in the pair list is not in the map.
proof fn lemma_entries_map_absent(s: Seq<(Seq<u8>, int)>, k: Seq<u8>)
    requires
        forall|a: int| 0 <= a < s.len() ==> (#[trigger] s[a]).0 != k,
    ensures
        !entries_map(s).contains_key(k),
    decreases s.len(),
{
    if s.len() > 0 {
        lemma_entries_map_absent(s.drop_last(), k);
    }
}

/// A duplicate-free pair list gives a map with one key per pair.
proof fn lemma_entries_map_card(s: Seq<(Seq<u8>, int)>)
    requires
        forall|a: int, b: int| 0 <= a < b < s.len() ==> s[a].0 != s[b].0,
    ensures
        entries_map(s).dom().finite(),
        entries_map(s).dom().len() == s.len(),
    decreases s.len(),
{
    if s.len() == 0 {
        assert(entries_map(s).dom() =~= Set::<Seq<u8>>::empty());
    } else {
        let t = s.drop_last();
        assert(forall|a: int, b: int| 0 <= a < b < t.len() ==> t[a].0 != t[b].0);
        lemma_entries_map_card(t);
        assert(forall|a: int| 0 <= a < t.len() ==> (#[trigger] t[a]).0 != s.last().0);
        lemma_entries_map_absent(t, s.last().0);
        assert(entries_map(s).dom() =~= entries_map(t).dom().insert(s.last().0));
    }
}

/// Overwriting the pair that holds a key rebinds just that key.
proof fn lemma_entries_map_update(s: Seq<(Seq<u8>, int)>, i: int, v: int)
    requires
        forall|a: int, b: int| 0 <= a < b < s.len() ==> s[a].0 != s[b].0,
        0 <= i < s.len(),
    ensures
        entries_map(s.update(i, (s[i].0, v))) =~= entries_map(s).insert(s[i].0, v),
    decreases s.len(),
{
    let k = s[i].0;
    let s2 = s.update(i, (k, v));
    if i == s.len() - 1 {
        assert(s2.drop_last() =~= s.drop_last());
        assert(s2.last() == (k, v));
    } else {
        assert(s2.drop_last() =~= s.drop_last().update(i, (k, v)));
        assert(s.drop_last()[i] == s[i]);
        assert(forall|a: int, b: int|
            0 <= a < b < s.drop_last().len() ==> s.drop_last()[a].0 != s.drop_last()[b].0);
        lemma_entries_map_update(s.drop_last(), i, v);
        assert(s2.last() == s.last());
        assert(s.last().0 != k);
        assert(entries_map(s2) =~= entries_map(s.drop_last()).insert(k, v).insert(
            s.last().0,
            s.last().1,
        ));
        assert(entries_map(s.drop_last()).insert(k, v).insert(s.last().0, s.last().1)
            =~= entries_map(s.drop_last()).insert(s.last().0, s.last().1).insert(k, v));
    }
}

/// The table from barcode to column.
pub struct CellTable {
    entries: Vec<(Vec<u8>, usize)>,
}

impl CellTable {
    /// The stored pairs, as mathematical values.
    pub closed spec fn kv(&self) -> Seq<(Seq<u8>, int)> {
        self.entries@.map_values(|p: (Vec<u8>, usize)| (p.0@, p.1 as int))
    }

    /// No barcode stored twice.
    pub closed spec fn wf(&self) -> bool {
        forall|a: int, b: int| 0 <= a < b < self.kv().len() ==> self.kv()[a].0 != self.kv()[b].0
    }

    /// The table as a map from barcode to column.
    pub closed spec fn view(&self) -> Map<Seq<u8>, int> {
        entries_map(self.kv())
    }

    /// Index of the entry holding `barcode`, by linear scan.
    fn position_of(&self, barcode: &[u8]) -> (r: Option<usize>)
        ensures
            match r {
                Some(i) => i < self.kv().len() && self.kv()[i as int].0 == barcode@,
                None => forall|j: int|
                    0 <= j < self.kv().len() ==> (#[trigger] self.kv()[j]).0 != barcode@,
            },
    {
        let n = self.entries.len();
        let mut i: usize = 0;
        while i < n
            invariant
                n == self.entries@.len(),
                n == self.kv().len(),
                0 <= i <= n,
                forall|j: int| 0 <= j < i ==> (#[trigger] self.kv()[j]).0 != barcode@,
            decreases n - i,
        {
            if bytes_eq(self.entries[i].0.as_slice(), barcode) {
                proof {
                    assert(self.kv()[i as int].0 == barcode@);
                }
                return Some(i);
            }
            proof {
                assert(self.kv()[i as int].0 == self.entries@[i as int].0@);
            }
            i += 1;
        }
        None
    }

    /// Builds the table from the lines of the cell list, in order: line `i`
    /// binds its barcode to column `i`, the last occurrence winning.
    pub fn from_lines(lines: &Vec<Vec<u8>>) -> (r: CellTable)
        ensures
            r.wf(),
            r@ == cell_map(lines@.map_values(|l: Vec<u8>| l@)),
    {
        let ghost lv = lines@.map_values(|l: Vec<u8>| l@);
        let mut table = CellTable { entries: Vec::new() };
        let n = lines.len();
        let mut i: usize = 0;
        proof {
            assert(table.kv() =~= Seq::<(Seq<u8>, int)>::empty());
            assert(table@ =~= cell_map(lv.take(0)));
        }
        while i < n
            invariant
                n == lines@.len(),
                lv == lines@.map_values(|l: Vec<u8>| l@),
                0 <= i <= n,
                table.wf(),
                table@ == cell_map(lv.take(i as int)),
            decreases n - i,
        {
            let key: Vec<u8> = slice_to_vec(lines[i].as_slice());
            let ghost old_kv = table.kv();
            proof {
                assert(key@ == lv[i as int]);
                assert(lv.take(i + 1).drop_last() =~= lv.take(i as int));
                assert(lv.take(i + 1).last() == lv[i as int]);
            }
            match table.position_of(key.as_slice()) {
                Some(pos) => {
                    table.entries.set(pos, (key, i));
                    proof {
                        assert(table.kv() =~= old_kv.update(
                            pos as int,
                            (old_kv[pos as int].0, i as int),
                        ));
                        lemma_entries_map_update(old_kv, pos as int, i as int);
                        assert(table.wf()) by {
                            assert(forall|a: int|
                                0 <= a < table.kv().len() ==> (#[trigger] table.kv()[a]).0
                                    == old_kv[a].0);
                        }
                        assert(table@ =~= cell_map(lv.take(i + 1)));
                    }
                },
                None => {
                    table.entries.push((key, i));
                    proof {
                        assert(table.kv() =~= old_kv.push((lv[i as int], i as int)));
                        assert(table.kv().drop_last() =~= old_kv);
                        assert(table.wf()) by {
                            assert(forall|a: int|
                                0 <= a < old_kv.len() ==> (#[trigger] table.kv()[a]) == old_kv[a]);
                        }
                        assert(table@ =~= cell_map(lv.take(i + 1)));
                    }
                },
            }
            i += 1;
        }
        proof {
            assert(lv.take(n as int) =~= lv);
        }
        table
    }

    /// The column bound to a barcode, or `None` when the barcode is not in
    /// the table.
    pub fn lookup(&self, barcode: &[u8]) -> (r: Option<usize>)
        requires
            self.wf(),
        ensures
            match r {
                Some(c) => self@.contains_key(barcode@) && self@[barcode@] == c as int,
                None => !self@.contains_key(barcode@),
            },
    {
        match self.position_of(barcode) {
            Some(i) => {
                let c = self.entries[i].1;
                proof {
                    lemma_entries_map_at(self.kv(), i as int);
                    assert(self.kv()[i as int].1 == c as int);
                }
                Some(c)
            },
            None => {
                proof {
                    lemma_entries_map_absent(self.kv(), barcode@);
                }
                None
            },
        }
    }

    /// The number of distinct barcodes: the column count of the matrix.
    pub fn len(&self) -> (r: usize)
        requires
            self.wf(),
        ensures
            r == self@.dom().len(),
            self@.dom().finite(),
    {
        proof {
            lemma_entries_map_card(self.kv());
        }
        self.entries.len()
    }
}

/// Law: when the cell list holds pairwise-distinct identifiers, column
/// assignment is a bijection between the identifiers and `0 .. N-1` in
/// file order: line `i` is bound to column `i`, and every bound column
/// arises from exactly that line.
pub proof fn lemma_cell_columns_bijective(lines: Seq<Seq<u8>>)
    requires
        forall|a: int, b: int| 0 <= a < b < lines.len() ==> lines[a] != lines[b],
    ensures
        forall|i: int|
            0 <= i < lines.len() ==> cell_map(lines).contains_key(#[trigger] lines[i])
                && cell_map(lines)[lines[i]] == i,
        forall|k: Seq<u8>|
            cell_map(lines).contains_key(k) ==> exists|i: int|
                0 <= i < lines.len() && lines[i] == k,
    decreases lines.len(),
{
    if lines.len() > 0 {
        let t = lines.drop_last();
        assert(forall|a: int, b: int| 0 <= a < b < t.len() ==> t[a] != t[b]);
        lemma_cell_columns_bijective(t);
        assert(forall|i: int| 0 <= i < t.len() ==> t[i] == lines[i]);
        assert(forall|i: int| 0 <= i < t.len() ==> lines[i] != lines.last());
        assert forall|k: Seq<u8>| cell_map(lines).contains_key(k) implies exists|i: int|
            0 <= i < lines.len() && lines[i] == k by {
            if k == lines.last() {
                assert(lines[lines.len() - 1] == k);
            } else {
                assert(cell_map(t).contains_key(k));
                let i = choose|i: int| 0 <= i < t.len() && t[i] == k;
                assert(lines[i] == k);
            }
        }
    }
}

} // verus!
