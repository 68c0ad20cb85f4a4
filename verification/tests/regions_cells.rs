use f2m::cells::CellTable;
use f2m::fragments::fcount;
use f2m::index::FeatureIndex;
use f2m::regions::peak_intervals;

fn lines(raw: &[&[u8]]) -> Vec<Vec<u8>> {
    raw.iter().map(|l| l.to_vec()).collect()
}

#[test]
fn malformed_region_lines_are_skipped() {
    let region_lines = lines(&[
        b"chr1\t100",             // too few fields
        b"chr1\tlow\t200",        // bad start
        b"chr1\t100\thigh",       // bad end
        b"chr1\t100\t200",        // good
    ]);
    let (total, labels, _index) = peak_intervals(&region_lines, false);
    assert_eq!(total, 1);
    assert_eq!(labels.len(), 1);
    assert_eq!(labels[0], b"chr1-100-200".to_vec());
}

#[test]
fn grouped_features_share_ids_and_labels() {
    let region_lines = lines(&[
        b"chr1\t100\t200\tpeakA",
        b"chr1\t500\t600\tpeakB",
        b"chr2\t100\t200\tpeakA",
        b"chr1\t900\t950",        // no group field: skipped in grouped mode
    ]);
    let (total, labels, index) = peak_intervals(&region_lines, true);
    assert_eq!(total, 2);
    assert_eq!(labels, lines(&[b"peakA", b"peakB"]));

    // both peakA regions count into feature 0
    let cells = CellTable::from_lines(&lines(&[b"AAA"]));
    let frag_lines = lines(&[b"chr1\t150\t160\tAAA", b"chr2\t150\t160\tAAA"]);
    let counts = fcount(&frag_lines, &cells, &index, total).unwrap();
    assert_eq!(counts.row_entries(0).iter().find(|p| p.0 == 0).map(|p| p.1), Some(4));
    assert_eq!(counts.row_entries(1).len(), 0);
}

#[test]
fn cell_columns_follow_file_order() {
    let cells = CellTable::from_lines(&lines(&[b"AAA", b"BBB", b"CCC"]));
    assert_eq!(cells.len(), 3);
    assert_eq!(cells.lookup(b"AAA"), Some(0));
    assert_eq!(cells.lookup(b"BBB"), Some(1));
    assert_eq!(cells.lookup(b"CCC"), Some(2));
    assert_eq!(cells.lookup(b"DDD"), None);
}

#[test]
fn duplicate_cell_keeps_last_index() {
    let cells = CellTable::from_lines(&lines(&[b"AAA", b"BBB", b"AAA"]));
    assert_eq!(cells.len(), 2);
    assert_eq!(cells.lookup(b"AAA"), Some(2));
    assert_eq!(cells.lookup(b"BBB"), Some(1));
}

#[test]
fn find_overlaps_filters_by_query() {
    let region_lines = lines(&[b"chr1\t100\t200", b"chr1\t150\t300", b"chr1\t500\t600"]);
    let (_total, _labels, index) = peak_intervals(&region_lines, false);
    let hits = index.find_overlaps(b"chr1", 160, 161).unwrap();
    let mut ids: Vec<usize> = hits.iter().map(|iv| iv.2).collect();
    ids.sort();
    assert_eq!(ids, vec![0, 1]);
    // half-open: the end coordinate itself is outside
    let at_end = index.find_overlaps(b"chr1", 200, 201).unwrap();
    let ids2: Vec<usize> = at_end.iter().map(|iv| iv.2).collect();
    assert_eq!(ids2, vec![1]);
    assert!(index.find_overlaps(b"chr9", 160, 161).is_none());
}

#[test]
fn empty_region_list_gives_empty_index() {
    let (total, labels, index) = peak_intervals(&Vec::new(), false);
    assert_eq!(total, 0);
    assert!(labels.is_empty());
    let index: FeatureIndex = index;
    assert!(!index.contains_chrom(b"chr1"));
}
