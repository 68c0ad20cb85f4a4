use f2m::cells::CellTable;
use f2m::counts::SparseCounts;
use f2m::fragments::{fcount, process_line, FragmentError};
use f2m::matrix::write_matrix_market;
use f2m::regions::peak_intervals;

fn lines(raw: &[&[u8]]) -> Vec<Vec<u8>> {
    raw.iter().map(|l| l.to_vec()).collect()
}

#[test]
fn two_regions_two_cells_scenario() {
    let region_lines = lines(&[b"chr1\t100\t200", b"chr1\t500\t600"]);
    let (total, labels, index) = peak_intervals(&region_lines, false);
    assert_eq!(total, 2);
    assert_eq!(labels[0], b"chr1-100-200".to_vec());
    assert_eq!(labels[1], b"chr1-500-600".to_vec());

    let cells = CellTable::from_lines(&lines(&[b"AAA", b"BBB"]));
    assert_eq!(cells.len(), 2);

    let frag_lines = lines(&[b"chr1\t150\t180\tAAA", b"chr1\t190\t210\tBBB"]);
    let counts = fcount(&frag_lines, &cells, &index, total).unwrap();

    // AAA is fully contained in the first region: both insertion sites count.
    assert_eq!(counts.row_entries(0).iter().find(|p| p.0 == 0).map(|p| p.1), Some(2));
    // BBB spans the first region's right edge: only its start counts.
    assert_eq!(counts.row_entries(0).iter().find(|p| p.0 == 1).map(|p| p.1), Some(1));
    // nothing touches the second region
    assert_eq!(counts.row_entries(1).len(), 0);

    let out = write_matrix_market(&counts, cells.len());
    let text = String::from_utf8(out).unwrap();
    let rows: Vec<&str> = text.lines().collect();
    assert_eq!(rows[0], "%%MatrixMarket matrix coordinate integer general");
    assert_eq!(rows[1], "%%metadata json: {{\"software_version\": \"f2m-0.1.0\"}}");
    assert_eq!(rows[2], "2 2 2");
    assert_eq!(rows.len(), 5);
    let mut triples: Vec<&str> = rows[3..].to_vec();
    triples.sort();
    assert_eq!(triples, vec!["1 1 2", "1 2 1"]);
}

#[test]
fn unknown_barcode_contributes_nothing() {
    let (total, _labels, index) = peak_intervals(&lines(&[b"chr1\t100\t200"]), false);
    let cells = CellTable::from_lines(&lines(&[b"AAA"]));
    let frag_lines = lines(&[b"chr1\t150\t180\tCCC"]);
    let counts = fcount(&frag_lines, &cells, &index, total).unwrap();
    assert_eq!(counts.row_entries(0).len(), 0);
}

#[test]
fn unknown_chromosome_contributes_nothing() {
    let (total, _labels, index) = peak_intervals(&lines(&[b"chr1\t100\t200"]), false);
    let cells = CellTable::from_lines(&lines(&[b"AAA"]));
    let frag_lines = lines(&[b"chr2\t150\t180\tAAA"]);
    let counts = fcount(&frag_lines, &cells, &index, total).unwrap();
    assert_eq!(counts.row_entries(0).len(), 0);
}

#[test]
fn bad_coordinate_on_unknown_chromosome_is_fatal() {
    // an admitted record's coordinates must parse even when its chromosome
    // is absent from the region set
    let (total, _labels, index) = peak_intervals(&lines(&[b"chr1\t100\t200"]), false);
    let cells = CellTable::from_lines(&lines(&[b"AAA"]));
    let frag_lines = lines(&[b"chr2\tnope\t180\tAAA"]);
    assert_eq!(
        fcount(&frag_lines, &cells, &index, total).err(),
        Some(FragmentError::InvalidStart)
    );
}

#[test]
fn good_coordinates_on_unknown_chromosome_are_not_fatal() {
    let (total, _labels, index) = peak_intervals(&lines(&[b"chr1\t100\t200"]), false);
    let cells = CellTable::from_lines(&lines(&[b"AAA"]));
    let frag_lines = lines(&[b"chr2\t150\t180\tAAA"]);
    assert!(fcount(&frag_lines, &cells, &index, total).is_ok());
}

#[test]
fn bad_start_is_fatal() {
    let (total, _labels, index) = peak_intervals(&lines(&[b"chr1\t100\t200"]), false);
    let cells = CellTable::from_lines(&lines(&[b"AAA"]));
    let frag_lines = lines(&[b"chr1\tnope\t180\tAAA"]);
    assert_eq!(fcount(&frag_lines, &cells, &index, total).err(), Some(FragmentError::InvalidStart));
}

#[test]
fn bad_end_is_fatal() {
    let (total, _labels, index) = peak_intervals(&lines(&[b"chr1\t100\t200"]), false);
    let cells = CellTable::from_lines(&lines(&[b"AAA"]));
    let frag_lines = lines(&[b"chr1\t150\tnope\tAAA"]);
    assert_eq!(fcount(&frag_lines, &cells, &index, total).err(), Some(FragmentError::InvalidEnd));
}

#[test]
fn comment_lines_are_skipped() {
    let (total, _labels, index) = peak_intervals(&lines(&[b"chr1\t100\t200"]), false);
    let cells = CellTable::from_lines(&lines(&[b"AAA"]));
    let frag_lines = lines(&[b"# a header", b"chr1\t150\t180\tAAA"]);
    let counts = fcount(&frag_lines, &cells, &index, total).unwrap();
    assert_eq!(counts.row_entries(0).iter().find(|p| p.0 == 0).map(|p| p.1), Some(2));
}

#[test]
fn fragment_across_two_features_scores_each_end() {
    // adjacent regions; fragment starts in the first and ends in the second
    let (total, _labels, index) = peak_intervals(
        &lines(&[b"chr1\t100\t200", b"chr1\t200\t300"]),
        false,
    );
    let cells = CellTable::from_lines(&lines(&[b"AAA"]));
    let frag_lines = lines(&[b"chr1\t150\t250\tAAA"]);
    let counts = fcount(&frag_lines, &cells, &index, total).unwrap();
    assert_eq!(counts.row_entries(0).iter().find(|p| p.0 == 0).map(|p| p.1), Some(1));
    assert_eq!(counts.row_entries(1).iter().find(|p| p.0 == 0).map(|p| p.1), Some(1));
}

#[test]
fn process_line_accumulates_per_call() {
    let (total, _labels, index) = peak_intervals(&lines(&[b"chr1\t100\t200"]), false);
    let cells = CellTable::from_lines(&lines(&[b"AAA"]));
    let mut counts = SparseCounts::new(total);
    assert!(process_line(b"chr1\t150\t180\tAAA", &cells, &index, &mut counts).is_ok());
    assert!(process_line(b"chr1\t150\t180\tAAA", &cells, &index, &mut counts).is_ok());
    assert_eq!(counts.row_entries(0).iter().find(|p| p.0 == 0).map(|p| p.1), Some(4));
}

#[test]
fn matrix_of_empty_counts() {
    let counts = SparseCounts::new(3);
    let out = write_matrix_market(&counts, 5);
    let text = String::from_utf8(out).unwrap();
    let rows: Vec<&str> = text.lines().collect();
    assert_eq!(rows[2], "3 5 0");
    assert_eq!(rows.len(), 3);
}

#[test]
fn two_containing_features_both_score_twice() {
    // both regions contain the fragment: each gets the double count and the
    // end-anchored query is skipped
    let (total, _labels, index) = peak_intervals(
        &lines(&[b"chr1\t100\t300", b"chr1\t120\t310"]),
        false,
    );
    let cells = CellTable::from_lines(&lines(&[b"AAA"]));
    let frag_lines = lines(&[b"chr1\t150\t200\tAAA"]);
    let counts = fcount(&frag_lines, &cells, &index, total).unwrap();
    assert_eq!(counts.row_entries(0).iter().find(|p| p.0 == 0).map(|p| p.1), Some(2));
    assert_eq!(counts.row_entries(1).iter().find(|p| p.0 == 0).map(|p| p.1), Some(2));
}

#[test]
fn containing_feature_suppresses_end_query_for_all() {
    // the fragment's start lies in both regions; only the second contains its
    // end, but that alone suppresses the end-anchored query, so the first
    // region scores once even though the fragment's end lies outside it
    let (total, _labels, index) = peak_intervals(
        &lines(&[b"chr1\t100\t180", b"chr1\t100\t300"]),
        false,
    );
    let cells = CellTable::from_lines(&lines(&[b"AAA"]));
    let frag_lines = lines(&[b"chr1\t150\t200\tAAA"]);
    let counts = fcount(&frag_lines, &cells, &index, total).unwrap();
    assert_eq!(counts.row_entries(0).iter().find(|p| p.0 == 0).map(|p| p.1), Some(1));
    assert_eq!(counts.row_entries(1).iter().find(|p| p.0 == 0).map(|p| p.1), Some(2));
}

#[test]
fn end_query_runs_when_nothing_contains_the_fragment() {
    // start in the first region, end past it inside the second: one count
    // each, through the separate end-anchored query
    let (total, _labels, index) = peak_intervals(
        &lines(&[b"chr1\t100\t200", b"chr1\t250\t400"]),
        false,
    );
    let cells = CellTable::from_lines(&lines(&[b"AAA"]));
    let frag_lines = lines(&[b"chr1\t150\t300\tAAA"]);
    let counts = fcount(&frag_lines, &cells, &index, total).unwrap();
    assert_eq!(counts.row_entries(0).iter().find(|p| p.0 == 0).map(|p| p.1), Some(1));
    assert_eq!(counts.row_entries(1).iter().find(|p| p.0 == 0).map(|p| p.1), Some(1));
}
