use bam_error_detector::assembly::{Assembly, ClipRow, ContigRecord, ReadError, ReadRecord, ZeroRow};
use bam_error_detector::cigar::CigarOp;
use bam_error_detector::contig::WalkError;
use bam_error_detector::clip_report::Ratio;

fn contig(name: &str, length: usize) -> ContigRecord {
    ContigRecord { name: name.to_string(), length }
}

fn read(reference_id: i32, position: i64, list: &[(char, u32)]) -> ReadRecord {
    ReadRecord {
        reference_id,
        position,
        ops: list.iter().map(|&(code, len)| CigarOp::new(code, len)).collect(),
        unmapped: false,
    }
}

fn unmapped() -> ReadRecord {
    ReadRecord { reference_id: -1, position: -1, ops: Vec::new(), unmapped: true }
}

fn three_contigs() -> Assembly {
    Assembly::new(vec![contig("chrA", 1000), contig("chrB", 200), contig("chrC", 50)])
}

fn zero_row(contig: usize, name: &str, length: usize, start: usize, end: usize) -> ZeroRow {
    ZeroRow { contig, name: name.to_string(), length, start, end }
}

#[test]
fn registry_is_kept_in_header_order() {
    let assembly = three_contigs();
    assert_eq!(assembly.contig_count(), 3);
    assert_eq!(*assembly.contig(0), contig("chrA", 1000));
    assert_eq!(*assembly.contig(1), contig("chrB", 200));
    assert_eq!(*assembly.contig(2), contig("chrC", 50));
}

#[test]
fn fresh_assembly_has_no_accumulator() {
    let assembly = three_contigs();
    for id in 0..4 {
        assert!(assembly.accumulator(id).is_none());
    }
    assert_eq!(assembly.zero_coverage_report(), vec![]);
    assert_eq!(assembly.clip_report(0, &Ratio::one()), vec![]);
}

#[test]
fn accumulator_is_created_by_the_first_mapped_read() {
    let mut assembly = three_contigs();
    assert_eq!(assembly.process_read(&read(1, 10, &[('M', 5)])), Ok(()));
    assert!(assembly.accumulator(0).is_none());
    assert!(assembly.accumulator(2).is_none());
    let data = assembly.accumulator(1).unwrap();
    assert_eq!(data.length(), 200);
    assert_eq!(data.coverage(9), 0);
    assert_eq!(data.coverage(10), 1);
    assert_eq!(data.coverage(14), 1);
    assert_eq!(data.coverage(15), 0);
}

#[test]
fn untouched_contig_never_gets_an_accumulator() {
    let mut assembly = three_contigs();
    for k in 0..20 {
        assert_eq!(assembly.process_read(&read(0, k * 10, &[('S', 3), ('M', 30)])), Ok(()));
        assert_eq!(assembly.process_read(&read(2, k, &[('M', 10)])), Ok(()));
        assert_eq!(assembly.process_read(&unmapped()), Ok(()));
    }
    assert!(assembly.accumulator(0).is_some());
    assert!(assembly.accumulator(1).is_none());
    assert!(assembly.accumulator(2).is_some());
}

#[test]
fn unmapped_read_is_skipped() {
    let mut assembly = three_contigs();
    assert_eq!(assembly.process_read(&unmapped()), Ok(()));
    let mut odd = read(0, 5, &[('M', 5)]);
    odd.unmapped = true;
    assert_eq!(assembly.process_read(&odd), Ok(()));
    let mut lost = read(99, -4, &[('M', 5000)]);
    lost.unmapped = true;
    assert_eq!(assembly.process_read(&lost), Ok(()));
    for id in 0..3 {
        assert!(assembly.accumulator(id).is_none());
    }
}

#[test]
fn reads_accumulate_on_their_contig() {
    let mut assembly = three_contigs();
    assert_eq!(assembly.process_read(&read(2, 0, &[('M', 30)])), Ok(()));
    assert_eq!(assembly.process_read(&read(2, 20, &[('S', 4), ('M', 30)])), Ok(()));
    assert_eq!(assembly.process_read(&read(0, 20, &[('M', 30)])), Ok(()));
    let data = assembly.accumulator(2).unwrap();
    assert_eq!(data.coverage(19), 1);
    assert_eq!(data.coverage(20), 2);
    assert_eq!(data.coverage(29), 2);
    assert_eq!(data.coverage(30), 1);
    assert_eq!(data.clipping(20), 1);
    let other = assembly.accumulator(0).unwrap();
    assert_eq!(other.coverage(20), 1);
    assert_eq!(other.clipping(20), 0);
}

#[test]
fn read_on_an_undeclared_contig_is_an_error() {
    let mut assembly = three_contigs();
    assert_eq!(
        assembly.process_read(&read(3, 0, &[('M', 5)])),
        Err(ReadError::UnknownContig)
    );
    assert_eq!(
        assembly.process_read(&read(-1, 0, &[('M', 5)])),
        Err(ReadError::UnknownContig)
    );
    assert_eq!(
        assembly.process_read(&read(i32::MAX, 0, &[])),
        Err(ReadError::UnknownContig)
    );
    for id in 0..3 {
        assert!(assembly.accumulator(id).is_none());
    }
}

#[test]
fn read_before_the_contig_start_is_an_error() {
    let mut assembly = three_contigs();
    assert_eq!(
        assembly.process_read(&read(0, -1, &[('M', 5)])),
        Err(ReadError::NegativePosition)
    );
    assert_eq!(
        assembly.process_read(&read(0, i64::MIN, &[])),
        Err(ReadError::NegativePosition)
    );
    assert!(assembly.accumulator(0).is_none());
}

#[test]
fn read_past_the_contig_end_is_an_error_and_changes_nothing() {
    let mut assembly = three_contigs();
    assert_eq!(
        assembly.process_read(&read(2, 45, &[('S', 2), ('M', 6)])),
        Err(ReadError::Walk(WalkError::OutOfBounds))
    );
    assert!(assembly.accumulator(2).is_none());
    assert_eq!(assembly.process_read(&read(2, 40, &[('M', 10)])), Ok(()));
    assert_eq!(
        assembly.process_read(&read(2, 45, &[('S', 2), ('M', 6)])),
        Err(ReadError::Walk(WalkError::OutOfBounds))
    );
    let data = assembly.accumulator(2).unwrap();
    assert_eq!(data.coverage(45), 1);
    assert_eq!(data.clipping(45), 0);
    assert_eq!(data.coverage(39), 0);
}

#[test]
fn unknown_contig_is_reported_before_a_negative_position() {
    let mut assembly = three_contigs();
    assert_eq!(
        assembly.process_read(&read(7, -1, &[('M', 5)])),
        Err(ReadError::UnknownContig)
    );
}

#[test]
fn read_far_past_the_contig_is_an_error() {
    let mut assembly = three_contigs();
    assert_eq!(
        assembly.process_read(&read(1, i64::MAX, &[('M', 1)])),
        Err(ReadError::Walk(WalkError::OutOfBounds))
    );
    assert_eq!(
        assembly.process_read(&read(1, 200, &[('M', 1)])),
        Err(ReadError::Walk(WalkError::OutOfBounds))
    );
    assert_eq!(assembly.process_read(&read(1, 200, &[('S', 1)])), Ok(()));
    assert_eq!(assembly.accumulator(1).unwrap().clipping(200), 1);
}

#[test]
fn zero_coverage_report_lists_contigs_in_order() {
    let mut assembly = three_contigs();
    assert_eq!(assembly.process_read(&read(2, 10, &[('M', 30)])), Ok(()));
    assert_eq!(assembly.process_read(&read(0, 100, &[('M', 800)])), Ok(()));
    assert_eq!(assembly.process_read(&read(0, 500, &[('M', 100)])), Ok(()));
    let rows = assembly.zero_coverage_report();
    assert_eq!(
        rows,
        vec![
            zero_row(0, "chrA", 1000, 0, 100),
            zero_row(0, "chrA", 1000, 900, 1000),
            zero_row(2, "chrC", 50, 0, 10),
            zero_row(2, "chrC", 50, 40, 50),
        ]
    );
    let sizes: Vec<usize> = rows.iter().map(|r| r.range_size()).collect();
    assert_eq!(sizes, vec![100, 100, 10, 10]);
}

#[test]
fn one_matched_read_gives_two_zero_rows_and_no_clip_row() {
    let mut assembly = Assembly::new(vec![contig("contig_1", 1000)]);
    assert_eq!(assembly.process_read(&read(0, 100, &[('M', 800)])), Ok(()));
    assert_eq!(
        assembly.zero_coverage_report(),
        vec![
            zero_row(0, "contig_1", 1000, 0, 100),
            zero_row(0, "contig_1", 1000, 900, 1000),
        ]
    );
    assert_eq!(assembly.clip_report(100, &Ratio::one()), vec![]);
}

#[test]
fn clip_report_row_for_ten_clips_over_coverage_five() {
    let mut assembly = Assembly::new(vec![contig("contig_1", 1000)]);
    for _ in 0..5 {
        assert_eq!(assembly.process_read(&read(0, 500, &[('S', 9), ('M', 200)])), Ok(()));
        assert_eq!(assembly.process_read(&read(0, 500, &[('H', 9)])), Ok(()));
    }
    let rows = assembly.clip_report(50, &Ratio::new(1, 1).unwrap());
    assert_eq!(
        rows,
        vec![ClipRow {
            contig: 0,
            name: "contig_1".to_string(),
            length: 1000,
            pos: 500,
            coverage: 5,
            clipping: 10,
        }]
    );
    assert_eq!(rows[0].clipping as f64 / rows[0].coverage as f64, 2.0);
    assert_eq!(rows[0].pos as f64 / rows[0].length as f64, 0.5);
}

#[test]
fn clip_report_is_ordered_by_contig_and_position() {
    let mut assembly = three_contigs();
    assert_eq!(assembly.process_read(&read(2, 30, &[('S', 1), ('M', 5)])), Ok(()));
    assert_eq!(assembly.process_read(&read(0, 700, &[('S', 1), ('M', 5)])), Ok(()));
    assert_eq!(assembly.process_read(&read(2, 20, &[('S', 1), ('M', 5)])), Ok(()));
    assert_eq!(assembly.process_read(&read(0, 300, &[('M', 5), ('S', 1)])), Ok(()));
    assert_eq!(assembly.process_read(&read(1, 3, &[('S', 1), ('M', 5)])), Ok(()));
    let rows = assembly.clip_report(10, &Ratio::one());
    let keys: Vec<(usize, String, usize)> =
        rows.iter().map(|r| (r.contig, r.name.clone(), r.pos)).collect();
    assert_eq!(
        keys,
        vec![
            (0, "chrA".to_string(), 304),
            (0, "chrA".to_string(), 700),
            (2, "chrC".to_string(), 20),
            (2, "chrC".to_string(), 30),
        ]
    );
    for row in &rows {
        assert_eq!(row.coverage, 1);
        assert_eq!(row.clipping, 1);
    }
}

#[test]
fn contigs_of_the_same_name_are_kept_apart() {
    let mut assembly = Assembly::new(vec![contig("twin", 20), contig("twin", 30)]);
    assert_eq!(assembly.process_read(&read(1, 0, &[('M', 30)])), Ok(()));
    assert!(assembly.accumulator(0).is_none());
    assert_eq!(assembly.accumulator(1).unwrap().length(), 30);
    assert_eq!(assembly.zero_coverage_report(), vec![]);
}

#[test]
fn empty_registry_knows_no_contig() {
    let mut assembly = Assembly::new(Vec::new());
    assert_eq!(assembly.contig_count(), 0);
    assert_eq!(
        assembly.process_read(&read(0, 0, &[])),
        Err(ReadError::UnknownContig)
    );
    assert_eq!(assembly.process_read(&unmapped()), Ok(()));
}
