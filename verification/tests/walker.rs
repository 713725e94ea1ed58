use bam_error_detector::cigar::{mark_of_clip, CigarOp, OpKind};
use bam_error_detector::contig::{ContigData, WalkError};

fn ops(list: &[(char, u32)]) -> Vec<CigarOp> {
    list.iter().map(|&(code, len)| CigarOp::new(code, len)).collect()
}

fn coverage_of(data: &ContigData) -> Vec<u32> {
    (0..data.length()).map(|p| data.coverage(p)).collect()
}

#[test]
fn code_letters_are_classified() {
    assert_eq!(OpKind::from_code('M'), OpKind::MatchLike);
    assert_eq!(OpKind::from_code('='), OpKind::MatchLike);
    assert_eq!(OpKind::from_code('X'), OpKind::MatchLike);
    assert_eq!(OpKind::from_code('D'), OpKind::Deletion);
    assert_eq!(OpKind::from_code('S'), OpKind::Clip);
    assert_eq!(OpKind::from_code('H'), OpKind::Clip);
    assert_eq!(OpKind::from_code('I'), OpKind::Other);
    assert_eq!(OpKind::from_code('N'), OpKind::Other);
    assert_eq!(OpKind::from_code('P'), OpKind::Other);
    assert_eq!(OpKind::from_code('m'), OpKind::Other);
}

#[test]
fn cigar_op_keeps_class_and_length() {
    let op = CigarOp::new('S', 17);
    assert_eq!(op.kind, OpKind::Clip);
    assert_eq!(op.len, 17);
    assert_eq!(op, CigarOp { kind: OpKind::Clip, len: 17 });
}

#[test]
fn new_accumulator_is_empty() {
    let data = ContigData::new(5);
    assert_eq!(data.length(), 5);
    assert_eq!(coverage_of(&data), vec![0, 0, 0, 0, 0]);
    for p in 0..7 {
        assert_eq!(data.clipping(p), 0);
    }
}

#[test]
fn new_accumulator_of_length_zero() {
    let data = ContigData::new(0);
    assert_eq!(data.length(), 0);
    assert!(data.zero_intervals().is_empty());
}

#[test]
fn add_clipping_counts_each_call() {
    let mut data = ContigData::new(10);
    data.add_clipping(3);
    data.add_clipping(3);
    data.add_clipping(7);
    assert_eq!(data.clipping(3), 2);
    assert_eq!(data.clipping(7), 1);
    assert_eq!(data.clipping(4), 0);
    assert_eq!(coverage_of(&data), vec![0; 10]);
}

#[test]
fn match_raises_coverage_by_one_on_its_span() {
    let mut data = ContigData::new(10);
    data.apply_read(2, &ops(&[('M', 4)]));
    assert_eq!(coverage_of(&data), vec![0, 0, 1, 1, 1, 1, 0, 0, 0, 0]);
}

#[test]
fn coverage_is_additive_over_reads() {
    let mut data = ContigData::new(10);
    data.apply_read(0, &ops(&[('M', 6)]));
    data.apply_read(4, &ops(&[('=', 3), ('X', 3)]));
    data.apply_read(5, &ops(&[('M', 1)]));
    assert_eq!(coverage_of(&data), vec![1, 1, 1, 1, 2, 3, 1, 1, 1, 1]);
}

#[test]
fn coverage_never_decreases() {
    let mut data = ContigData::new(12);
    let reads: Vec<(usize, Vec<CigarOp>)> = vec![
        (0, ops(&[('M', 5)])),
        (3, ops(&[('S', 2), ('M', 4), ('D', 2), ('M', 1), ('S', 3)])),
        (11, ops(&[('H', 4)])),
        (6, ops(&[('I', 2), ('M', 6)])),
    ];
    let mut before = coverage_of(&data);
    for (pos, read) in &reads {
        data.apply_read(*pos, read);
        let after = coverage_of(&data);
        for p in 0..12 {
            assert!(after[p] >= before[p]);
        }
        before = after;
    }
    assert_eq!(before, vec![1, 1, 1, 2, 2, 1, 2, 1, 1, 2, 1, 1]);
}

#[test]
fn deletion_moves_the_cursor_without_coverage() {
    let mut data = ContigData::new(10);
    data.apply_read(1, &ops(&[('M', 2), ('D', 3), ('M', 2)]));
    assert_eq!(coverage_of(&data), vec![0, 1, 1, 0, 0, 0, 1, 1, 0, 0]);
}

#[test]
fn other_operations_are_ignored() {
    let mut data = ContigData::new(10);
    data.apply_read(1, &ops(&[('M', 2), ('I', 5), ('N', 4), ('P', 1), ('M', 2)]));
    assert_eq!(coverage_of(&data), vec![0, 1, 1, 1, 1, 0, 0, 0, 0, 0]);
    for p in 0..10 {
        assert_eq!(data.clipping(p), 0);
    }
}

#[test]
fn left_clip_marks_the_cursor() {
    let mut data = ContigData::new(100);
    data.apply_read(40, &ops(&[('S', 10), ('M', 20)]));
    assert_eq!(data.clipping(40), 1);
    assert_eq!(data.clipping(39), 0);
    assert_eq!(data.clipping(30), 0);
    assert_eq!(data.coverage(40), 1);
    assert_eq!(data.coverage(59), 1);
    assert_eq!(data.coverage(60), 0);
}

#[test]
fn right_clip_marks_the_last_covered_base() {
    let mut data = ContigData::new(100);
    data.apply_read(40, &ops(&[('M', 20), ('H', 10)]));
    assert_eq!(data.clipping(59), 1);
    assert_eq!(data.clipping(60), 0);
    assert_eq!(data.clipping(40), 0);
}

#[test]
fn left_clip_at_contig_start_is_not_recorded() {
    let mut data = ContigData::new(100);
    data.apply_read(0, &ops(&[('S', 10), ('M', 20)]));
    for p in 0..=100 {
        assert_eq!(data.clipping(p), 0);
    }
    assert_eq!(data.coverage(0), 1);
}

#[test]
fn right_clip_at_contig_end_is_not_recorded() {
    let mut data = ContigData::new(100);
    data.apply_read(80, &ops(&[('M', 20), ('S', 10)]));
    for p in 0..=100 {
        assert_eq!(data.clipping(p), 0);
    }
    assert_eq!(data.coverage(99), 1);
}

#[test]
fn clips_on_both_ends_are_both_recorded() {
    let mut data = ContigData::new(100);
    data.apply_read(10, &ops(&[('S', 5), ('M', 30), ('S', 7)]));
    assert_eq!(data.clipping(10), 1);
    assert_eq!(data.clipping(39), 1);
}

#[test]
fn later_clip_with_cursor_at_zero_marks_position_zero() {
    let mut data = ContigData::new(100);
    data.apply_read(0, &ops(&[('H', 3), ('S', 5), ('M', 10)]));
    assert_eq!(data.clipping(0), 1);
    assert_eq!(data.clipping(1), 0);
}

#[test]
fn hard_and_soft_clip_at_the_left_end() {
    let mut data = ContigData::new(100);
    data.apply_read(20, &ops(&[('H', 3), ('S', 5), ('M', 10), ('S', 2), ('H', 1)]));
    assert_eq!(data.clipping(20), 1);
    assert_eq!(data.clipping(19), 1);
    assert_eq!(data.clipping(29), 2);
}

#[test]
fn left_clip_of_a_read_at_the_contig_end_is_recorded() {
    let mut data = ContigData::new(10);
    data.apply_read(10, &ops(&[('S', 4)]));
    assert_eq!(data.clipping(10), 1);
    assert_eq!(coverage_of(&data), vec![0; 10]);
}

#[test]
fn empty_operation_list_changes_nothing() {
    let mut data = ContigData::new(4);
    data.apply_read(2, &[]);
    assert_eq!(coverage_of(&data), vec![0; 4]);
    assert_eq!(data.clipping(2), 0);
}

#[test]
fn read_within_the_contig_is_in_bounds() {
    let data = ContigData::new(10);
    assert!(data.is_in_bounds(0, &ops(&[('M', 10)])));
    assert!(data.is_in_bounds(4, &ops(&[('S', 50), ('M', 3), ('D', 3)])));
    assert!(data.is_in_bounds(10, &ops(&[('M', 0)])));
}

#[test]
fn match_past_the_contig_end_is_out_of_bounds() {
    let data = ContigData::new(10);
    assert!(!data.is_in_bounds(0, &ops(&[('M', 11)])));
    assert!(!data.is_in_bounds(9, &ops(&[('M', 1), ('M', 1)])));
    assert!(!data.is_in_bounds(5, &ops(&[('D', 5), ('M', 1)])));
    assert!(!data.is_in_bounds(11, &ops(&[('M', 1)])));
}

#[test]
fn deletion_past_the_contig_end_is_in_bounds() {
    let mut data = ContigData::new(10);
    let read = ops(&[('M', 2), ('D', 20), ('S', 1)]);
    assert!(data.is_in_bounds(8, &read));
    assert_eq!(data.try_apply_read(8, &read), Ok(()));
    assert_eq!(coverage_of(&data), vec![0, 0, 0, 0, 0, 0, 0, 0, 1, 1]);
    assert_eq!(data.clipping(29), 1);
}

#[test]
fn cursor_past_the_machine_range_is_out_of_bounds() {
    let data = ContigData::new(10);
    assert!(!data.is_in_bounds(usize::MAX, &ops(&[('D', 1)])));
    assert!(data.is_in_bounds(usize::MAX, &ops(&[('S', 1)])));
}

#[test]
fn try_apply_read_walks_a_fitting_read() {
    let mut checked = ContigData::new(50);
    let mut plain = ContigData::new(50);
    let read = ops(&[('S', 4), ('M', 10), ('D', 2), ('M', 5), ('H', 9)]);
    assert_eq!(checked.try_apply_read(7, &read), Ok(()));
    plain.apply_read(7, &read);
    assert_eq!(coverage_of(&checked), coverage_of(&plain));
    for p in 0..50 {
        assert_eq!(checked.clipping(p), plain.clipping(p));
    }
    assert_eq!(checked.clipping(7), 1);
    assert_eq!(checked.clipping(23), 1);
    assert_eq!(checked.coverage(16), 1);
    assert_eq!(checked.coverage(17), 0);
    assert_eq!(checked.coverage(19), 1);
}

#[test]
fn try_apply_read_refuses_a_read_that_leaves_the_contig() {
    let mut data = ContigData::new(10);
    data.apply_read(0, &ops(&[('M', 3)]));
    let outcome = data.try_apply_read(5, &ops(&[('S', 2), ('M', 3), ('M', 3)]));
    assert_eq!(outcome, Err(WalkError::OutOfBounds));
    assert_eq!(coverage_of(&data), vec![1, 1, 1, 0, 0, 0, 0, 0, 0, 0]);
    assert_eq!(data.clipping(5), 0);
}

#[test]
fn try_apply_read_refuses_a_full_coverage_counter() {
    let mut data = ContigData::from_coverage(vec![0, 5, u32::MAX, 7]);
    let outcome = data.try_apply_read(1, &ops(&[('S', 1), ('M', 3)]));
    assert_eq!(outcome, Err(WalkError::CounterOverflow));
    assert_eq!(coverage_of(&data), vec![0, 5, u32::MAX, 7]);
    assert_eq!(data.clipping(1), 0);
    assert_eq!(data.try_apply_read(3, &ops(&[('M', 1)])), Ok(()));
    assert_eq!(coverage_of(&data), vec![0, 5, u32::MAX, 8]);
}

#[test]
fn out_of_bounds_is_reported_before_overflow() {
    let mut data = ContigData::from_coverage(vec![u32::MAX, 0]);
    let outcome = data.try_apply_read(0, &ops(&[('M', 3)]));
    assert_eq!(outcome, Err(WalkError::OutOfBounds));
}

#[test]
fn from_coverage_keeps_the_array() {
    let data = ContigData::from_coverage(vec![3, 0, 9]);
    assert_eq!(data.length(), 3);
    assert_eq!(coverage_of(&data), vec![3, 0, 9]);
    assert_eq!(data.clipping(1), 0);
}

#[test]
fn opening_clip_marks_the_cursor_unless_at_the_start() {
    assert_eq!(mark_of_clip(100, 0, true), None);
    assert_eq!(mark_of_clip(100, 1, true), Some(1));
    assert_eq!(mark_of_clip(100, 40, true), Some(40));
    assert_eq!(mark_of_clip(100, 100, true), Some(100));
    assert_eq!(mark_of_clip(0, 0, true), None);
}

#[test]
fn later_clip_marks_the_base_before_the_cursor_unless_at_the_end() {
    assert_eq!(mark_of_clip(100, 100, false), None);
    assert_eq!(mark_of_clip(100, 99, false), Some(98));
    assert_eq!(mark_of_clip(100, 60, false), Some(59));
    assert_eq!(mark_of_clip(100, 1, false), Some(0));
    assert_eq!(mark_of_clip(100, 0, false), Some(0));
    assert_eq!(mark_of_clip(100, 101, false), Some(100));
    assert_eq!(mark_of_clip(0, 0, false), None);
}
