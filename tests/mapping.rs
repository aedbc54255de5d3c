use unsourcemap::{process_mappings, Accumulator, SourceMapping, VLQError};

fn rec(line: i32, col: i32, src: Option<(i32, i32, i32)>, name: Option<i32>) -> SourceMapping {
    SourceMapping {
        generated_line: line,
        generated_column: col,
        original_line: src.map(|s| s.1),
        original_column: src.map(|s| s.2),
        source_index: src.map(|s| s.0),
        name_index: name,
    }
}

#[test]
fn two_lines_with_original_line_delta() {
    let r = process_mappings("AAAA;AACA").unwrap();
    assert_eq!(r, vec![rec(0, 0, Some((0, 0, 0)), None), rec(1, 0, Some((0, 1, 0)), None)]);
}

#[test]
fn two_segments_on_one_line() {
    let r = process_mappings("AAAA,CAAC").unwrap();
    assert_eq!(r, vec![rec(0, 0, Some((0, 0, 0)), None), rec(0, 1, Some((0, 0, 1)), None)]);
}

#[test]
fn empty_mappings_give_no_records() {
    assert_eq!(process_mappings("").unwrap(), Vec::<SourceMapping>::new());
    assert_eq!(process_mappings(";;").unwrap(), Vec::<SourceMapping>::new());
}

#[test]
fn totals_carry_across_lines_but_column_resets() {
    let r = process_mappings("KCEGC;C,E;AAAA").unwrap();
    assert_eq!(
        r,
        vec![
            rec(0, 5, Some((1, 2, 3)), Some(1)),
            rec(1, 1, None, None),
            rec(1, 3, None, None),
            rec(2, 0, Some((1, 2, 3)), None),
        ]
    );
    let r = process_mappings("ACAA;ACAA").unwrap();
    assert_eq!(r[1], rec(1, 0, Some((2, 0, 0)), None));
}

#[test]
fn five_values_set_the_name() {
    let r = process_mappings("AAAAC,CAAAC").unwrap();
    assert_eq!(r, vec![rec(0, 0, Some((0, 0, 0)), Some(1)), rec(0, 1, Some((0, 0, 0)), Some(2))]);
}

#[test]
fn empty_segments_are_skipped() {
    let r = process_mappings(",AAAA,,CAAC,").unwrap();
    assert_eq!(r.len(), 2);
    assert_eq!(r[1].generated_column, 1);
}

#[test]
fn negative_deltas_pass_through() {
    let r = process_mappings("CAAA,DAAA,DAAA").unwrap();
    assert_eq!(r.iter().map(|m| m.generated_column).collect::<Vec<_>>(), vec![1, 0, -1]);
}

#[test]
fn short_segments_are_read_by_position() {
    let r = process_mappings("AC").unwrap();
    assert_eq!(r, vec![rec(0, 0, Some((1, 0, 0)), None)]);
    let r = process_mappings("ACCCCC").unwrap();
    assert_eq!(r, vec![rec(0, 0, Some((1, 1, 1)), Some(1))]);
}

#[test]
fn any_bad_segment_fails_the_whole_decode() {
    assert_eq!(process_mappings("AAAA;AA!A"), Err(VLQError::InvalidCharacter));
    assert_eq!(process_mappings("AAAA,g;AAAA"), Err(VLQError::IncompleteSequence));
}

#[test]
fn running_total_beyond_i32_is_out_of_range() {
    // "+/////D" is i32::MAX; adding one more overflows the column.
    assert_eq!(process_mappings("+/////D,C"), Err(VLQError::ValueOutOfRange));
    assert_eq!(process_mappings("+/////D;C").unwrap().len(), 2);
}

#[test]
fn accumulator_steps() {
    let mut a = Accumulator::new();
    let r = a.apply(4, &vec![3, 1, 2, 3]).unwrap();
    assert_eq!(r, rec(4, 3, Some((1, 2, 3)), None));
    a.start_line();
    assert_eq!(a.generated_column, 0);
    assert_eq!((a.source_index, a.original_line, a.original_column), (1, 2, 3));
    let before = a;
    assert_eq!(a.apply(0, &vec![0, i32::MAX]), Err(VLQError::ValueOutOfRange));
    assert_eq!(a, before);
}
