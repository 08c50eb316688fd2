use tapr::column_width_allocator::{
    det_print_column_widths, determine_column_widths, get_raw_column_widths, DetColumnWidthError,
    MinMedMax,
};

fn rows(data: &[&[&str]]) -> Vec<Vec<String>> {
    data.iter().map(|r| r.iter().map(|c| c.to_string()).collect()).collect()
}

#[test]
fn aggregate_two_rows() {
    let sample = rows(&[&["a", "bb"], &["ccc", ""]]);
    let triples = get_raw_column_widths(&sample);
    assert_eq!(triples.len(), 2);
    // column 0: widths [1, 3]; n = 2, median index (2 + 1) / 2 = 1
    assert_eq!((triples[0].0, triples[0].1, triples[0].2), (1, 3, 3));
    // column 1: widths [2, 0] sorted [0, 2]
    assert_eq!((triples[1].0, triples[1].1, triples[1].2), (0, 2, 2));
}

#[test]
fn aggregate_single_row_median_is_the_value() {
    let sample = rows(&[&["ab"]]);
    let triples = get_raw_column_widths(&sample);
    assert_eq!(triples.len(), 1);
    assert_eq!((triples[0].0, triples[0].1, triples[0].2), (2, 2, 2));
}

#[test]
fn aggregate_min_med_max_ordered() {
    let sample = rows(&[&["a"], &["abc"], &["ab"], &["abcd"], &["x"]]);
    let triples = get_raw_column_widths(&sample);
    for t in &triples {
        assert!(t.0 <= t.1 && t.1 <= t.2);
    }
    // widths [1, 3, 2, 4, 1] sorted [1, 1, 2, 3, 4]; median index (5 + 1) / 2 = 3
    assert_eq!((triples[0].0, triples[0].1, triples[0].2), (1, 3, 4));
}

#[test]
fn aggregate_ragged_rows_measure_zero() {
    let sample = rows(&[&["a", "b", "c"], &["d"]]);
    let triples = get_raw_column_widths(&sample);
    assert_eq!(triples.len(), 3);
    assert_eq!((triples[2].0, triples[2].1, triples[2].2), (0, 1, 1));
}

#[test]
fn aggregate_wide_characters() {
    let sample = rows(&[&["\u{3042}"]]);
    let triples = get_raw_column_widths(&sample);
    assert_eq!((triples[0].0, triples[0].1, triples[0].2), (2, 2, 2));
}

#[test]
fn allocate_single_column_gets_its_maximum() {
    // need = 3 > 0, slack = 0, available = 20 - 7 = 13 >= 0: the first
    // weight tried succeeds and the target is the maximum exactly.
    let triples = vec![MinMedMax(2, 4, 10)];
    let widths = det_print_column_widths(&triples, 20).unwrap();
    assert_eq!(widths, vec![10]);
}

#[test]
fn allocate_narrow_columns_shrink_to_their_maximum() {
    let triples = vec![MinMedMax(3, 3, 3), MinMedMax(3, 3, 3)];
    let widths = det_print_column_widths(&triples, 10).unwrap();
    assert_eq!(widths, vec![3, 3]);
}

#[test]
fn allocate_fits_exactly_at_the_boundary() {
    // two columns at comfort width: 2 * 7 + 1 = 15 columns needed
    let triples = vec![MinMedMax(8, 8, 8), MinMedMax(8, 8, 8)];
    assert!(det_print_column_widths(&triples, 15).is_ok());
}

#[test]
fn allocate_fails_just_below_the_boundary() {
    let triples = vec![MinMedMax(8, 8, 8), MinMedMax(8, 8, 8)];
    match det_print_column_widths(&triples, 14) {
        Err(DetColumnWidthError::TooManyColumns { columns }) => assert_eq!(columns, 2),
        _ => panic!("expected TooManyColumns"),
    }
}

#[test]
fn allocate_slack_moves_the_boundary() {
    // one narrow column reclaims 7 - 2 = 5 columns of slack for the other
    let triples = vec![MinMedMax(2, 2, 2), MinMedMax(9, 9, 9)];
    // needed: 2 * 7 + 1 = 15; slack 5, so 10 suffices
    assert!(det_print_column_widths(&triples, 10).is_ok());
    match det_print_column_widths(&triples, 9) {
        Err(DetColumnWidthError::TooManyColumns { columns }) => assert_eq!(columns, 2),
        _ => panic!("expected TooManyColumns"),
    }
}

#[test]
fn allocate_never_exceeds_usable_width() {
    let triples = vec![MinMedMax(1, 4, 30), MinMedMax(2, 9, 22), MinMedMax(0, 0, 3)];
    for tw in [15usize, 20, 30, 50, 200] {
        if let Ok(widths) = det_print_column_widths(&triples, tw) {
            let sum: usize = widths.iter().sum();
            assert!(sum + (widths.len() - 1) <= tw);
        }
    }
}

#[test]
fn allocate_no_columns_is_empty() {
    let triples: Vec<MinMedMax> = vec![];
    assert_eq!(det_print_column_widths(&triples, 5).unwrap(), Vec::<usize>::new());
}

#[test]
fn determine_column_widths_subtracts_the_gutter() {
    let sample = rows(&[&["aaaaaaaaaa", "bbbbbbbbbb"]]);
    let without_gutter = determine_column_widths(&sample, 0, 21).unwrap();
    assert_eq!(without_gutter, vec![10, 10]);
    // a gutter of 2 plus its separator leaves 18 usable columns
    let with_gutter = determine_column_widths(&sample, 2, 21).unwrap();
    let sum: usize = with_gutter.iter().sum();
    assert!(sum + 1 <= 18);
}
