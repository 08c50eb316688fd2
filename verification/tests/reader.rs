use tapr::constants::{crossing_top, frame_color, horizontal, reset_color};
use tapr::formatter::{all_digits, format_str_bar, print_horizontal_line};
use tapr::table_reader::split_csv_line;
use tapr::table_reader::split_tsv_line;
use tapr::utils::TernaryOperator;

#[test]
fn csv_line_splits_on_commas() {
    let cells = split_csv_line(0, "a,b,c").unwrap();
    assert_eq!(cells, vec!["a".to_string(), "b".to_string(), "c".to_string()]);
}

#[test]
fn csv_line_honours_quoting() {
    let cells = split_csv_line(0, "\"a,b\",c").unwrap();
    assert_eq!(cells, vec!["a,b".to_string(), "c".to_string()]);
}

#[test]
fn csv_empty_line_has_no_cells() {
    let cells = split_csv_line(0, "").unwrap();
    assert_eq!(cells, Vec::<String>::new());
}

#[test]
fn tsv_line_splits_on_tabs() {
    let cells = split_tsv_line(0, "a\tb\t").unwrap();
    assert_eq!(cells, vec!["a".to_string(), "b".to_string(), String::new()]);
}

#[test]
fn tsv_empty_line_is_one_empty_cell() {
    let cells = split_tsv_line(3, "").unwrap();
    assert_eq!(cells, vec![String::new()]);
}

#[test]
fn tsv_keeps_commas_whole() {
    let cells = split_tsv_line(0, "a,b\tc").unwrap();
    assert_eq!(cells, vec!["a,b".to_string(), "c".to_string()]);
}

#[test]
fn all_digits_detects_numeric_text() {
    assert!(all_digits("042"));
    assert!(!all_digits("4a2"));
    assert!(all_digits(""));
}

#[test]
fn format_str_bar_repeats() {
    assert_eq!(format_str_bar("ab", 3), "ababab");
    assert_eq!(format_str_bar("x", 0), "");
}

#[test]
fn ternary_operator_selects() {
    assert_eq!(true.q(1, 2), 1);
    assert_eq!(false.q(1, 2), 2);
}

#[test]
fn horizontal_line_matches_widths() {
    let line = print_horizontal_line(crossing_top(), &vec![2, 3], 0);
    assert_eq!(
        line,
        format!(
            "{}{}{}{}{}",
            frame_color(),
            horizontal().repeat(2),
            crossing_top(),
            horizontal().repeat(3),
            reset_color()
        )
    );
}

#[test]
fn horizontal_line_with_gutter() {
    let line = print_horizontal_line(crossing_top(), &vec![1], 2);
    assert_eq!(
        line,
        format!(
            "{}{}{}{}{}",
            frame_color(),
            horizontal().repeat(2),
            crossing_top(),
            horizontal(),
            reset_color()
        )
    );
}
