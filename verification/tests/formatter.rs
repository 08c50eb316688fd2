use tapr::constants::{frame_color, reset_color, text_color, vertical};
use tapr::formatter::print_line;

fn join(lines: &[String]) -> String {
    let mut out = String::new();
    for l in lines {
        out.push_str(l);
        out.push('\n');
    }
    out
}

#[test]
fn test_print_line_for_empty() {
    let cells: Vec<String> = vec![];
    let lines = print_line(0, &cells, &vec![], 0);
    let value = join(&lines);
    assert!(value.is_empty());
}

#[test]
fn test_print_line_for_empty_cell() {
    let cells: Vec<String> = vec![];
    let lines = print_line(0, &cells, &vec![1], 0);
    let value = join(&lines);
    assert_eq!(value, format!("{} {}\n", text_color(0), reset_color()));
}

#[test]
fn test_print_line_for_missing_columns() {
    let cells: Vec<String> = vec!["1".to_string()];
    let lines = print_line(0, &cells, &vec![1, 2, 3], 0);
    let value = join(&lines);
    assert_eq!(
        value,
        format!(
            "{}1{}{}{}  {}{}{}   {}\n",
            text_color(0),
            frame_color(),
            vertical(),
            text_color(0),
            frame_color(),
            vertical(),
            text_color(0),
            reset_color()
        )
    );
}

#[test]
fn numeric_cell_is_right_aligned() {
    let cells = vec!["042".to_string()];
    let lines = print_line(1, &cells, &vec![5], 0);
    assert_eq!(lines, vec![format!("{}  042{}", text_color(1), reset_color())]);
}

#[test]
fn non_numeric_cell_is_left_aligned() {
    let cells = vec!["4a2".to_string()];
    let lines = print_line(1, &cells, &vec![5], 0);
    assert_eq!(lines, vec![format!("{}4a2  {}", text_color(1), reset_color())]);
}

#[test]
fn empty_cell_renders_blank() {
    // a row of only empty cells has nothing to consume: no pass at all
    let cells = vec![String::new()];
    assert_eq!(print_line(1, &cells, &vec![3], 0), Vec::<String>::new());
    // beside a nonempty cell, the empty cell renders as blank padding
    let cells = vec![String::new(), "ab".to_string()];
    let lines = print_line(1, &cells, &vec![3, 2], 0);
    let tc = text_color(1);
    assert_eq!(
        lines,
        vec![format!("{}   {}{}{}ab{}", tc, frame_color(), vertical(), tc, reset_color())]
    );
}

#[test]
fn oversized_cell_wraps_across_passes() {
    let cells = vec!["abcde".to_string()];
    let lines = print_line(0, &cells, &vec![2], 0);
    assert_eq!(
        lines,
        vec![
            format!("{}ab{}", text_color(0), reset_color()),
            format!("{}cd{}", text_color(0), reset_color()),
            format!("{}e {}", text_color(0), reset_color()),
        ]
    );
}

#[test]
fn wrapping_reconstructs_cell_content() {
    let cells = vec!["hello world".to_string()];
    let lines = print_line(0, &cells, &vec![4], 0);
    let mut recovered = String::new();
    for l in &lines {
        let inner = l
            .strip_prefix(text_color(0))
            .and_then(|x| x.strip_suffix(reset_color()))
            .unwrap();
        recovered.push_str(inner.trim_end_matches(' '));
    }
    assert_eq!(recovered, "hello world");
}

#[test]
fn columns_advance_in_lockstep_with_blanks() {
    let cells = vec!["abcd".to_string(), "x".to_string()];
    let lines = print_line(0, &cells, &vec![2, 2], 0);
    let tc = text_color(0);
    let sep = format!("{}{}", frame_color(), vertical());
    assert_eq!(
        lines,
        vec![
            format!("{}ab{}{}x {}", tc, sep, tc, reset_color()),
            format!("{}cd{}{}  {}", tc, sep, tc, reset_color()),
        ]
    );
}

#[test]
fn rendering_twice_is_identical() {
    let cells = vec!["abc".to_string(), "12".to_string()];
    let widths = vec![2, 4];
    let first = print_line(5, &cells, &widths, 3);
    let second = print_line(5, &cells, &widths, 3);
    assert_eq!(first, second);
}

#[test]
fn gutter_shows_number_on_first_pass_only() {
    let cells = vec!["abcd".to_string()];
    let lines = print_line(12, &cells, &vec![2], 3);
    let tc = text_color(12);
    let sep = format!("{}{}", frame_color(), vertical());
    assert_eq!(
        lines,
        vec![
            format!("{} 12{}{}ab{}", tc, sep, tc, reset_color()),
            format!("{}   {}{}cd{}", tc, sep, tc, reset_color()),
        ]
    );
}

#[test]
fn header_row_gutter_is_blank() {
    let cells = vec!["h".to_string()];
    let lines = print_line(0, &cells, &vec![1], 2);
    let tc = text_color(0);
    let sep = format!("{}{}", frame_color(), vertical());
    assert_eq!(lines, vec![format!("{}  {}{}h{}", tc, sep, tc, reset_color())]);
}

#[test]
fn combining_mark_stays_with_its_base() {
    let cells = vec!["e\u{0301}x".to_string()];
    let lines = print_line(0, &cells, &vec![1], 0);
    assert_eq!(
        lines,
        vec![
            format!("{}e\u{0301}{}", text_color(0), reset_color()),
            format!("{}x{}", text_color(0), reset_color()),
        ]
    );
}

#[test]
fn wide_characters_count_two_columns() {
    let cells = vec!["\u{3042}\u{3044}".to_string()];
    let lines = print_line(0, &cells, &vec![2], 0);
    assert_eq!(
        lines,
        vec![
            format!("{}\u{3042}{}", text_color(0), reset_color()),
            format!("{}\u{3044}{}", text_color(0), reset_color()),
        ]
    );
}
