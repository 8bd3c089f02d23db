use field_layout::cursor::{
    compute_cursor_position, compute_line_widths, cursor_point, cursor_within_rect, measure_line,
    LineWidth,
};
use field_layout::wrap::wrap;

#[test]
fn cursor_without_lines_is_at_the_origin() {
    assert_eq!(compute_cursor_position(0, &[]), (0, 0));
    assert_eq!(compute_cursor_position(7, &[]), (0, 0));
}

#[test]
fn cursor_stays_on_the_line_that_holds_it() {
    let widths = [LineWidth(6, true), LineWidth(5, false)];
    assert_eq!(compute_cursor_position(0, &widths), (0, 0));
    assert_eq!(compute_cursor_position(5, &widths), (5, 0));
    assert_eq!(compute_cursor_position(7, &widths), (1, 1));
}

#[test]
fn cursor_after_a_newline_is_at_the_start_of_the_next_row() {
    let widths = [LineWidth(6, true), LineWidth(5, false)];
    assert_eq!(compute_cursor_position(6, &widths), (0, 1));
    let only = [LineWidth(6, true)];
    assert_eq!(compute_cursor_position(6, &only), (0, 1));
}

#[test]
fn cursor_after_a_wrap_point_is_at_the_start_of_the_next_row() {
    let widths = [LineWidth(3, false), LineWidth(2, false)];
    assert_eq!(compute_cursor_position(3, &widths), (0, 1));
    assert_eq!(compute_cursor_position(4, &widths), (1, 1));
}

#[test]
fn cursor_at_the_end_of_the_last_line_stays_there() {
    let widths = [LineWidth(3, false), LineWidth(2, false)];
    assert_eq!(compute_cursor_position(5, &widths), (2, 1));
}

#[test]
fn cursor_passes_lines_without_width() {
    let widths = [LineWidth(0, false), LineWidth(2, false)];
    assert_eq!(compute_cursor_position(0, &widths), (0, 1));
    assert_eq!(compute_cursor_position(1, &widths), (1, 1));
}

#[test]
fn cursor_past_all_lines_is_counted_from_the_row_after_the_last() {
    let widths = [LineWidth(3, false), LineWidth(2, false)];
    assert_eq!(compute_cursor_position(6, &widths), (1, 2));
    assert_eq!(compute_cursor_position(7, &widths), (2, 2));
    let closed = [LineWidth(1, true)];
    assert_eq!(compute_cursor_position(2, &closed), (0, 2));
    assert_eq!(compute_cursor_position(3, &closed), (2, 1));
}

#[test]
fn cursor_rows_and_columns_grow_with_the_offset() {
    let samples: [&[LineWidth]; 4] = [
        &[LineWidth(6, true), LineWidth(5, false)],
        &[LineWidth(3, false), LineWidth(3, false), LineWidth(1, true)],
        &[LineWidth(0, false), LineWidth(4, true), LineWidth(0, false)],
        &[LineWidth(2, true), LineWidth(1, true), LineWidth(7, false)],
    ];
    for widths in samples.iter() {
        let total: u128 = widths.iter().map(|line| line.0).sum();
        let mut previous = compute_cursor_position(0, widths);
        for offset in 1..=total {
            let next = compute_cursor_position(offset, widths);
            assert!(previous.1 <= next.1, "row at offset {} of {:?}", offset, widths);
            if previous.1 == next.1 {
                assert!(previous.0 <= next.0, "column at offset {} of {:?}", offset, widths);
            }
            previous = next;
        }
    }
}

#[test]
fn cursor_rows_grow_over_wrapped_text() {
    let text = "the quick brown fox\njumps over\n\nthe lazy dog\n";
    let lines = wrap(text, 7);
    let widths = compute_line_widths(&lines);
    let total: u128 = widths.iter().map(|line| line.0).sum();
    let mut previous = compute_cursor_position(0, &widths);
    for offset in 1..=total {
        let next = compute_cursor_position(offset, &widths);
        assert!(previous.1 <= next.1);
        assert!(previous.1 < next.1 || previous.0 <= next.0);
        previous = next;
    }
}

#[test]
fn line_widths_count_a_newline_as_a_column() {
    let lines = wrap("hello\nworld", 10);
    assert_eq!(compute_line_widths(&lines), vec![LineWidth(6, true), LineWidth(5, false)]);
}

#[test]
fn line_widths_of_no_lines_are_none() {
    assert_eq!(compute_line_widths(&[]), Vec::<LineWidth>::new());
}

#[test]
fn measure_of_a_line_is_its_cursor_width_and_its_ending() {
    assert_eq!(measure_line(""), LineWidth(0, false));
    assert_eq!(measure_line("\n"), LineWidth(1, true));
    assert_eq!(measure_line("世界 "), LineWidth(5, false));
    assert_eq!(measure_line("a\nb"), LineWidth(3, false));
}

#[test]
fn clamp_folds_columns_beyond_the_width_into_rows() {
    assert_eq!(cursor_within_rect(12, 0, 10, 3), Some((2, 1)));
    assert_eq!(cursor_within_rect(25, 0, 10, 3), Some((5, 2)));
    assert_eq!(cursor_within_rect(10, 1, 10, 3), Some((0, 2)));
}

#[test]
fn clamp_drops_a_cursor_below_the_rectangle() {
    assert_eq!(cursor_within_rect(0, 5, 10, 3), None);
    assert_eq!(cursor_within_rect(0, 3, 10, 3), None);
    assert_eq!(cursor_within_rect(30, 0, 10, 3), None);
    assert_eq!(cursor_within_rect(10, 2, 10, 3), None);
    assert_eq!(cursor_within_rect(u128::MAX, u128::MAX, 10, 3), None);
    assert_eq!(cursor_within_rect(0, u128::MAX, u16::MAX, u16::MAX), None);
}

#[test]
fn clamp_drops_any_cursor_in_an_empty_rectangle() {
    assert_eq!(cursor_within_rect(0, 0, 0, 3), None);
    assert_eq!(cursor_within_rect(0, 0, 10, 0), None);
    assert_eq!(cursor_within_rect(0, 0, 0, 0), None);
}

#[test]
fn clamp_keeps_a_cursor_inside_the_rectangle() {
    assert_eq!(cursor_within_rect(0, 0, 10, 3), Some((0, 0)));
    assert_eq!(cursor_within_rect(9, 2, 10, 3), Some((9, 2)));
    assert_eq!(cursor_within_rect(0, 0, 1, 1), Some((0, 0)));
}

#[test]
fn clamp_answers_as_its_rule_says_on_a_grid() {
    for width in 0u16..5 {
        for height in 0u16..5 {
            for x in 0u128..12 {
                for y in 0u128..6 {
                    let point = cursor_within_rect(x, y, width, height);
                    let gone = width == 0 || height == 0 || y + x / width as u128 >= height as u128;
                    assert_eq!(point.is_none(), gone);
                    if let Some((px, py)) = point {
                        assert!(px < width && py < height);
                        assert_eq!(px as u128, x % width as u128);
                        assert_eq!(py as u128, y + x / width as u128);
                    }
                }
            }
        }
    }
}

#[test]
fn cursor_point_wraps_projects_and_clamps() {
    assert_eq!(cursor_point("hello\nworld", 0, 10, 3), Some((0, 0)));
    assert_eq!(cursor_point("hello\nworld", 6, 10, 3), Some((0, 1)));
    assert_eq!(cursor_point("hello\nworld", 11, 10, 3), Some((5, 1)));
    assert_eq!(cursor_point("aa bb", 3, 3, 2), Some((0, 1)));
    assert_eq!(cursor_point("aa bb", 5, 3, 1), None);
    assert_eq!(cursor_point("", 0, 10, 3), Some((0, 0)));
    assert_eq!(cursor_point("abc", 2, 0, 3), None);
}
