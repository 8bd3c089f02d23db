use field_layout::greedy::greedy_groups;
use field_layout::pieces::{cut_after, cut_pieces, mark_boundaries, Boundary};
use field_layout::width::measure_chars;

#[test]
fn marks_stand_at_the_boundary_characters() {
    assert_eq!(mark_boundaries("", Boundary::Newline), Vec::<bool>::new());
    assert_eq!(mark_boundaries("a\nb ", Boundary::Newline), vec![false, true, false, false]);
    assert_eq!(mark_boundaries("a\nb ", Boundary::Whitespace), vec![false, true, false, true]);
    assert_eq!(
        mark_boundaries("a\tb\u{a0}c\u{3000}", Boundary::Whitespace),
        vec![false, true, false, true, false, true]
    );
}

#[test]
fn cuts_fall_after_each_mark() {
    assert_eq!(cut_after(&[]), vec![]);
    assert_eq!(cut_after(&[false]), vec![(0, 1)]);
    assert_eq!(cut_after(&[true]), vec![(0, 1)]);
    assert_eq!(cut_after(&[false, false, true, false, false]), vec![(0, 3), (3, 5)]);
    assert_eq!(cut_after(&[false, true, true, false]), vec![(0, 2), (2, 3), (3, 4)]);
    assert_eq!(cut_after(&[true, false, true]), vec![(0, 1), (1, 3)]);
}

#[test]
fn cuts_divide_all_indices() {
    let marks = [false, true, false, false, true, true, false];
    let ranges = cut_after(&marks);
    let mut at = 0;
    for (first, last) in ranges.iter() {
        assert_eq!(*first, at);
        assert!(first < last);
        assert!(marks[*first..*last - 1].iter().all(|mark| !mark));
        at = *last;
    }
    assert_eq!(at, marks.len());
}

#[test]
fn pieces_of_a_text_end_after_their_boundaries() {
    assert_eq!(cut_pieces("", Boundary::Newline), Vec::<&str>::new());
    assert_eq!(cut_pieces("a\nb\n", Boundary::Newline), vec!["a\n", "b\n"]);
    assert_eq!(cut_pieces("a\n\nb", Boundary::Newline), vec!["a\n", "\n", "b"]);
    assert_eq!(cut_pieces("one two  3", Boundary::Whitespace), vec!["one ", "two ", " ", "3"]);
    assert_eq!(cut_pieces("世界 é", Boundary::Whitespace), vec!["世界 ", "é"]);
}

#[test]
fn greedy_groups_fill_up_to_the_budget() {
    assert_eq!(greedy_groups(&[], 5), vec![]);
    assert_eq!(greedy_groups(&[3, 2], 3), vec![(0, 1), (1, 2)]);
    assert_eq!(greedy_groups(&[3, 2], 5), vec![(0, 2)]);
    assert_eq!(greedy_groups(&[2, 1, 2], 3), vec![(0, 2), (2, 3)]);
    assert_eq!(greedy_groups(&[1, 1, 1, 1, 1], 2), vec![(0, 2), (2, 4), (4, 5)]);
}

#[test]
fn greedy_groups_keep_a_wide_item_alone() {
    assert_eq!(greedy_groups(&[9], 3), vec![(0, 1)]);
    assert_eq!(greedy_groups(&[1, 9, 1], 3), vec![(0, 1), (1, 2), (2, 3)]);
    assert_eq!(greedy_groups(&[0, 9, 0], 3), vec![(0, 1), (1, 2), (2, 3)]);
    assert_eq!(greedy_groups(&[1, 1], 0), vec![(0, 1), (1, 2)]);
    assert_eq!(greedy_groups(&[u128::MAX, u128::MAX, 1], u16::MAX), vec![(0, 1), (1, 2), (2, 3)]);
}

#[test]
fn greedy_groups_take_items_without_width_along() {
    assert_eq!(greedy_groups(&[0, 0, 0], 0), vec![(0, 3)]);
    assert_eq!(greedy_groups(&[2, 0, 0, 2], 2), vec![(0, 3), (3, 4)]);
}

#[test]
fn measure_chars_gives_the_width_of_each_character() {
    assert_eq!(measure_chars(""), Vec::<u128>::new());
    assert_eq!(measure_chars("a世\n\u{301}\u{17d8}"), vec![1, 2, 0, 0, 3]);
}
