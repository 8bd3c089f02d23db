use field_layout::edit_command::EditCommand;
use field_layout::popup::{PopUpComponent, PopUpKey, PopUpOutcome};
use field_layout::selection::{MultiTableSelection, MultiTableState};
use field_layout::text::same_text;
use field_layout::value::{InvalidValueTypeError, ValueType};

#[test]
fn edit_commands_need_their_numbers_of_selections() {
    assert_eq!(EditCommand::Add.num_selections(), 0);
    assert_eq!(EditCommand::Modify.num_selections(), 1);
    assert_eq!(EditCommand::Delete.num_selections(), 1);
    assert_eq!(EditCommand::Reorder.num_selections(), 4);
    assert_eq!(EditCommand::Swap.num_selections(), 2);
}

#[test]
fn only_modify_selects_cells() {
    assert!(EditCommand::Add.uses_rows());
    assert!(!EditCommand::Modify.uses_rows());
    assert!(EditCommand::Delete.uses_rows());
    assert!(EditCommand::Reorder.uses_rows());
    assert!(EditCommand::Swap.uses_rows());
}

#[test]
fn edit_commands_are_shown_by_their_names() {
    assert_eq!(EditCommand::Add.name(), "Add");
    assert_eq!(EditCommand::Modify.name(), "Modify");
    assert_eq!(EditCommand::Delete.name(), "Delete");
    assert_eq!(EditCommand::Reorder.name(), "Reorder");
    assert_eq!(EditCommand::Swap.name(), "Swap");
}

#[test]
fn popup_highlights_the_first_choice_unless_told_otherwise() {
    let choices = vec!["Yes".to_string(), "No".to_string()];
    let popup = PopUpComponent::new("Sure?".to_string(), choices.clone(), None);
    assert_eq!(popup.get_choice(), 0);
    assert_eq!(popup.prompt(), "Sure?");
    assert_eq!(popup.choices(), &choices);
    let popup = PopUpComponent::new("Sure?".to_string(), choices, Some(1));
    assert_eq!(popup.get_choice(), 1);
}

#[test]
fn popup_highlight_moves_between_the_first_and_the_last_choice() {
    let choices = vec!["a".to_string(), "b".to_string(), "c".to_string()];
    let mut popup = PopUpComponent::new("?".to_string(), choices, None);
    popup.highlight_previous();
    assert_eq!(popup.get_choice(), 0);
    popup.highlight_next();
    assert_eq!(popup.get_choice(), 1);
    popup.highlight_next();
    popup.highlight_next();
    assert_eq!(popup.get_choice(), 2);
    popup.highlight_previous();
    assert_eq!(popup.get_choice(), 1);
}

#[test]
fn popup_highlight_without_choices_stays() {
    let mut popup = PopUpComponent::new("?".to_string(), Vec::new(), Some(3));
    popup.highlight_next();
    assert_eq!(popup.get_choice(), 3);
    popup.highlight_previous();
    assert_eq!(popup.get_choice(), 2);
}

#[test]
fn popup_highlight_past_the_choices_comes_back_to_the_last() {
    let choices = vec!["a".to_string(), "b".to_string()];
    let mut popup = PopUpComponent::new("?".to_string(), choices, Some(9));
    popup.highlight_next();
    assert_eq!(popup.get_choice(), 1);
}

#[test]
fn popup_keys_move_the_highlight_or_end_the_prompt() {
    let choices = vec!["Yes".to_string(), "No".to_string()];
    let mut popup = PopUpComponent::new("Sure?".to_string(), choices, None);
    assert_eq!(popup.handle_key(PopUpKey::Right), PopUpOutcome::Stay);
    assert_eq!(popup.get_choice(), 1);
    assert_eq!(popup.handle_key(PopUpKey::Other), PopUpOutcome::Stay);
    assert_eq!(popup.get_choice(), 1);
    assert_eq!(popup.handle_key(PopUpKey::Enter), PopUpOutcome::Confirm);
    assert_eq!(popup.get_choice(), 1);
    assert_eq!(popup.handle_key(PopUpKey::Left), PopUpOutcome::Stay);
    assert_eq!(popup.get_choice(), 0);
    assert_eq!(popup.handle_key(PopUpKey::Escape), PopUpOutcome::Close);
    assert_eq!(popup.get_choice(), 0);
}

#[test]
fn selections_are_made_from_cells_and_rows() {
    assert_eq!(MultiTableSelection::from((2, 3)), MultiTableSelection::Cell((2, 3)));
    assert_eq!(MultiTableSelection::from(4), MultiTableSelection::Row(4));
    assert_ne!(MultiTableSelection::Row(2), MultiTableSelection::Cell((2, 0)));
    assert_ne!(MultiTableSelection::Cell((1, 2)), MultiTableSelection::Cell((2, 1)));
}

#[test]
fn new_selection_state_is_empty() {
    let state = MultiTableState::new(3);
    assert!(state.selections().is_empty());
    assert_eq!(state.max_selections(), 3);
    let state = MultiTableState::default();
    assert!(state.selections().is_empty());
    assert_eq!(state.max_selections(), 1);
}

#[test]
fn select_adds_at_the_end_until_the_maximum() {
    let mut state = MultiTableState::new(2);
    assert!(state.select(MultiTableSelection::Row(5)));
    assert!(state.select(MultiTableSelection::Row(1)));
    assert!(!state.select(MultiTableSelection::Row(9)));
    assert_eq!(state.selections(), &[MultiTableSelection::Row(5), MultiTableSelection::Row(1)]);
}

#[test]
fn select_of_a_selected_item_unselects_it() {
    let mut state = MultiTableState::new(3);
    state.select(MultiTableSelection::Cell((0, 1)));
    state.select(MultiTableSelection::Cell((2, 2)));
    assert!(!state.select(MultiTableSelection::Cell((0, 1))));
    assert_eq!(state.selections(), &[MultiTableSelection::Cell((2, 2))]);
}

#[test]
fn select_with_no_room_adds_nothing() {
    let mut state = MultiTableState::new(0);
    assert!(!state.select(MultiTableSelection::Row(0)));
    assert!(state.selections().is_empty());
}

#[test]
fn index_of_finds_a_selection() {
    let mut state = MultiTableState::new(3);
    state.select(MultiTableSelection::Row(7));
    state.select(MultiTableSelection::Row(3));
    assert_eq!(state.index_of(MultiTableSelection::Row(7)), Some(0));
    assert_eq!(state.index_of(MultiTableSelection::Row(3)), Some(1));
    assert_eq!(state.index_of(MultiTableSelection::Row(4)), None);
    assert_eq!(state.index_of(MultiTableSelection::Cell((7, 0))), None);
}

#[test]
fn clear_unselects_everything() {
    let mut state = MultiTableState::new(3);
    state.select(MultiTableSelection::Row(7));
    state.clear();
    assert!(state.selections().is_empty());
    assert_eq!(state.max_selections(), 3);
}

#[test]
fn set_max_selections_drops_the_latest_selections() {
    let mut state = MultiTableState::new(3);
    state.select(MultiTableSelection::Row(1));
    state.select(MultiTableSelection::Row(2));
    state.select(MultiTableSelection::Row(3));
    state.set_max_selections(2);
    assert_eq!(state.selections(), &[MultiTableSelection::Row(1), MultiTableSelection::Row(2)]);
    assert_eq!(state.max_selections(), 2);
    state.set_max_selections(5);
    assert_eq!(state.selections().len(), 2);
    assert!(state.select(MultiTableSelection::Row(3)));
}

#[test]
fn value_types_are_read_from_their_names() {
    assert_eq!(ValueType::try_from("NULL").ok(), Some(ValueType::Null));
    assert_eq!(ValueType::try_from("INTEGER").ok(), Some(ValueType::Integer));
    assert_eq!(ValueType::try_from("REAL").ok(), Some(ValueType::Real));
    assert_eq!(ValueType::try_from("TEXT").ok(), Some(ValueType::Text));
    assert_eq!(ValueType::try_from("BLOB").ok(), Some(ValueType::Blob));
}

#[test]
fn other_names_are_no_value_types() {
    for name in ["", "text", "INT", "TEXT ", "VARCHAR"] {
        match ValueType::try_from(name) {
            Ok(value_type) => panic!("{:?} was read as {:?}", name, value_type),
            Err(error) => {
                assert_eq!(error.origin(), name);
                assert_eq!(
                    error.message(),
                    format!("Trying to get ValueType from invalid string: {}", name)
                );
            }
        }
    }
}

#[test]
fn invalid_value_type_error_keeps_its_origin() {
    let error = InvalidValueTypeError::new("DATE".to_string());
    assert_eq!(error.origin(), "DATE");
    assert_eq!(error.message(), "Trying to get ValueType from invalid string: DATE");
}

#[test]
fn value_types_have_short_names() {
    assert_eq!(ValueType::Null.short_name(), "Null");
    assert_eq!(ValueType::Integer.short_name(), "Int");
    assert_eq!(ValueType::Real.short_name(), "Real");
    assert_eq!(ValueType::Text.short_name(), "Text");
    assert_eq!(ValueType::Blob.short_name(), "Blob");
}

#[test]
fn same_text_compares_character_by_character() {
    assert!(same_text("", ""));
    assert!(same_text("abc", "abc"));
    assert!(!same_text("abc", "abd"));
    assert!(!same_text("abc", "ab"));
    assert!(!same_text("世", "界"));
}
