//! Text layout for editable multi-line fields: measuring, wrapping and
//! cursor placement, together with the small selection types of the editor.

pub mod cursor;
pub mod edit_command;
pub mod editable_text;
pub mod greedy;
pub mod pieces;
pub mod popup;
pub mod ranges;
pub mod selection;
pub mod text;
pub mod value;
pub mod width;
pub mod wrap;
pub mod wrap_model;
