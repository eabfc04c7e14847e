//! Child layout planning and reference emission for Vapor templates.

pub mod ast;
pub mod chars;
pub mod deferred;
pub mod element;
pub mod generate;
pub mod generate_laws;
pub mod ir;
pub mod key;
pub mod layout;
pub mod layout_laws;
pub mod layout_positions;
pub mod sibling_navigation;
pub mod text;
