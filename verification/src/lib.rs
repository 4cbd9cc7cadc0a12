//! Screen models and pure game-side logic of the Rewo client world: the
//! recipe book and its overlay, the craftability solver, text wrapping,
//! command suggestions, the sign editor, statistics and a handful of screen
//! helpers. Everything here is a function of plain values, stated against
//! mathematical models and proved by Verus.

pub mod arith;
pub mod text;
pub mod lang;
pub mod recipe_book_screen;
pub mod recipe_overlay;
pub mod ghost_slots;
pub mod recipe_search;
pub mod screen;
pub mod particles;
pub mod rotation;
pub mod server_links_screen;
pub mod pause_screen;
pub mod stats;
pub mod registry;
pub mod stats_screen;
pub mod utf16;
pub mod suggestions;
pub mod chat_style;
pub mod string_splitter;
pub mod sign_edit_screen;
pub mod stacked_contents;
pub mod sorting;
pub mod scroll_list;
