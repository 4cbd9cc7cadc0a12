//! The pause menu's labels.

use vstd::prelude::*;
use crate::lang::{or_key_spec, Language};

verus! {

/// The strings the pause menu needs, resolved through the language map by
/// the caller.
#[derive(Clone, Debug, PartialEq)]
pub struct PauseLabels {
    pub title: String,
    pub return_to_game: String,
    pub advancements: String,
    pub stats: String,
    pub options: String,
    pub disconnect: String,
    pub server_links: String,
}

pub const KEY_TITLE: &'static str = "menu.game";
pub const KEY_RETURN_TO_GAME: &'static str = "menu.returnToGame";
pub const KEY_ADVANCEMENTS: &'static str = "gui.advancements";
pub const KEY_STATS: &'static str = "gui.stats";
pub const KEY_OPTIONS: &'static str = "menu.options";
pub const KEY_DISCONNECT: &'static str = "menu.disconnect";
pub const KEY_SERVER_LINKS_BUTTON: &'static str = "menu.server_links";

impl PauseLabels {
    /// Every label looked up in `lang`, each falling back to its key.
    pub fn resolve(lang: &Language) -> (r: Self)
        ensures
            r.title@ == or_key_spec(lang.pairs(), KEY_TITLE@),
            r.return_to_game@ == or_key_spec(lang.pairs(), KEY_RETURN_TO_GAME@),
            r.advancements@ == or_key_spec(lang.pairs(), KEY_ADVANCEMENTS@),
            r.stats@ == or_key_spec(lang.pairs(), KEY_STATS@),
            r.options@ == or_key_spec(lang.pairs(), KEY_OPTIONS@),
            r.disconnect@ == or_key_spec(lang.pairs(), KEY_DISCONNECT@),
            r.server_links@ == or_key_spec(lang.pairs(), KEY_SERVER_LINKS_BUTTON@),
    {
        PauseLabels {
            title: lang.or_key(KEY_TITLE),
            return_to_game: lang.or_key(KEY_RETURN_TO_GAME),
            advancements: lang.or_key(KEY_ADVANCEMENTS),
            stats: lang.or_key(KEY_STATS),
            options: lang.or_key(KEY_OPTIONS),
            disconnect: lang.or_key(KEY_DISCONNECT),
            server_links: lang.or_key(KEY_SERVER_LINKS_BUTTON),
        }
    }
}

} // verus!
