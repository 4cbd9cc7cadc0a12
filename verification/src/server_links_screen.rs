//! The server-links dialog's widget ids and labels.

use vstd::prelude::*;
use crate::screen::WidgetId;

verus! {

/// The footer's exit action.
pub const BACK: WidgetId = 0;
/// The reserved warning button in the header.
pub const WARNING: WidgetId = 1;
/// The title label.
pub const TITLE: WidgetId = 2;
/// The first link button; link `n` is `LINK_BASE + n`.
pub const LINK_BASE: WidgetId = 16;

/// Which link a widget id names, if it is one.
pub fn link_index(id: WidgetId) -> (r: Option<usize>)
    ensures
        r == if id >= LINK_BASE { Some((id - LINK_BASE) as usize) } else { None::<usize> },
{
    if id >= LINK_BASE {
        Some((id - LINK_BASE) as usize)
    } else {
        None
    }
}

/// The strings this screen needs, resolved by the caller; `links` are the
/// buttons' labels in the server's order.
#[derive(Clone, Debug, PartialEq)]
pub struct ServerLinksLabels {
    pub title: String,
    pub back: String,
    pub links: Vec<String>,
}

} // verus!
