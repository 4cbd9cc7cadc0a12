//! `EntityAnchorArgument.Anchor`, as the look-at packet reads it.

use vstd::prelude::*;

verus! {

/// `EntityAnchorArgument.Anchor`, in declaration order — the order
/// `readEnum` indexes.
#[derive(Clone, Copy, Debug, PartialEq, Eq, Structural)]
pub enum Anchor {
    Feet,
    Eyes,
}

impl Anchor {
    /// `readEnum`'s lookup: `values()[ordinal]`. `None` is vanilla's
    /// out-of-bounds error — the caller rejects the packet rather than
    /// defaulting.
    pub fn from_ordinal(ordinal: i32) -> (r: Option<Anchor>)
        ensures
            r == if ordinal == 0 {
                Some(Anchor::Feet)
            } else if ordinal == 1 {
                Some(Anchor::Eyes)
            } else {
                None::<Anchor>
            },
    {
        if ordinal == 0 {
            Some(Anchor::Feet)
        } else if ordinal == 1 {
            Some(Anchor::Eyes)
        } else {
            None
        }
    }
}

} // verus!
