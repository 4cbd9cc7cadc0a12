use rewo_world::rotation::Anchor;

#[test]
fn anchor_ordinals_are_readenum_not_a_default() {
    assert_eq!(Anchor::from_ordinal(0), Some(Anchor::Feet));
    assert_eq!(Anchor::from_ordinal(1), Some(Anchor::Eyes));
    assert_eq!(Anchor::from_ordinal(2), None);
    assert_eq!(Anchor::from_ordinal(-1), None);
}
