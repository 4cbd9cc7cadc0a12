use rewo_world::lang::Language;
use rewo_world::pause_screen::PauseLabels;

#[test]
fn the_pause_labels_resolve_through_the_language_and_fall_back_to_their_keys() {
    let l = Language::from_map(&[
        ("menu.game", "Game Menu"),
        ("menu.returnToGame", "Back to Game"),
        ("menu.disconnect", "Disconnect"),
    ]);
    let labels = PauseLabels::resolve(&l);
    assert_eq!(labels.title, "Game Menu");
    assert_eq!(labels.return_to_game, "Back to Game");
    assert_eq!(labels.advancements, "gui.advancements");
    assert_eq!(labels.stats, "gui.stats");
    assert_eq!(labels.options, "menu.options");
    assert_eq!(labels.disconnect, "Disconnect");
    assert_eq!(labels.server_links, "menu.server_links");
}
