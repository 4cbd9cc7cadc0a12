use rewo_world::ghost_slots::place_recipe;
use rewo_world::recipe_overlay::{
    button_pos, click, cols, grid_positions, hit, max_row, panel_size, promote, rows,
    select_ingredient, Click, Pos, Shape, BUTTON_SIZE,
};

#[test]
fn the_row_width_steps_up_after_sixteen_not_after_four_rows() {
    assert_eq!(max_row(16), 4, "sixteen is four rows of four");
    assert_eq!(max_row(17), 5);
    assert_eq!(rows(16), 4);
    assert_eq!(rows(17), 4);
    assert_eq!(cols(16), 4);
    assert_eq!(cols(17), 5);
}

#[test]
fn the_panel_pads_four_one_side_and_five_the_other() {
    assert_eq!(panel_size(2), (58, 33));
    let (w, h) = panel_size(2);
    let (bx, by) = button_pos(1, 2);
    assert_eq!(button_pos(0, 2).0, 4);
    assert_eq!(w - (bx + BUTTON_SIZE), 5, "right margin is 5, not 4");
    assert_eq!(by, 5);
    assert_eq!(h - (by + BUTTON_SIZE), 4, "bottom margin is 4, not 5");
}

#[test]
fn craftable_recipes_are_promoted_ahead_of_the_rest() {
    let all = [(7, true), (3, false), (8, true)];
    assert_eq!(
        promote(&all, false),
        vec![(7, true), (8, true), (3, false)],
        "craftable first, and stable within each half"
    );
    assert_eq!(promote(&all, true), vec![(7, true), (8, true)]);
}

#[test]
fn a_shaped_recipe_centres_the_way_the_grid_index_says() {
    assert_eq!(
        grid_positions(false, Shape::Shaped { w: 1, h: 1, ingredients: 1 }),
        vec![Pos { x: 3 + 7, y: 3 + 7, ingredient: 0 }]
    );
    let full = grid_positions(false, Shape::Shaped { w: 3, h: 3, ingredients: 9 });
    assert_eq!(full.len(), 9);
    assert_eq!(full[0], Pos { x: 3, y: 3, ingredient: 0 });
    assert_eq!(full[8], Pos { x: 3 + 14, y: 3 + 14, ingredient: 8 });
}

#[test]
fn a_shape_that_centres_on_one_axis_only_pins_which_way_round_it_is() {
    assert_eq!(
        place_recipe(3, 3, 2, 1, 2),
        vec![3, 4],
        "row 0 is skipped, so the pair is the middle row's first two cells"
    );
    assert_eq!(
        grid_positions(false, Shape::Shaped { w: 2, h: 1, ingredients: 2 }),
        vec![
            Pos { x: 3, y: 3 + 7, ingredient: 0 },
            Pos { x: 3 + 7, y: 3 + 7, ingredient: 1 },
        ]
    );
}

#[test]
fn a_shapeless_recipe_fills_from_the_corner_where_a_shaped_one_centres() {
    let shapeless = grid_positions(false, Shape::Shapeless { ingredients: 1 });
    let shaped = grid_positions(false, Shape::Shaped { w: 1, h: 1, ingredients: 1 });
    assert_eq!(
        shapeless,
        vec![Pos { x: 3, y: 3, ingredient: 0 }],
        "top-left, not the middle"
    );
    assert_ne!(shapeless, shaped);
}

#[test]
fn the_button_class_follows_the_menu_and_not_the_display() {
    assert_eq!(
        grid_positions(true, Shape::Furnace),
        vec![Pos { x: 3 + 7, y: 3 + 7, ingredient: 0 }],
        "a furnace book centres its single ingredient"
    );
    assert!(
        grid_positions(true, Shape::Shaped { w: 3, h: 3, ingredients: 9 }).is_empty(),
        "a furnace book draws nothing for a shaped display"
    );
    assert!(
        grid_positions(false, Shape::Furnace).is_empty(),
        "and a crafting book draws nothing for a furnace one"
    );
    assert!(grid_positions(false, Shape::Other).is_empty());
}

#[test]
fn the_ingredient_cycle_has_one_level_where_the_cells_has_two() {
    assert_eq!(select_ingredient(3, 0), Some(0));
    assert_eq!(select_ingredient(3, 4), Some(1));
    assert_eq!(select_ingredient(3, 3), Some(0));
    assert_eq!(select_ingredient(0, 7), None, "an empty ingredient shows nothing");
}

#[test]
fn a_click_lands_on_a_button_but_not_in_the_gutter_between_two() {
    let (bx, by) = button_pos(1, 4);
    assert_eq!(hit(bx, by, 4), Some(1));
    assert_eq!(hit(bx + BUTTON_SIZE - 1, by + BUTTON_SIZE - 1, 4), Some(1));
    assert_eq!(hit(bx + BUTTON_SIZE, by, 4), None);
    assert_eq!(hit(bx, by + BUTTON_SIZE, 4), None);
    assert_eq!(hit(0, 0, 4), None);
}

#[test]
fn a_right_click_closes_the_overlay_its_own_button_opened() {
    let (bx, by) = button_pos(2, 4);
    assert_eq!(click(bx, by, 4, false), Click::Select(2));
    assert_eq!(
        click(bx, by, 4, true),
        Click::Close,
        "the button that opens it does not select in it"
    );
    assert_eq!(click(0, 0, 4, false), Click::Close);
}
