use rewo_world::stacked_contents::{Ingredient, StackedContents};

fn contents(items: &[(i32, i32)]) -> StackedContents {
    let mut c = StackedContents::new();
    for &(item, count) in items {
        c.account(item, count);
    }
    c
}

#[test]
fn nothing_held_makes_nothing() {
    let mut c = StackedContents::new();
    assert!(!c.try_pick(&[Ingredient::of(&[1])], 1));
}

#[test]
fn a_single_ingredient_is_satisfied_by_a_single_item() {
    let mut c = contents(&[(1, 1)]);
    assert!(c.try_pick(&[Ingredient::of(&[1])], 1));
    assert!(!c.try_pick(&[Ingredient::of(&[2])], 1), "the wrong item");
}

#[test]
fn asking_does_not_consume() {
    let mut c = contents(&[(1, 1)]);
    let ing = [Ingredient::of(&[1])];
    assert!(c.try_pick(&ing, 1));
    assert!(c.try_pick(&ing, 1), "and again");
    assert_eq!(c.get(1), 1, "the count is untouched");
}

#[test]
fn one_item_type_serves_as_many_slots_as_its_count_allows() {
    let ing = [Ingredient::of(&[1]), Ingredient::of(&[1])];
    assert!(contents(&[(1, 5)]).try_pick(&ing, 1));
    assert!(contents(&[(1, 2)]).try_pick(&ing, 1), "exactly enough");
    assert!(!contents(&[(1, 1)]).try_pick(&ing, 1), "one short");
}

#[test]
fn overlapping_ingredients_need_a_real_matching() {
    let ing = [Ingredient::of(&[1, 2]), Ingredient::of(&[1])];
    assert!(contents(&[(1, 1), (2, 1)]).try_pick(&ing, 1));
    assert!(!contents(&[(2, 2)]).try_pick(&ing, 1));
}

#[test]
fn the_matching_does_not_depend_on_the_order_items_were_added() {
    let ing = [Ingredient::of(&[1, 2]), Ingredient::of(&[1])];
    assert!(contents(&[(1, 1), (2, 1)]).try_pick(&ing, 1));
    assert!(contents(&[(2, 1), (1, 1)]).try_pick(&ing, 1));
}

#[test]
fn an_augmenting_path_reassigns_what_it_has_to() {
    let ing = [
        Ingredient::of(&[1, 2, 3]),
        Ingredient::of(&[1, 2]),
        Ingredient::of(&[1]),
    ];
    assert!(contents(&[(1, 1), (2, 1), (3, 1)]).try_pick(&ing, 1));
    assert!(!contents(&[(1, 1), (2, 1)]).try_pick(&ing, 1));
}

#[test]
fn an_empty_ingredient_is_impossible() {
    let mut c = contents(&[(1, 64)]);
    assert!(!c.try_pick(&[Ingredient::default()], 1));
}

#[test]
fn a_batch_of_zero_is_always_craftable() {
    let mut c = StackedContents::new();
    assert!(c.try_pick(&[Ingredient::of(&[1])], 0));
    assert!(c.try_pick(&[Ingredient::of(&[1])], -1));
}

#[test]
fn a_bigger_batch_needs_proportionally_more() {
    let ing = [Ingredient::of(&[1])];
    let mut c = contents(&[(1, 5)]);
    assert!(c.try_pick(&ing, 5));
    assert!(!c.try_pick(&ing, 6));
}

#[test]
fn try_pick_all_finds_the_biggest_batch() {
    let ing = [Ingredient::of(&[1]), Ingredient::of(&[2])];
    assert_eq!(contents(&[(1, 5), (2, 9)]).try_pick_all(&ing, 64), 5);
    assert_eq!(contents(&[(1, 5), (2, 9)]).try_pick_all(&ing, 3), 3, "capped");
    assert_eq!(contents(&[(1, 0), (2, 9)]).try_pick_all(&ing, 64), 0);
}

#[test]
fn a_stack_counts_at_most_its_own_maximum() {
    let mut c = StackedContents::new();
    c.account_stack(1, 100, 64);
    assert_eq!(c.get(1), 64);
    c.clear();
    c.account_stack(1, 3, 64);
    assert_eq!(c.get(1), 3);
    c.clear();
    c.account_stack(1, 0, 64);
    assert!(c.is_empty());
}

#[test]
fn accounting_the_same_item_twice_adds_up() {
    let mut c = StackedContents::new();
    c.account_stack(1, 30, 64);
    c.account_stack(1, 30, 64);
    assert_eq!(c.get(1), 60);
    assert!(c.try_pick(&[Ingredient::of(&[1])], 60));
}

#[test]
fn a_zero_count_item_is_inert_rather_than_excluded() {
    let mut c = StackedContents::new();
    c.account(1, 0);
    c.account(2, 1);
    assert!(!c.try_pick(&[Ingredient::of(&[1])], 1));
    assert!(c.try_pick(&[Ingredient::of(&[2])], 1));
}

fn brute_force_from(items: &[(i32, i32)], ings: &[Ingredient], cap: i32, i: usize, used: &mut Vec<i32>) -> bool {
    if i == ings.len() {
        return true;
    }
    for (k, &(item, count)) in items.iter().enumerate() {
        if ings[i].accepts.contains(&item) && used[k] + cap <= count {
            used[k] += cap;
            if brute_force_from(items, ings, cap, i + 1, used) {
                used[k] -= cap;
                return true;
            }
            used[k] -= cap;
        }
    }
    false
}

fn brute_force(items: &[(i32, i32)], ingredients: &[Ingredient], capacity: i32) -> bool {
    if capacity <= 0 {
        return true;
    }
    brute_force_from(items, ingredients, capacity, 0, &mut vec![0; items.len()])
}

#[test]
fn the_matcher_agrees_with_brute_force_on_every_small_problem() {
    let subsets: Vec<Ingredient> = (0..8)
        .map(|m: u32| {
            Ingredient::of(
                &(0..3)
                    .filter(|b| m >> b & 1 == 1)
                    .map(|b| b as i32 + 1)
                    .collect::<Vec<_>>(),
            )
        })
        .collect();
    let mut checked = 0u32;
    for counts in 0..27u32 {
        let items: Vec<(i32, i32)> = (0..3)
            .map(|k| (k as i32 + 1, (counts / 3u32.pow(k)) as i32 % 3))
            .collect();
        for a in 0..8usize {
            for b in 0..8usize {
                for d in 0..8usize {
                    let ings = [subsets[a].clone(), subsets[b].clone(), subsets[d].clone()];
                    for capacity in 1..=2 {
                        let mut c = StackedContents::new();
                        for &(item, count) in &items {
                            c.account(item, count);
                        }
                        let got = c.try_pick(&ings, capacity);
                        let want = brute_force(&items, &ings, capacity);
                        assert_eq!(got, want, "items {:?} ingredients {:?} capacity {}", items, ings, capacity);
                        checked += 1;
                    }
                }
            }
        }
    }
    assert_eq!(checked, 27 * 8 * 8 * 8 * 2);
}

#[test]
fn a_stack_of_sixty_four_fills_a_nine_slot_recipe() {
    let ing: Vec<_> = (0..9).map(|_| Ingredient::of(&[1])).collect();
    assert!(contents(&[(1, 64)]).try_pick(&ing, 1));
    assert!(contents(&[(1, 9)]).try_pick(&ing, 1), "exactly nine");
    assert!(!contents(&[(1, 8)]).try_pick(&ing, 1), "eight is one short");
    assert!(contents(&[(1, 63)]).try_pick(&ing, 7));
    assert!(!contents(&[(1, 62)]).try_pick(&ing, 7));
}

#[test]
fn try_pick_all_of_nothing_wanted_is_the_cap() {
    let mut c = contents(&[(1, 5)]);
    assert_eq!(c.try_pick_all(&[], 10), 10);
    assert_eq!(c.try_pick_all(&[Ingredient::of(&[1])], 0), 0);
    assert_eq!(c.get(1), 5);
}

#[test]
fn has_at_least_reads_the_count() {
    let c = contents(&[(1, 5), (2, 0)]);
    assert!(c.has_at_least(1, 5));
    assert!(!c.has_at_least(1, 6));
    assert!(c.has_at_least(3, 0));
    assert!(!c.is_empty());
    assert!(Ingredient::of(&[4, 7]).accepts_item(7));
    assert!(!Ingredient::default().accepts_item(7));
}

#[test]
fn the_answer_does_not_depend_on_the_order_items_were_seen() {
    let ings = [Ingredient::of(&[1, 2]), Ingredient::of(&[1]), Ingredient::of(&[2, 3])];
    let mut forward = contents(&[(1, 2), (2, 1), (3, 1)]);
    let mut backward = contents(&[(3, 1), (2, 1), (1, 2)]);
    for amount in 0..4 {
        assert_eq!(forward.try_pick(&ings, amount), backward.try_pick(&ings, amount), "amount {amount}");
    }
    assert!(forward.try_pick(&ings, 1));
    assert!(!forward.try_pick(&ings, 2));
    assert_eq!(forward.try_pick_all(&ings, 64), backward.try_pick_all(&ings, 64));
}

#[test]
fn try_pick_all_is_the_largest_batch_that_fits() {
    let ings = [Ingredient::of(&[1]), Ingredient::of(&[1, 2])];
    let mut c = contents(&[(1, 10), (2, 3)]);
    assert_eq!(c.try_pick_all(&ings, 64), 5, "ten of item 1 split over both slots beats three of item 2");
    assert_eq!(c.try_pick_all(&ings, 4), 4, "the cap wins when it is lower");
    let mut none = contents(&[(2, 3)]);
    assert_eq!(none.try_pick_all(&ings, 64), 0);
}

#[test]
fn try_pick_all_below_one_halves_toward_zero() {
    let ings = [Ingredient::of(&[1])];
    let mut c = contents(&[(1, 10)]);
    assert_eq!(c.try_pick_all(&ings, 0), 0);
    assert_eq!(c.try_pick_all(&ings, -1), 0);
    assert_eq!(c.try_pick_all(&ings, -2), 0);
    assert_eq!(c.try_pick_all(&ings, -3), -1);
    assert_eq!(c.try_pick_all(&ings, -6), -2);
}
