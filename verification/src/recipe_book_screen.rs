//! The recipe book's screen model — tabs, collections, filtering, pagination
//! and geometry.
//!
//! The book is positioned against the **window**, not against a panel:
//! `getXOrigin` is `(width - 147) / 2 - xOffset`, centred on the window and
//! then pushed left by 86 to sit beside the menu, and the push collapses to 0
//! on a narrow window, where the book covers the menu instead of flanking it.

use vstd::prelude::*;
use crate::arith::{tdiv, ceil_div, usize_div_ceil};
use crate::text::{str_eq, lowercase, to_lowercase, chars_of, string_from_chars, decimal, push_decimal};
use crate::lang::{fill, format_chars};

verus! {

/// `IMAGE_WIDTH` / `IMAGE_HEIGHT`.
pub const IMAGE_W: i32 = 147;
pub const IMAGE_H: i32 = 166;
/// `OFFSET_X_POSITION` — how far left of centre the book sits beside a menu.
pub const OFFSET_X: i32 = 86;

/// `ITEMS_PER_PAGE`, and the grid it fills.
pub const ITEMS_PER_PAGE: usize = 20;
pub const GRID_COLS: i32 = 5;
pub const GRID_ROWS: i32 = 4;
/// `setPosition(xo + 11 + 25 * (i % 5), yo + 31 + 25 * (i / 5))`.
pub const GRID_X: i32 = 11;
pub const GRID_Y: i32 = 31;
pub const GRID_PITCH: i32 = 25;

/// The page arrows — `ImageButton(xo + 93 | xo + 38, yo + 137, 12, 17)`.
pub const PAGE_FORWARD_X: i32 = 93;
pub const PAGE_BACK_X: i32 = 38;
pub const PAGE_ARROW_Y: i32 = 137;
pub const PAGE_ARROW_W: i32 = 12;
pub const PAGE_ARROW_H: i32 = 17;

/// The search field — `EditBox(font, xo + 25, yo + 13, 81, 9 + 5)`, max 50.
pub const SEARCH_X: i32 = 25;
pub const SEARCH_Y: i32 = 13;
pub const SEARCH_W: i32 = 81;
pub const SEARCH_H: i32 = 14;
pub const SEARCH_MAX_LENGTH: usize = 50;

/// The field's own text geometry: inset 4, vertically centred (3 for a
/// 14-tall field), and clipped to `width - 8`.
pub const SEARCH_TEXT_X: i32 = 29;
pub const SEARCH_TEXT_Y: i32 = 16;
pub const SEARCH_INNER_W: i32 = 73;

/// `gui.recipebook.search_hint`, drawn when the field is empty and unfocused.
pub const SEARCH_HINT: &'static str = "Search...";

/// The filter toggle — `create(xo + 110, yo + 12, 26, 16, …)`.
pub const FILTER_X: i32 = 110;
pub const FILTER_Y: i32 = 12;
pub const FILTER_W: i32 = 26;
pub const FILTER_H: i32 = 16;

/// The tab column — `xPosTab = getXOrigin() - 30`, `yPosTab = getYOrigin() + 3`,
/// pitch 27.
pub const TAB_DX: i32 = -30;
pub const TAB_DY: i32 = 3;
pub const TAB_PITCH: i32 = 27;

/// `AbstractRecipeBookScreen.init` — `widthTooNarrow = width < 379`.
pub const WIDTH_TOO_NARROW_BELOW: i32 = 379;

/// `RecipeBookTabButton` — 35x27.
pub const TAB_W: i32 = 35;
pub const TAB_H: i32 = 27;

/// The page counter is centred on 73 (not the panel's true 73.5), at y 141.
pub const PAGE_LABEL_CENTRE_X: i32 = 73;
pub const PAGE_LABEL_Y: i32 = 141;

/// The counter's translation key; its `en_us` value is `%s/%s`.
pub const PAGE_LABEL_KEY: &'static str = "gui.recipebook.page";

/// The magnifier icon's rect: x 8 and a width of 25 — the search box's own x,
/// so it overlaps the box rather than abutting it.
pub const MAGNIFIER_X: i32 = 8;
pub const MAGNIFIER_W: i32 = 25;

/// Where the panel is sampled from `recipe_book.png`: `(1, 1)`.
pub const PANEL_SOURCE: (i32, i32) = (1, 1);

/// A recipe button is 25x25 — the same as the grid pitch, so the buttons abut
/// with no gap and a click can never fall between two.
pub const SLOT_SIZE: i32 = 25;

/// The field's background sprite — `SPRITES.get(isActive(), isFocused())`,
/// keyed exactly on focus.
pub fn search_sprite_focused(focused: bool) -> (r: bool)
    ensures
        r == focused,
{
    focused
}

/// The book's x origin, as `getXOrigin` computes it.
pub open spec fn x_origin_spec(width: int, too_narrow: bool) -> int {
    tdiv(width - IMAGE_W, 2) - if too_narrow { 0int } else { OFFSET_X as int }
}

/// `getXOrigin` — window-relative, and pushed left by `OFFSET_X` unless the
/// window is too narrow to flank the menu.
pub fn x_origin(width: i32, too_narrow: bool) -> (r: i32)
    requires
        width >= i32::MIN + IMAGE_W,
    ensures
        r == x_origin_spec(width as int, too_narrow),
{
    (width - IMAGE_W) / 2 - if too_narrow { 0 } else { OFFSET_X }
}

/// `getYOrigin`.
pub fn y_origin(height: i32) -> (r: i32)
    requires
        height >= i32::MIN + IMAGE_H,
    ensures
        r == tdiv(height - IMAGE_H, 2),
{
    (height - IMAGE_H) / 2
}

/// The book-relative top-left of recipe button `i` of a page.
pub open spec fn grid_slot_spec(i: int) -> (int, int) {
    (GRID_X + GRID_PITCH * (i % 5), GRID_Y + GRID_PITCH * (i / 5))
}

/// Where recipe button `i` of a page sits, relative to the book's origin.
pub fn grid_slot(i: usize) -> (r: (i32, i32))
    requires
        GRID_Y + GRID_PITCH * (i / 5) <= i32::MAX,
    ensures
        r.0 == grid_slot_spec(i as int).0,
        r.1 == grid_slot_spec(i as int).1,
{
    let col = (i % 5) as i32;
    let row = (i / 5) as i32;
    (GRID_X + GRID_PITCH * col, GRID_Y + GRID_PITCH * row)
}

/// `ceil(collections / 20)`: an empty book has no pages at all.
pub open spec fn total_pages_spec(collections: int) -> int {
    ceil_div(collections, ITEMS_PER_PAGE as int)
}

/// `totalPages = (int) Math.ceil(size / 20.0)` — zero collections give zero
/// pages, not one.
pub fn total_pages(collections: usize) -> (r: usize)
    ensures
        r == total_pages_spec(collections as int),
{
    usize_div_ceil(collections, ITEMS_PER_PAGE)
}

/// `if (totalPages <= currentPage || resetPage) currentPage = 0;` — a page
/// index equal to the count resets, and the reset is to the front.
pub fn clamp_page(current: usize, collections: usize, reset: bool) -> (r: usize)
    ensures
        r == if reset || total_pages_spec(collections as int) <= current { 0 } else { current },
{
    if reset || total_pages(collections) <= current {
        0
    } else {
        current
    }
}

/// The first collection index a page shows, clamped to the list.
pub open spec fn page_start(page: int, collections: int) -> int {
    if ITEMS_PER_PAGE * page <= collections { ITEMS_PER_PAGE * page } else { collections }
}

/// Which collection indices a page shows — `startOffset = 20 * currentPage`,
/// then up to 20; a page past the end is empty rather than a panic.
pub fn page_range(page: usize, collections: usize) -> (r: std::ops::Range<usize>)
    ensures
        r.start == page_start(page as int, collections as int),
        r.end == if page_start(page as int, collections as int) + ITEMS_PER_PAGE <= collections {
            page_start(page as int, collections as int) + ITEMS_PER_PAGE
        } else {
            collections as int
        },
{
    let start = if page <= collections / ITEMS_PER_PAGE {
        ITEMS_PER_PAGE * page
    } else {
        collections
    };
    let end = if collections - start >= ITEMS_PER_PAGE {
        start + ITEMS_PER_PAGE
    } else {
        collections
    };
    start..end
}

/// Where a tab's button sits, relative to the book's origin, by its position
/// among the visible tabs.
pub fn tab_position(index: i32) -> (r: (i32, i32))
    requires
        TAB_DY + TAB_PITCH * index <= i32::MAX,
        TAB_DY + TAB_PITCH * index >= i32::MIN,
    ensures
        r == (TAB_DX, (TAB_DY + TAB_PITCH * index) as i32),
{
    (TAB_DX, TAB_DY + TAB_PITCH * index)
}

/// `Inventory.items` as menu slots — armour, storage, hotbar and offhand:
/// 5..46, so neither the player menu's 2x2 grid (1..5) nor its result (0).
pub const PLAYER_ITEM_SLOTS: std::ops::Range<usize> = 5..46;

/// Which of an open menu's slots feed `fillCraftSlotsStackedContents`.
///
/// The crafting family contributes its input grid only, gated by
/// `isUsableForCrafting`; the furnace family contributes its whole
/// three-slot container, result included, ungated.
#[derive(Debug, PartialEq, Eq)]
pub struct CraftSlots {
    /// Menu slot indices, inclusive-exclusive.
    pub range: std::ops::Range<usize>,
    /// Whether `isUsableForCrafting` gates them.
    pub gated: bool,
}

/// The craft slots of the menu a book is open over. The player's own
/// inventory is a 2x2 grid at 1..5; a crafting table 3x3 at 1..10; the three
/// furnaces 0..3.
pub fn craft_slots(book: BookType, player_inventory: bool) -> (r: Option<CraftSlots>)
    ensures
        r is Some,
        player_inventory ==> r->0.range.start == 1 && r->0.range.end == 5 && r->0.gated,
        !player_inventory && book == BookType::Crafting ==> r->0.range.start == 1
            && r->0.range.end == 10 && r->0.gated,
        !player_inventory && book != BookType::Crafting ==> r->0.range.start == 0
            && r->0.range.end == 3 && !r->0.gated,
{
    if player_inventory {
        return Some(CraftSlots { range: 1..5, gated: true });
    }
    Some(
        match book {
            BookType::Crafting => CraftSlots { range: 1..10, gated: true },
            BookType::Furnace | BookType::BlastFurnace | BookType::Smoker => CraftSlots {
                range: 0..3,
                gated: false,
            },
        },
    )
}

/// One tab of one book — its icon(s), the categories it shows, and whether
/// it is the book's search tab (explicit, because the smoker's search tab has
/// exactly one category, like its single category tab).
#[derive(Debug, Clone, Copy, PartialEq, Eq)]
pub struct BookTab {
    pub primary: &'static str,
    pub secondary: Option<&'static str>,
    pub categories: &'static [&'static str],
    pub search: bool,
}

impl BookTab {
    pub fn is_search(&self) -> (r: bool)
        ensures
            r == self.search,
    {
        self.search
    }
}

/// The four books, in `RecipeBookSettings`' positional order.
#[derive(Debug, Clone, Copy, PartialEq, Eq, Structural)]
pub enum BookType {
    Crafting,
    Furnace,
    BlastFurnace,
    Smoker,
}

impl Default for BookType {
    /// The crafting book.
    fn default() -> (r: Self)
        ensures
            r == BookType::Crafting,
    {
        BookType::Crafting
    }
}

impl BookType {
    /// The four books, in order.
    pub const ALL: [BookType; 4] = [BookType::Crafting, BookType::Furnace, BookType::BlastFurnace, BookType::Smoker];

    /// `RecipeBookSettings`' index — and `RecipeBookType`'s ordinal.
    pub open spec fn index_spec(self) -> int {
        match self {
            BookType::Crafting => 0,
            BookType::Furnace => 1,
            BookType::BlastFurnace => 2,
            BookType::Smoker => 3,
        }
    }

    pub fn index(self) -> (r: usize)
        ensures
            r == self.index_spec(),
    {
        match self {
            BookType::Crafting => 0,
            BookType::Furnace => 1,
            BookType::BlastFurnace => 2,
            BookType::Smoker => 3,
        }
    }

    /// Whether this book's filter toggle uses the furnace art: every book but
    /// crafting.
    pub fn furnace_family(self) -> (r: bool)
        ensures
            r == (self != BookType::Crafting),
    {
        match self {
            BookType::Crafting => false,
            _ => true,
        }
    }
}

/// The tabs of each book, in vanilla's own hand-written order: crafting five,
/// furnace four, blast furnace three, smoker two; the first is always the
/// search tab, whose categories are the union of the others'.
pub open spec fn tabs_of(b: BookType) -> Seq<BookTab> {
    match b {
        BookType::Crafting => seq![
            BookTab {
                primary: "compass",
                secondary: None,
                search: true,
                categories: &["minecraft:crafting_equipment", "minecraft:crafting_building_blocks", "minecraft:crafting_misc", "minecraft:crafting_redstone"],
            },
            BookTab {
                primary: "iron_axe",
                secondary: Some("golden_sword"),
                search: false,
                categories: &["minecraft:crafting_equipment"],
            },
            BookTab {
                primary: "bricks",
                secondary: None,
                search: false,
                categories: &["minecraft:crafting_building_blocks"],
            },
            BookTab {
                primary: "lava_bucket",
                secondary: Some("apple"),
                search: false,
                categories: &["minecraft:crafting_misc"],
            },
            BookTab {
                primary: "redstone",
                secondary: None,
                search: false,
                categories: &["minecraft:crafting_redstone"],
            },
        ],
        BookType::Furnace => seq![
            BookTab {
                primary: "compass",
                secondary: None,
                search: true,
                categories: &["minecraft:furnace_food", "minecraft:furnace_blocks", "minecraft:furnace_misc"],
            },
            BookTab {
                primary: "porkchop",
                secondary: None,
                search: false,
                categories: &["minecraft:furnace_food"],
            },
            BookTab {
                primary: "stone",
                secondary: None,
                search: false,
                categories: &["minecraft:furnace_blocks"],
            },
            BookTab {
                primary: "lava_bucket",
                secondary: Some("emerald"),
                search: false,
                categories: &["minecraft:furnace_misc"],
            },
        ],
        BookType::BlastFurnace => seq![
            BookTab {
                primary: "compass",
                secondary: None,
                search: true,
                categories: &["minecraft:blast_furnace_blocks", "minecraft:blast_furnace_misc"],
            },
            BookTab {
                primary: "redstone_ore",
                secondary: None,
                search: false,
                categories: &["minecraft:blast_furnace_blocks"],
            },
            BookTab {
                primary: "iron_shovel",
                secondary: Some("golden_leggings"),
                search: false,
                categories: &["minecraft:blast_furnace_misc"],
            },
        ],
        BookType::Smoker => seq![
            BookTab {
                primary: "compass",
                secondary: None,
                search: true,
                categories: &["minecraft:smoker_food"],
            },
            BookTab {
                primary: "porkchop",
                secondary: None,
                search: false,
                categories: &["minecraft:smoker_food"],
            },
        ],
    }
}

impl BookType {
    /// Each book's own tab list.
    pub fn tabs(self) -> (r: &'static [BookTab])
        ensures
            r@ == tabs_of(self),
    {
        match self {
            BookType::Crafting => &[
                BookTab {
                    primary: "compass",
                    secondary: None,
                    search: true,
                    categories: &["minecraft:crafting_equipment", "minecraft:crafting_building_blocks", "minecraft:crafting_misc", "minecraft:crafting_redstone"],
                },
                BookTab {
                    primary: "iron_axe",
                    secondary: Some("golden_sword"),
                    search: false,
                    categories: &["minecraft:crafting_equipment"],
                },
                BookTab {
                    primary: "bricks",
                    secondary: None,
                    search: false,
                    categories: &["minecraft:crafting_building_blocks"],
                },
                BookTab {
                    primary: "lava_bucket",
                    secondary: Some("apple"),
                    search: false,
                    categories: &["minecraft:crafting_misc"],
                },
                BookTab {
                    primary: "redstone",
                    secondary: None,
                    search: false,
                    categories: &["minecraft:crafting_redstone"],
                },
            ],
            BookType::Furnace => &[
                BookTab {
                    primary: "compass",
                    secondary: None,
                    search: true,
                    categories: &["minecraft:furnace_food", "minecraft:furnace_blocks", "minecraft:furnace_misc"],
                },
                BookTab {
                    primary: "porkchop",
                    secondary: None,
                    search: false,
                    categories: &["minecraft:furnace_food"],
                },
                BookTab {
                    primary: "stone",
                    secondary: None,
                    search: false,
                    categories: &["minecraft:furnace_blocks"],
                },
                BookTab {
                    primary: "lava_bucket",
                    secondary: Some("emerald"),
                    search: false,
                    categories: &["minecraft:furnace_misc"],
                },
            ],
            BookType::BlastFurnace => &[
                BookTab {
                    primary: "compass",
                    secondary: None,
                    search: true,
                    categories: &["minecraft:blast_furnace_blocks", "minecraft:blast_furnace_misc"],
                },
                BookTab {
                    primary: "redstone_ore",
                    secondary: None,
                    search: false,
                    categories: &["minecraft:blast_furnace_blocks"],
                },
                BookTab {
                    primary: "iron_shovel",
                    secondary: Some("golden_leggings"),
                    search: false,
                    categories: &["minecraft:blast_furnace_misc"],
                },
            ],
            BookType::Smoker => &[
                BookTab {
                    primary: "compass",
                    secondary: None,
                    search: true,
                    categories: &["minecraft:smoker_food"],
                },
                BookTab {
                    primary: "porkchop",
                    secondary: None,
                    search: false,
                    categories: &["minecraft:smoker_food"],
                },
            ],
        }
    }
}

/// The registry categories no tab contains: stonecutter, smithing and
/// campfire recipes are in `allCollections` and reachable from no tab.
pub const CATEGORIES_WITHOUT_A_TAB: [&'static str; 3] = [
    "minecraft:stonecutter",
    "minecraft:smithing",
    "minecraft:campfire",
];

/// Whether tab `t` lists the category whose name is `c`.
pub open spec fn tab_lists(t: BookTab, c: Seq<char>) -> bool {
    exists|j: int| 0 <= j < t.categories@.len() && (#[trigger] t.categories@[j])@ == c
}

/// A category tab — not the search tab — that lists `c`.
pub open spec fn is_category_tab_for(t: BookTab, c: Seq<char>) -> bool {
    !t.search && tab_lists(t, c)
}

/// Which of a book's tabs a category belongs to, or `None`.
///
/// The search tab is skipped: it contains every category the book has, so
/// including it would answer 0 for everything. The answer is the first
/// category tab that lists the category.
pub fn category_tab_of(book: BookType, category: &str) -> (r: Option<usize>)
    ensures
        match r {
            Some(i) => {
                &&& i < tabs_of(book).len()
                &&& is_category_tab_for(tabs_of(book)[i as int], category@)
                &&& forall|j: int| 0 <= j < i ==> !is_category_tab_for(#[trigger] tabs_of(book)[j], category@)
            },
            None => forall|j: int|
                0 <= j < tabs_of(book).len() ==> !is_category_tab_for(#[trigger] tabs_of(book)[j], category@),
        },
{
    let tabs = book.tabs();
    let n = tabs.len();
    let mut i: usize = 0;
    while i < n
        invariant
            n == tabs@.len(),
            tabs@ == tabs_of(book),
            i <= n,
            forall|j: int| 0 <= j < i ==> !is_category_tab_for(#[trigger] tabs@[j], category@),
        decreases n - i,
    {
        let t = tabs[i];
        if !t.search {
            let cats = t.categories;
            let m = cats.len();
            let mut k: usize = 0;
            while k < m
                invariant
                    m == cats@.len(),
                    k <= m,
                    cats == t.categories,
                    t == tabs@[i as int],
                    !t.search,
                    n == tabs@.len(),
                    tabs@ == tabs_of(book),
                    i < n,
                    forall|j: int| 0 <= j < i ==> !is_category_tab_for(#[trigger] tabs@[j], category@),
                    forall|j: int| 0 <= j < k ==> (#[trigger] cats@[j])@ != category@,
                decreases m - k,
            {
                if str_eq(cats[k], category) {
                    assert(cats@[k as int]@ == category@);
                    assert(tab_lists(t, category@));
                    return Some(i);
                }
                k = k + 1;
            }
        }
        i = i + 1;
    }
    None
}

/// One `RecipeCollection` — the recipes that share a cell in the grid.
#[derive(Debug, Clone, PartialEq, Eq)]
pub struct Collection {
    /// The recipe ids, in the order they were added.
    pub recipes: Vec<i32>,
    pub category: String,
}

/// A collection as the grouping sees it: its recipe ids, its category, and
/// the group id it was formed for (`None` for an ungrouped singleton).
pub type CollectionModel = (Seq<i32>, Seq<char>, Option<i32>);

/// The first collection formed for group `g` of category `c`, if any.
pub open spec fn find_group(m: Seq<CollectionModel>, c: Seq<char>, g: i32) -> Option<int>
    decreases m.len(),
{
    if m.len() == 0 {
        None
    } else {
        match find_group(m.drop_last(), c, g) {
            Some(i) => Some(i),
            None => if m.last().2 == Some(g) && m.last().1 == c {
                Some(m.len() - 1)
            } else {
                None
            },
        }
    }
}

/// One recipe entry folded into the collections built so far: an ungrouped
/// recipe is its own new collection; a grouped one joins the collection
/// already formed for its `(category, group)` pair, or starts it.
pub open spec fn add_entry(m: Seq<CollectionModel>, id: i32, group: Option<i32>, c: Seq<char>) -> Seq<CollectionModel> {
    match group {
        None => m.push((seq![id], c, None)),
        Some(g) => match find_group(m, c, g) {
            Some(i) => m.update(i, (m[i].0.push(id), m[i].1, m[i].2)),
            None => m.push((seq![id], c, Some(g))),
        },
    }
}

/// `ClientRecipeBook.categorizeAndGroupRecipes` over a list of
/// `(recipe id, group, category)` entries, in order.
pub open spec fn collections_model(entries: Seq<(i32, Option<i32>, Seq<char>)>) -> Seq<CollectionModel>
    decreases entries.len(),
{
    if entries.len() == 0 {
        Seq::empty()
    } else {
        let e = entries.last();
        add_entry(collections_model(entries.drop_last()), e.0, e.1, e.2)
    }
}

/// The entries as the grouping reads them.
pub open spec fn entries_view(entries: Seq<(i32, Option<i32>, &str)>) -> Seq<(i32, Option<i32>, Seq<char>)> {
    entries.map_values(|e: (i32, Option<i32>, &str)| (e.0, e.1, e.2@))
}

proof fn lemma_find_group_bounds(m: Seq<CollectionModel>, c: Seq<char>, g: i32)
    ensures
        match find_group(m, c, g) {
            Some(i) => 0 <= i < m.len() && m[i].2 == Some(g) && m[i].1 == c
                && forall|j: int| 0 <= j < i ==> !(#[trigger] m[j].2 == Some(g) && m[j].1 == c),
            None => forall|j: int| 0 <= j < m.len() ==> !(#[trigger] m[j].2 == Some(g) && m[j].1 == c),
        },
    decreases m.len(),
{
    if m.len() > 0 {
        lemma_find_group_bounds(m.drop_last(), c, g);
        assert(forall|j: int| 0 <= j < m.len() - 1 ==> m.drop_last()[j] == m[j]);
    }
}

/// The first index whose group and category are `(g, category)`.
fn find_group_index(groups: &Vec<Option<i32>>, cats: &Vec<&str>, g: i32, category: &str) -> (r: Option<usize>)
    requires
        groups@.len() == cats@.len(),
    ensures
        match r {
            Some(i) => i < groups@.len() && groups@[i as int] == Some(g) && cats@[i as int]@ == category@
                && forall|j: int| 0 <= j < i ==> !(#[trigger] groups@[j] == Some(g) && cats@[j]@ == category@),
            None => forall|j: int| 0 <= j < groups@.len() ==> !(#[trigger] groups@[j] == Some(g) && cats@[j]@ == category@),
        },
{
    let len = groups.len();
    let mut i: usize = 0;
    while i < len
        invariant
            len == groups@.len(),
            len == cats@.len(),
            i <= len,
            forall|j: int| 0 <= j < i ==> !(#[trigger] groups@[j] == Some(g) && cats@[j]@ == category@),
        decreases len - i,
    {
        if groups[i] == Some(g) && str_eq(cats[i], category) {
            return Some(i);
        }
        i = i + 1;
    }
    None
}

/// `ClientRecipeBook.categorizeAndGroupRecipes`.
///
/// A recipe with no group is its own collection; recipes sharing a
/// `(category, group)` pair are one collection, placed where its first-seen
/// member was. Insertion order is kept, so the book is stable.
pub fn collections(entries: &[(i32, Option<i32>, &str)]) -> (r: Vec<Collection>)
    ensures
        r@.len() == collections_model(entries_view(entries@)).len(),
        forall|i: int| 0 <= i < r@.len() ==> {
            &&& (#[trigger] r@[i]).recipes@ == collections_model(entries_view(entries@))[i].0
            &&& r@[i].category@ == collections_model(entries_view(entries@))[i].1
        },
{
    let ghost ev = entries_view(entries@);
    let mut recipes: Vec<Vec<i32>> = Vec::new();
    let mut cats: Vec<&str> = Vec::new();
    let mut groups: Vec<Option<i32>> = Vec::new();
    let n = entries.len();
    let mut k: usize = 0;
    while k < n
        invariant
            n == entries@.len(),
            ev == entries_view(entries@),
            k <= n,
            recipes@.len() == cats@.len(),
            recipes@.len() == groups@.len(),
            recipes@.len() == collections_model(ev.take(k as int)).len(),
            forall|i: int| 0 <= i < recipes@.len() ==> {
                &&& (#[trigger] recipes@[i])@ == collections_model(ev.take(k as int))[i].0
                &&& cats@[i]@ == collections_model(ev.take(k as int))[i].1
                &&& groups@[i] == collections_model(ev.take(k as int))[i].2
            },
        decreases n - k,
    {
        let (id, group, category) = entries[k];
        let ghost m = collections_model(ev.take(k as int));
        let ghost m2 = collections_model(ev.take(k + 1));
        proof {
            assert(ev.take(k + 1).drop_last() =~= ev.take(k as int));
            assert(ev.take(k + 1).last() == (id, group, category@));
            assert(m2 == add_entry(m, id, group, category@));
        }
        match group {
            None => {
                let mut v: Vec<i32> = Vec::new();
                v.push(id);
                recipes.push(v);
                cats.push(category);
                groups.push(None);
                proof {
                    assert(m2 == m.push((seq![id], category@, None)));
                    assert(v@ =~= seq![id]);
                    assert forall|i: int| 0 <= i < recipes@.len() implies {
                        &&& (#[trigger] recipes@[i])@ == m2[i].0
                        &&& cats@[i]@ == m2[i].1
                        &&& groups@[i] == m2[i].2
                    } by {
                        if i < m.len() {
                            assert(m2[i] == m[i]);
                        }
                    }
                }
            },
            Some(g) => {
                let found = find_group_index(&groups, &cats, g, category);
                proof {
                    lemma_find_group_bounds(m, category@, g);
                    assert forall|j: int| 0 <= j < m.len() implies (m[j].2 == Some(g) && m[j].1 == category@)
                        == (groups@[j] == Some(g) && cats@[j]@ == category@) by {
                        assert(recipes@[j]@ == m[j].0);
                    }
                    match found {
                        Some(j) => {
                            match find_group(m, category@, g) {
                                Some(i) => {
                                    assert(recipes@[i]@ == m[i].0);
                                    assert(recipes@[j as int]@ == m[j as int].0);
                                    if i < j {
                                        assert(groups@[i] == Some(g) && cats@[i]@ == category@);
                                    }
                                    if j < i {
                                        assert(m[j as int].2 == Some(g) && m[j as int].1 == category@);
                                    }
                                },
                                None => {
                                    assert(recipes@[j as int]@ == m[j as int].0);
                                    assert(m[j as int].2 == Some(g) && m[j as int].1 == category@);
                                },
                            }
                        },
                        None => {
                            match find_group(m, category@, g) {
                                Some(i) => {
                                    assert(recipes@[i]@ == m[i].0);
                                    assert(groups@[i] == Some(g) && cats@[i]@ == category@);
                                },
                                None => {},
                            }
                        },
                    }
                }
                match found {
                    Some(j) => {
                        let mut v = recipes[j].clone();
                        proof {
                            assert(v@ =~= recipes@[j as int]@);
                        }
                        v.push(id);
                        recipes.set(j, v);
                        proof {
                            assert(find_group(m, category@, g) == Some(j as int));
                            assert(m2 == m.update(j as int, (m[j as int].0.push(id), m[j as int].1, m[j as int].2)));
                            assert forall|i: int| 0 <= i < recipes@.len() implies {
                                &&& (#[trigger] recipes@[i])@ == m2[i].0
                                &&& cats@[i]@ == m2[i].1
                                &&& groups@[i] == m2[i].2
                            } by {
                                if i != j {
                                    assert(m2[i] == m[i]);
                                }
                            }
                        }
                    },
                    None => {
                        let mut v: Vec<i32> = Vec::new();
                        v.push(id);
                        recipes.push(v);
                        cats.push(category);
                        groups.push(Some(g));
                        proof {
                            assert(find_group(m, category@, g) is None);
                            assert(m2 == m.push((seq![id], category@, Some(g))));
                            assert(v@ =~= seq![id]);
                            assert forall|i: int| 0 <= i < recipes@.len() implies {
                                &&& (#[trigger] recipes@[i])@ == m2[i].0
                                &&& cats@[i]@ == m2[i].1
                                &&& groups@[i] == m2[i].2
                            } by {
                                if i < m.len() {
                                    assert(m2[i] == m[i]);
                                }
                            }
                        }
                    },
                }
            },
        }
        k = k + 1;
    }
    proof {
        assert(ev.take(n as int) =~= ev);
    }
    let mut out: Vec<Collection> = Vec::new();
    let len = recipes.len();
    let mut i: usize = 0;
    while i < len
        invariant
            len == recipes@.len(),
            len == cats@.len(),
            i <= len,
            out@.len() == i,
            forall|j: int| 0 <= j < i ==> {
                &&& (#[trigger] out@[j]).recipes@ == recipes@[j]@
                &&& out@[j].category@ == cats@[j]@
            },
        decreases len - i,
    {
        let v = recipes[i].clone();
        proof {
            assert(v@ =~= recipes@[i as int]@);
        }
        out.push(Collection { recipes: v, category: cats[i].to_owned() });
        i = i + 1;
    }
    out
}

/// What one collection contributes to the page, for [`visible_collections`].
#[derive(Debug, Clone, Copy, PartialEq, Eq)]
pub struct CollectionState {
    /// `hasAnySelected()` — at least one recipe fits the open menu.
    pub any_selected: bool,
    /// `hasCraftable()` — at least one can be made from what you hold.
    pub has_craftable: bool,
    /// Whether the search matched it; `true` on an empty query.
    pub matches_search: bool,
}

/// Whether a collection survives `updateCollections`' three stages.
pub open spec fn is_visible(s: CollectionState, filtering: bool) -> bool {
    s.any_selected && s.matches_search && (!filtering || s.has_craftable)
}

/// `RecipeBookComponent.updateCollections`' three `removeIf` stages: the
/// unselected are hidden unconditionally, the search stage drops what did
/// not match, and only the third — craftability — follows the filter toggle.
/// The result is the indices of the survivors, in order.
pub fn visible_collections(states: &[CollectionState], filtering: bool) -> (r: Vec<usize>)
    ensures
        r@.map_values(|i: usize| i as int) == Seq::new(states@.len() as nat, |i: int| i).filter(
            |i: int| is_visible(states@[i], filtering),
        ),
{
    let ghost all = Seq::new(states@.len() as nat, |i: int| i);
    let ghost pred = |i: int| is_visible(states@[i], filtering);
    let mut out: Vec<usize> = Vec::new();
    let n = states.len();
    let mut i: usize = 0;
    while i < n
        invariant
            n == states@.len(),
            i <= n,
            all == Seq::new(states@.len() as nat, |i: int| i),
            pred == (|i: int| is_visible(states@[i], filtering)),
            out@.map_values(|i: usize| i as int) == all.take(i as int).filter(pred),
        decreases n - i,
    {
        let s = states[i];
        proof {
            reveal_with_fuel(Seq::filter, 1);
            assert(all.take(i + 1).drop_last() =~= all.take(i as int));
        }
        if s.any_selected && s.matches_search && (!filtering || s.has_craftable) {
            out.push(i);
            proof {
                assert(out@.map_values(|i: usize| i as int) =~= all.take(i as int).filter(pred).push(i as int));
            }
        } else {
            proof {
                assert(out@.map_values(|i: usize| i as int) =~= all.take(i as int).filter(pred));
            }
        }
        i = i + 1;
    }
    proof {
        assert(all.take(n as int) =~= all);
    }
    out
}

/// The search query as vanilla forms it —
/// `searchBox.getValue().toLowerCase(Locale.ROOT)`.
pub fn search_query(raw: &str) -> (r: String)
    ensures
        r@ == lowercase(raw@),
{
    to_lowercase(raw)
}

/// Below 379 GUI pixels the book stops flanking the menu and covers it.
pub fn width_too_narrow(width: i32) -> (r: bool)
    ensures
        r == (width < WIDTH_TOO_NARROW_BELOW),
{
    width < WIDTH_TOO_NARROW_BELOW
}

/// The menu's `leftPos` while the book is open or shut.
pub open spec fn screen_left_spec(width: int, image_w: int, book_visible: bool, too_narrow: bool) -> int {
    if book_visible && !too_narrow {
        177 + tdiv(width - image_w - 200, 2)
    } else {
        tdiv(width - image_w, 2)
    }
}

/// `RecipeBookComponent.updateScreenPosition` — opening the book moves the
/// menu: a literal 177 plus the centring of a 200-wide block, rather than the
/// centring of the pair. `topPos` does not move.
pub fn screen_left(width: i32, image_w: i32, book_visible: bool, too_narrow: bool) -> (r: i32)
    requires
        i32::MIN <= width - image_w - 200,
        width - image_w <= i32::MAX,
    ensures
        r == screen_left_spec(width as int, image_w as int, book_visible, too_narrow),
{
    if book_visible && !too_narrow {
        177 + (width - image_w - 200) / 2
    } else {
        (width - image_w) / 2
    }
}

/// A selected tab is drawn 2 px further left, so it sticks out of the column.
pub open spec fn tab_x_shift_spec(selected: bool) -> int {
    if selected { -2 } else { 0 }
}

pub fn tab_x_shift(selected: bool) -> (r: i32)
    ensures
        r == tab_x_shift_spec(selected),
{
    if selected { -2 } else { 0 }
}

/// A tab's sprite tracks selection, not hover: `sprites.get(true, selected)`.
pub fn tab_selected_sprite(selected: bool) -> (r: bool)
    ensures
        r == selected,
{
    selected
}

/// Where a tab's icons sit, relative to the tab's own unshifted origin: one
/// icon at +9, a pair at +3 and +14 (9 is not their midpoint), both riding
/// the selected tab's shift.
pub open spec fn tab_icon_offsets_spec(has_secondary: bool, selected: bool) -> Seq<(i32, i32)> {
    let dx = tab_x_shift_spec(selected);
    if has_secondary {
        seq![((3 + dx) as i32, 5i32), ((14 + dx) as i32, 5i32)]
    } else {
        seq![((9 + dx) as i32, 5i32)]
    }
}

pub fn tab_icon_offsets(has_secondary: bool, selected: bool) -> (r: Vec<(i32, i32)>)
    ensures
        r@ == tab_icon_offsets_spec(has_secondary, selected),
{
    let dx = tab_x_shift(selected);
    let mut v: Vec<(i32, i32)> = Vec::new();
    if has_secondary {
        v.push((3 + dx, 5));
        v.push((14 + dx, 5));
    } else {
        v.push((9 + dx, 5));
    }
    v
}

/// The recipe button's four background sprites: craftable x multiple.
#[derive(Debug, Clone, Copy, PartialEq, Eq, Structural)]
pub enum SlotSprite {
    Craftable,
    ManyCraftable,
    Uncraftable,
    ManyUncraftable,
}

pub open spec fn slot_sprite_spec(craftable: bool, multiple: bool) -> SlotSprite {
    if craftable {
        if multiple { SlotSprite::ManyCraftable } else { SlotSprite::Craftable }
    } else {
        if multiple { SlotSprite::ManyUncraftable } else { SlotSprite::Uncraftable }
    }
}

/// `hasCraftable` x `hasMultipleRecipes` — a two-by-two matrix of distinct
/// sprites.
pub fn slot_sprite(craftable: bool, multiple: bool) -> (r: SlotSprite)
    ensures
        r == slot_sprite_spec(craftable, multiple),
{
    match (craftable, multiple) {
        (true, true) => SlotSprite::ManyCraftable,
        (true, false) => SlotSprite::Craftable,
        (false, true) => SlotSprite::ManyUncraftable,
        (false, false) => SlotSprite::Uncraftable,
    }
}

/// Where the item(s) go inside a 25x25 recipe button — `(back, front)`: a
/// shadow copy at +5 and the real one at +3 when several recipes share a
/// result display, otherwise one item at +4.
pub open spec fn recipe_item_offsets_spec(multiple_same_result: bool) -> (Option<i32>, i32) {
    if multiple_same_result { (Some(5i32), 3i32) } else { (None, 4i32) }
}

pub fn recipe_item_offsets(multiple_same_result: bool) -> (r: (Option<i32>, i32))
    ensures
        r == recipe_item_offsets_spec(multiple_same_result),
{
    if multiple_same_result {
        (Some(5), 3)
    } else {
        (None, 4)
    }
}

/// `updateArrowButtons` — `(forward, back)`, both gated on `totalPages > 1`.
pub open spec fn page_arrows_spec(page: int, total: int) -> (bool, bool) {
    (total > 1 && page + 1 < total, total > 1 && page > 0)
}

pub fn page_arrows_visible(page: usize, total: usize) -> (r: (bool, bool))
    ensures
        r == page_arrows_spec(page as int, total as int),
{
    (total > 1 && page < total - 1, total > 1 && page > 0)
}

/// `xo - width / 2 + 73` — the text width is halved with integer division.
pub fn page_label_x(text_width: i32) -> (r: i32)
    ensures
        r == PAGE_LABEL_CENTRE_X - tdiv(text_width as int, 2),
{
    PAGE_LABEL_CENTRE_X - text_width / 2
}

/// The filter toggle's sprite, as an index into the
/// `(enabled, disabled, enabled_highlighted, disabled_highlighted)` group,
/// whose `enabled` slot carries "is filtering".
pub open spec fn filter_sprite_offset_spec(filtering: bool, hovered: bool) -> int {
    (if filtering { 0int } else { 1int }) + (if hovered { 2int } else { 0int })
}

pub fn filter_sprite_offset(filtering: bool, hovered: bool) -> (r: usize)
    ensures
        r == filter_sprite_offset_spec(filtering, hovered),
{
    match (filtering, hovered) {
        (true, false) => 0,
        (false, false) => 1,
        (true, true) => 2,
        (false, true) => 3,
    }
}

/// Which sprite a quad of the book's chrome draws, named semantically.
#[derive(Debug, Clone, Copy, PartialEq, Eq, Structural)]
pub enum BookSprite {
    /// The 147x166 panel itself, sampled from `(1, 1)` of `recipe_book.png`.
    Panel,
    Tab { selected: bool },
    Slot(SlotSprite),
    PageForward { hovered: bool },
    PageBackward { hovered: bool },
    Filter { furnace: bool, filtering: bool, hovered: bool },
    /// The which-of-these overlay's nine-sliced backing.
    OverlayPanel,
    /// One of its buttons; `furnace` follows the menu, not the recipe.
    OverlayButton { furnace: bool, craftable: bool, hovered: bool },
}

/// One quad of the book's chrome, in book-relative GUI pixels.
#[derive(Debug, Clone, Copy, PartialEq, Eq)]
pub struct BookQuad {
    pub sprite: BookSprite,
    pub x: i32,
    pub y: i32,
    pub w: i32,
    pub h: i32,
    /// Which pixels of the sprite this quad takes, or `None` for the whole of
    /// it stretched to `(w, h)`.
    pub src: Option<(i32, i32, i32, i32)>,
}

impl BookQuad {
    /// A quad taking the whole of its sprite — the ordinary case.
    pub fn whole(sprite: BookSprite, x: i32, y: i32, w: i32, h: i32) -> (r: Self)
        ensures
            r == (BookQuad { sprite, x, y, w, h, src: None }),
    {
        BookQuad { sprite, x, y, w, h, src: None }
    }
}

/// One overlay button's quad: the 24x24 button at its place from
/// `origin`, in its menu's, its recipe's and the hover's state.
pub open spec fn overlay_button_quad(origin: (i32, i32), i: int, total: int, furnace: bool, craftable: bool, hovered: Option<usize>) -> BookQuad {
    BookQuad {
        sprite: BookSprite::OverlayButton { furnace, craftable, hovered: hovered == Some(i as usize) },
        x: (origin.0 + crate::recipe_overlay::button_pos_spec(i, total).0) as i32,
        y: (origin.1 + crate::recipe_overlay::button_pos_spec(i, total).1) as i32,
        w: crate::recipe_overlay::BUTTON_SIZE,
        h: crate::recipe_overlay::BUTTON_SIZE,
        src: None,
    }
}

/// The which-of-these overlay's chrome, a layer above the book's: the
/// panel's quads, nine-sliced over `(origin, panel_size(total))` by the
/// caller, then one button per recipe. `craftable` holds one flag per
/// button in the overlay's own order.
pub fn overlay_chrome(
    origin: (i32, i32),
    craftable: &[bool],
    furnace: bool,
    hovered: Option<usize>,
    panel: Vec<BookQuad>,
) -> (r: Vec<BookQuad>)
    requires
        crate::recipe_overlay::overlay_fits(craftable@.len() as int),
        forall|i: int| 0 <= i < craftable@.len() ==>
            i32::MIN <= origin.0 + #[trigger] crate::recipe_overlay::button_pos_spec(i, craftable@.len() as int).0 <= i32::MAX
            && i32::MIN <= origin.1 + crate::recipe_overlay::button_pos_spec(i, craftable@.len() as int).1 <= i32::MAX,
    ensures
        r@ == panel@ + Seq::new(craftable@.len(), |i: int| overlay_button_quad(origin, i, craftable@.len() as int, furnace, craftable@[i], hovered)),
{
    let total = craftable.len();
    let mut out = panel;
    let ghost start = out@;
    let mut i: usize = 0;
    while i < total
        invariant
            total == craftable@.len(),
            i <= total,
            crate::recipe_overlay::overlay_fits(total as int),
            forall|k: int| 0 <= k < total ==>
                i32::MIN <= origin.0 + #[trigger] crate::recipe_overlay::button_pos_spec(k, total as int).0 <= i32::MAX
                && i32::MIN <= origin.1 + crate::recipe_overlay::button_pos_spec(k, total as int).1 <= i32::MAX,
            out@ == start + Seq::new(i as nat, |k: int| overlay_button_quad(origin, k, total as int, furnace, craftable@[k], hovered)),
        decreases total - i,
    {
        proof {
            crate::recipe_overlay::lemma_button_fits_below(i as int, total - 1);
            assert(i32::MIN <= origin.0 + crate::recipe_overlay::button_pos_spec(i as int, total as int).0 <= i32::MAX);
        }
        let (bx, by) = crate::recipe_overlay::button_origin(origin, i, total);
        let h = match hovered {
            Some(x) => x == i,
            None => false,
        };
        out.push(BookQuad::whole(
            BookSprite::OverlayButton { furnace, craftable: craftable[i], hovered: h },
            bx,
            by,
            crate::recipe_overlay::BUTTON_SIZE,
            crate::recipe_overlay::BUTTON_SIZE,
        ));
        proof {
            assert(out@ =~= start + Seq::new((i + 1) as nat, |k: int| overlay_button_quad(origin, k, total as int, furnace, craftable@[k], hovered)));
        }
        i = i + 1;
    }
    out
}

/// What a page of the book needs to know to draw itself.
#[derive(Debug, Clone, Copy)]
pub struct BookView {
    /// How many tabs are visible.
    pub tabs: usize,
    pub selected_tab: usize,
    pub page: usize,
    pub total_pages: usize,
    /// How many recipe buttons this page shows — at most [`ITEMS_PER_PAGE`].
    pub shown: usize,
    pub filtering: bool,
    /// The crafting family and the furnace family have different filter art.
    pub furnace_family: bool,
}

/// Which of the book's three hoverable widgets the cursor is over.
#[derive(Debug, Clone, Copy)]
pub struct BookHover {
    pub page_forward: bool,
    pub page_backward: bool,
    pub filter: bool,
}

impl Default for BookHover {
    /// Nothing hovered.
    fn default() -> (r: Self)
        ensures
            !r.page_forward && !r.page_backward && !r.filter,
    {
        BookHover { page_forward: false, page_backward: false, filter: false }
    }
}

/// The quad of tab `i`.
pub open spec fn tab_quad(i: int, selected_tab: int) -> BookQuad {
    BookQuad {
        sprite: BookSprite::Tab { selected: i == selected_tab },
        x: (TAB_DX + tab_x_shift_spec(i == selected_tab)) as i32,
        y: (TAB_DY + TAB_PITCH * i) as i32,
        w: TAB_W,
        h: TAB_H,
        src: None,
    }
}

/// The quad of recipe slot `i` with its `(craftable, multiple)` state.
pub open spec fn slot_quad(i: int, state: (bool, bool)) -> BookQuad {
    BookQuad {
        sprite: BookSprite::Slot(slot_sprite_spec(state.0, state.1)),
        x: grid_slot_spec(i).0 as i32,
        y: grid_slot_spec(i).1 as i32,
        w: SLOT_SIZE,
        h: SLOT_SIZE,
        src: None,
    }
}

/// Every quad the book's chrome draws, in vanilla's own order: the panel,
/// the tabs, the page's recipe slots, the visible arrows, then the filter.
pub open spec fn book_chrome_spec(view: BookView, slots: Seq<(bool, bool)>, hover: BookHover) -> Seq<BookQuad> {
    let shown = if view.shown <= slots.len() { view.shown as int } else { slots.len() as int };
    let arrows = page_arrows_spec(view.page as int, view.total_pages as int);
    seq![BookQuad { sprite: BookSprite::Panel, x: 0, y: 0, w: IMAGE_W, h: IMAGE_H, src: None }]
        + Seq::new(view.tabs as nat, |i: int| tab_quad(i, view.selected_tab as int))
        + Seq::new(shown as nat, |i: int| slot_quad(i, slots[i]))
        + (if arrows.0 {
            seq![BookQuad {
                sprite: BookSprite::PageForward { hovered: hover.page_forward },
                x: PAGE_FORWARD_X,
                y: PAGE_ARROW_Y,
                w: PAGE_ARROW_W,
                h: PAGE_ARROW_H,
                src: None,
            }]
        } else {
            Seq::empty()
        })
        + (if arrows.1 {
            seq![BookQuad {
                sprite: BookSprite::PageBackward { hovered: hover.page_backward },
                x: PAGE_BACK_X,
                y: PAGE_ARROW_Y,
                w: PAGE_ARROW_W,
                h: PAGE_ARROW_H,
                src: None,
            }]
        } else {
            Seq::empty()
        })
        + seq![BookQuad {
            sprite: BookSprite::Filter {
                furnace: view.furnace_family,
                filtering: view.filtering,
                hovered: hover.filter,
            },
            x: FILTER_X,
            y: FILTER_Y,
            w: FILTER_W,
            h: FILTER_H,
            src: None,
        }]
}

/// The inputs for which the chrome's coordinates stay within `i32`.
pub open spec fn chrome_fits(view: BookView) -> bool {
    &&& TAB_DY + TAB_PITCH * view.tabs <= i32::MAX
    &&& GRID_Y + GRID_PITCH * (view.shown / 5) <= i32::MAX
}

/// Every quad the book's chrome draws, in vanilla's own order.
pub fn book_chrome(view: BookView, slots: &[(bool, bool)], hover: BookHover) -> (r: Vec<BookQuad>)
    requires
        chrome_fits(view),
    ensures
        r@ == book_chrome_spec(view, slots@, hover),
{
    let mut out: Vec<BookQuad> = Vec::new();
    out.push(BookQuad::whole(BookSprite::Panel, 0, 0, IMAGE_W, IMAGE_H));
    let ghost base = out@;
    let mut i: usize = 0;
    while i < view.tabs
        invariant
            chrome_fits(view),
            i <= view.tabs,
            out@ == base + Seq::new(i as nat, |j: int| tab_quad(j, view.selected_tab as int)),
        decreases view.tabs - i,
    {
        let selected = i == view.selected_tab;
        let (tx, ty) = tab_position(i as i32);
        out.push(BookQuad::whole(BookSprite::Tab { selected }, tx + tab_x_shift(selected), ty, TAB_W, TAB_H));
        proof {
            assert(out@ =~= base + Seq::new((i + 1) as nat, |j: int| tab_quad(j, view.selected_tab as int)));
        }
        i = i + 1;
    }
    let shown = if view.shown <= slots.len() { view.shown } else { slots.len() };
    let ghost base2 = out@;
    let mut k: usize = 0;
    while k < shown
        invariant
            chrome_fits(view),
            shown <= view.shown,
            shown <= slots@.len(),
            k <= shown,
            out@ == base2 + Seq::new(k as nat, |j: int| slot_quad(j, slots@[j])),
        decreases shown - k,
    {
        let (craftable, multiple) = slots[k];
        proof {
            assert(k / 5 <= view.shown / 5) by (nonlinear_arith)
                requires
                    k < view.shown,
            ;
        }
        let (sx, sy) = grid_slot(k);
        out.push(BookQuad::whole(BookSprite::Slot(slot_sprite(craftable, multiple)), sx, sy, SLOT_SIZE, SLOT_SIZE));
        proof {
            assert(out@ =~= base2 + Seq::new((k + 1) as nat, |j: int| slot_quad(j, slots@[j])));
        }
        k = k + 1;
    }
    let (fwd, back) = page_arrows_visible(view.page, view.total_pages);
    let ghost base3 = out@;
    if fwd {
        out.push(
            BookQuad::whole(
                BookSprite::PageForward { hovered: hover.page_forward },
                PAGE_FORWARD_X,
                PAGE_ARROW_Y,
                PAGE_ARROW_W,
                PAGE_ARROW_H,
            ),
        );
    }
    let ghost base4 = out@;
    if back {
        out.push(
            BookQuad::whole(
                BookSprite::PageBackward { hovered: hover.page_backward },
                PAGE_BACK_X,
                PAGE_ARROW_Y,
                PAGE_ARROW_W,
                PAGE_ARROW_H,
            ),
        );
    }
    let ghost base5 = out@;
    out.push(
        BookQuad::whole(
            BookSprite::Filter {
                furnace: view.furnace_family,
                filtering: view.filtering,
                hovered: hover.filter,
            },
            FILTER_X,
            FILTER_Y,
            FILTER_W,
            FILTER_H,
        ),
    );
    proof {
        assert(out@ =~= book_chrome_spec(view, slots@, hover));
    }
    out
}

/// Where every item the book draws goes, in book-relative GUI pixels.
#[derive(Debug, Clone, Copy, PartialEq, Eq, Structural)]
pub struct BookIcon {
    pub x: i32,
    pub y: i32,
    pub kind: BookIconKind,
}

#[derive(Debug, Clone, Copy, PartialEq, Eq, Structural)]
pub enum BookIconKind {
    /// Tab `index`'s first icon.
    TabPrimary(usize),
    /// Its second, on the tabs that have one.
    TabSecondary(usize),
    /// Recipe slot `index`; `back` is the shadow copy a multi-recipe
    /// collection draws behind the real one.
    Slot { index: usize, back: bool },
}

/// The icons of tab `i`: one or two, at [`tab_icon_offsets_spec`] from its
/// unshifted position.
pub open spec fn tab_icons(i: int, has_secondary: bool, selected: bool) -> Seq<BookIcon> {
    let offs = tab_icon_offsets_spec(has_secondary, selected);
    Seq::new(
        offs.len(),
        |n: int|
            BookIcon {
                x: (TAB_DX + offs[n].0) as i32,
                y: (TAB_DY + TAB_PITCH * i + offs[n].1) as i32,
                kind: if n == 0 { BookIconKind::TabPrimary(i as usize) } else { BookIconKind::TabSecondary(i as usize) },
            },
    )
}

/// The icons of the first `n` tabs, in order.
pub open spec fn tabs_icons(tabs: Seq<BookTab>, n: int, selected_tab: int) -> Seq<BookIcon>
    decreases n,
{
    if n <= 0 {
        Seq::empty()
    } else {
        tabs_icons(tabs, n - 1, selected_tab) + tab_icons(n - 1, tabs[n - 1].secondary is Some, n - 1 == selected_tab)
    }
}

/// The icons of recipe slot `i`: the shadow copy (if any), then the front.
pub open spec fn slot_icons(i: int, multi: bool) -> Seq<BookIcon> {
    let (back, front) = recipe_item_offsets_spec(multi);
    let (sx, sy) = grid_slot_spec(i);
    let front_icon = BookIcon {
        x: (sx + front) as i32,
        y: (sy + front) as i32,
        kind: BookIconKind::Slot { index: i as usize, back: false },
    };
    match back {
        Some(b) => seq![BookIcon {
            x: (sx + b) as i32,
            y: (sy + b) as i32,
            kind: BookIconKind::Slot { index: i as usize, back: true },
        }, front_icon],
        None => seq![front_icon],
    }
}

/// The icons of the first `n` recipe slots, in order; a slot past the end of
/// `multi` draws a single item.
pub open spec fn slots_icons(multi: Seq<bool>, n: int) -> Seq<BookIcon>
    decreases n,
{
    if n <= 0 {
        Seq::empty()
    } else {
        slots_icons(multi, n - 1) + slot_icons(n - 1, n - 1 < multi.len() && multi[n - 1])
    }
}

/// The inputs for which the icons' coordinates stay within `i32`.
pub open spec fn icons_fit(view: BookView) -> bool {
    &&& TAB_DY + TAB_PITCH * view.tabs + 5 <= i32::MAX
    &&& GRID_Y + GRID_PITCH * (view.shown / 5) + 5 <= i32::MAX
}

/// Every item position the book draws, in vanilla's own order: the tabs'
/// icons (each after its own tab), then the page's slots.
pub fn book_icons(view: BookView, tabs: &[BookTab], multi: &[bool]) -> (r: Vec<BookIcon>)
    requires
        icons_fit(view),
    ensures
        r@ == tabs_icons(tabs@, if view.tabs <= tabs@.len() { view.tabs as int } else { tabs@.len() as int }, view.selected_tab as int)
            + slots_icons(multi@, view.shown as int),
{
    let mut out: Vec<BookIcon> = Vec::new();
    let nt = if view.tabs <= tabs.len() { view.tabs } else { tabs.len() };
    let mut i: usize = 0;
    while i < nt
        invariant
            icons_fit(view),
            nt <= view.tabs,
            nt <= tabs@.len(),
            i <= nt,
            out@ == tabs_icons(tabs@, i as int, view.selected_tab as int),
        decreases nt - i,
    {
        let (tx, ty) = tab_position(i as i32);
        let offs = tab_icon_offsets(tabs[i].secondary.is_some(), i == view.selected_tab);
        let ghost before = out@;
        let ghost want = tab_icons(i as int, tabs@[i as int].secondary is Some, i == view.selected_tab);
        let mut n: usize = 0;
        while n < offs.len()
            invariant
                icons_fit(view),
                i < nt,
                nt <= view.tabs,
                tx == TAB_DX,
                ty == TAB_DY + TAB_PITCH * i,
                offs@ == tab_icon_offsets_spec(tabs@[i as int].secondary is Some, i == view.selected_tab),
                want == tab_icons(i as int, tabs@[i as int].secondary is Some, i == view.selected_tab),
                n <= offs@.len(),
                out@ == before + want.take(n as int),
            decreases offs@.len() - n,
        {
            let (dx, dy) = offs[n];
            let kind = if n == 0 { BookIconKind::TabPrimary(i) } else { BookIconKind::TabSecondary(i) };
            out.push(BookIcon { x: tx + dx, y: ty + dy, kind });
            proof {
                assert(want.take(n + 1) =~= want.take(n as int).push(want[n as int]));
            }
            n = n + 1;
        }
        proof {
            assert(want.take(offs@.len() as int) =~= want);
            assert(tabs_icons(tabs@, i + 1, view.selected_tab as int) == tabs_icons(tabs@, i as int, view.selected_tab as int) + want);
        }
        i = i + 1;
    }
    let ghost tab_part = out@;
    let mut index: usize = 0;
    while index < view.shown
        invariant
            icons_fit(view),
            index <= view.shown,
            out@ == tab_part + slots_icons(multi@, index as int),
        decreases view.shown - index,
    {
        proof {
            assert(index / 5 <= view.shown / 5) by (nonlinear_arith)
                requires
                    index < view.shown,
            ;
        }
        let (sx, sy) = grid_slot(index);
        let m = if index < multi.len() { multi[index] } else { false };
        let (back, front) = recipe_item_offsets(m);
        let ghost before = out@;
        if let Some(b) = back {
            out.push(BookIcon { x: sx + b, y: sy + b, kind: BookIconKind::Slot { index, back: true } });
        }
        out.push(BookIcon { x: sx + front, y: sy + front, kind: BookIconKind::Slot { index, back: false } });
        proof {
            assert(out@ =~= before + slot_icons(index as int, m));
            assert(slots_icons(multi@, index + 1) == slots_icons(multi@, index as int) + slot_icons(index as int, m));
        }
        index = index + 1;
    }
    out
}

/// What the cursor is over, in the book.
#[derive(Debug, Clone, Copy, PartialEq, Eq, Structural)]
pub enum BookHit {
    PageForward,
    PageBackward,
    /// A visible recipe cell, by its index on the page.
    Slot(usize),
    /// The search field, or the magnifier left of it.
    Search,
    Filter,
    Tab(usize),
}

/// `AbstractWidget.clicked` — inclusive of the top-left, exclusive of the
/// bottom-right.
pub open spec fn inside_spec(px: int, py: int, x: int, y: int, w: int, h: int) -> bool {
    px >= x && py >= y && px < x + w && py < y + h
}

fn inside(px: i32, py: i32, x: i32, y: i32, w: i32, h: i32) -> (r: bool)
    ensures
        r == inside_spec(px as int, py as int, x as int, y as int, w as int, h as int),
{
    px >= x && py >= y && (px as i64) < (x as i64) + (w as i64) && (py as i64) < (y as i64) + (h as i64)
}

/// The first visible recipe cell, among the first `n`, that contains the point.
pub open spec fn first_slot_hit(bx: int, by: int, n: int) -> Option<int>
    decreases n,
{
    if n <= 0 {
        None
    } else {
        match first_slot_hit(bx, by, n - 1) {
            Some(i) => Some(i),
            None => if inside_spec(bx, by, grid_slot_spec(n - 1).0, grid_slot_spec(n - 1).1, SLOT_SIZE as int, SLOT_SIZE as int) {
                Some(n - 1)
            } else {
                None
            },
        }
    }
}

/// The first of the first `n` tabs whose button contains the point.
pub open spec fn first_tab_hit(bx: int, by: int, n: int) -> Option<int>
    decreases n,
{
    if n <= 0 {
        None
    } else {
        match first_tab_hit(bx, by, n - 1) {
            Some(i) => Some(i),
            None => if inside_spec(bx, by, TAB_DX as int, TAB_DY + TAB_PITCH * (n - 1), TAB_W as int, TAB_H as int) {
                Some(n - 1)
            } else {
                None
            },
        }
    }
}

/// Two pitch-wide bands that hold the same coordinate are the same band.
proof fn lemma_same_band(a: int, b: int, v: int)
    by (nonlinear_arith)
    requires
        0 <= a,
        0 <= b,
        25 * a <= v < 25 * a + 25,
        25 * b <= v < 25 * b + 25,
    ensures
        a == b,
{
}

/// The recipe cells tile without overlapping: a point lies in one cell at
/// most.
proof fn lemma_cells_disjoint(bx: int, by: int, i: int, j: int)
    requires
        0 <= i,
        0 <= j,
        inside_spec(bx, by, grid_slot_spec(i).0, grid_slot_spec(i).1, SLOT_SIZE as int, SLOT_SIZE as int),
        inside_spec(bx, by, grid_slot_spec(j).0, grid_slot_spec(j).1, SLOT_SIZE as int, SLOT_SIZE as int),
    ensures
        i == j,
{
    lemma_same_band(i % 5, j % 5, bx - GRID_X);
    lemma_same_band(i / 5, j / 5, by - GRID_Y);
}

/// Among the first `n` cells, the one holding a point in cell `i` is `i`.
proof fn lemma_first_slot_hit_is(bx: int, by: int, n: int, i: int)
    requires
        0 <= i < n,
        inside_spec(bx, by, grid_slot_spec(i).0, grid_slot_spec(i).1, SLOT_SIZE as int, SLOT_SIZE as int),
    ensures
        first_slot_hit(bx, by, n) == Some(i),
    decreases n,
{
    if n - 1 > i {
        lemma_first_slot_hit_is(bx, by, n - 1, i);
    } else {
        lemma_first_slot_hit_none(bx, by, i, i);
    }
}

/// No cell before `i` holds a point in cell `i`.
proof fn lemma_first_slot_hit_none(bx: int, by: int, n: int, i: int)
    requires
        0 <= n <= i,
        inside_spec(bx, by, grid_slot_spec(i).0, grid_slot_spec(i).1, SLOT_SIZE as int, SLOT_SIZE as int),
    ensures
        first_slot_hit(bx, by, n) is None,
    decreases n,
{
    if n > 0 {
        lemma_first_slot_hit_none(bx, by, n - 1, i);
        if inside_spec(bx, by, grid_slot_spec(n - 1).0, grid_slot_spec(n - 1).1, SLOT_SIZE as int, SLOT_SIZE as int) {
            lemma_cells_disjoint(bx, by, n - 1, i);
        }
    }
}

/// A click anywhere in a shown recipe cell lands on that recipe, whatever
/// else the book shows.
pub proof fn lemma_cell_click_hits_its_recipe(bx: int, by: int, view: BookView, tab_count: int, i: int)
    requires
        0 <= i < view.shown,
        i < ITEMS_PER_PAGE,
        inside_spec(bx, by, grid_slot_spec(i).0, grid_slot_spec(i).1, SLOT_SIZE as int, SLOT_SIZE as int),
    ensures
        book_hit_spec(bx, by, view, tab_count) == Some(BookHit::Slot(i as usize)),
{
    lemma_first_slot_hit_is(bx, by, view.shown as int, i);
    assert(i / 5 <= 3);
    assert(by < GRID_Y + GRID_PITCH * 3 + SLOT_SIZE) by (nonlinear_arith)
        requires
            i / 5 <= 3,
            by < GRID_Y + GRID_PITCH * (i / 5) + SLOT_SIZE,
    ;
}

/// What a click at book-relative `(bx, by)` lands on, in vanilla's
/// resolution order: the visible arrows, the page's cells, the search box or
/// its magnifier, the filter, then the tabs. A selected tab's hit rect does
/// not follow its shifted sprite.
pub open spec fn book_hit_spec(bx: int, by: int, view: BookView, tab_count: int) -> Option<BookHit> {
    let (fwd, back) = page_arrows_spec(view.page as int, view.total_pages as int);
    let ntabs = if tab_count <= view.tabs { tab_count } else { view.tabs as int };
    if fwd && inside_spec(bx, by, PAGE_FORWARD_X as int, PAGE_ARROW_Y as int, PAGE_ARROW_W as int, PAGE_ARROW_H as int) {
        Some(BookHit::PageForward)
    } else if back && inside_spec(bx, by, PAGE_BACK_X as int, PAGE_ARROW_Y as int, PAGE_ARROW_W as int, PAGE_ARROW_H as int) {
        Some(BookHit::PageBackward)
    } else if first_slot_hit(bx, by, view.shown as int) is Some {
        Some(BookHit::Slot(first_slot_hit(bx, by, view.shown as int)->0 as usize))
    } else if inside_spec(bx, by, MAGNIFIER_X as int, SEARCH_Y as int, MAGNIFIER_W as int, SEARCH_H as int)
        || inside_spec(bx, by, SEARCH_X as int, SEARCH_Y as int, SEARCH_W as int, SEARCH_H as int) {
        Some(BookHit::Search)
    } else if inside_spec(bx, by, FILTER_X as int, FILTER_Y as int, FILTER_W as int, FILTER_H as int) {
        Some(BookHit::Filter)
    } else if first_tab_hit(bx, by, ntabs) is Some {
        Some(BookHit::Tab(first_tab_hit(bx, by, ntabs)->0 as usize))
    } else {
        None
    }
}

/// What a click at book-relative `(bx, by)` lands on (see
/// [`book_hit_spec`]).
pub fn book_hit(bx: i32, by: i32, view: BookView, tab_count: usize) -> (r: Option<BookHit>)
    requires
        chrome_fits(view),
    ensures
        r == book_hit_spec(bx as int, by as int, view, tab_count as int),
{
    let (fwd, back) = page_arrows_visible(view.page, view.total_pages);
    if fwd && inside(bx, by, PAGE_FORWARD_X, PAGE_ARROW_Y, PAGE_ARROW_W, PAGE_ARROW_H) {
        return Some(BookHit::PageForward);
    }
    if back && inside(bx, by, PAGE_BACK_X, PAGE_ARROW_Y, PAGE_ARROW_W, PAGE_ARROW_H) {
        return Some(BookHit::PageBackward);
    }
    let mut index: usize = 0;
    while index < view.shown
        invariant
            chrome_fits(view),
            index <= view.shown,
            (fwd, back) == page_arrows_spec(view.page as int, view.total_pages as int),
            !(fwd && inside_spec(bx as int, by as int, PAGE_FORWARD_X as int, PAGE_ARROW_Y as int, PAGE_ARROW_W as int, PAGE_ARROW_H as int)),
            !(back && inside_spec(bx as int, by as int, PAGE_BACK_X as int, PAGE_ARROW_Y as int, PAGE_ARROW_W as int, PAGE_ARROW_H as int)),
            first_slot_hit(bx as int, by as int, index as int) is None,
        decreases view.shown - index,
    {
        proof {
            assert(index / 5 <= view.shown / 5) by (nonlinear_arith)
                requires
                    index < view.shown,
            ;
        }
        let (sx, sy) = grid_slot(index);
        if inside(bx, by, sx, sy, SLOT_SIZE, SLOT_SIZE) {
            proof {
                assert(first_slot_hit(bx as int, by as int, index + 1) == Some(index as int));
                lemma_first_hit_stays(bx as int, by as int, index + 1, view.shown as int);
            }
            return Some(BookHit::Slot(index));
        }
        index = index + 1;
    }
    if inside(bx, by, MAGNIFIER_X, SEARCH_Y, MAGNIFIER_W, SEARCH_H) || inside(bx, by, SEARCH_X, SEARCH_Y, SEARCH_W, SEARCH_H) {
        return Some(BookHit::Search);
    }
    if inside(bx, by, FILTER_X, FILTER_Y, FILTER_W, FILTER_H) {
        return Some(BookHit::Filter);
    }
    let ntabs = if tab_count <= view.tabs { tab_count } else { view.tabs };
    let mut i: usize = 0;
    while i < ntabs
        invariant
            chrome_fits(view),
            ntabs <= view.tabs,
            ntabs as int == if tab_count <= view.tabs { tab_count as int } else { view.tabs as int },
            i <= ntabs,
            (fwd, back) == page_arrows_spec(view.page as int, view.total_pages as int),
            !(fwd && inside_spec(bx as int, by as int, PAGE_FORWARD_X as int, PAGE_ARROW_Y as int, PAGE_ARROW_W as int, PAGE_ARROW_H as int)),
            !(back && inside_spec(bx as int, by as int, PAGE_BACK_X as int, PAGE_ARROW_Y as int, PAGE_ARROW_W as int, PAGE_ARROW_H as int)),
            first_slot_hit(bx as int, by as int, view.shown as int) is None,
            !(inside_spec(bx as int, by as int, MAGNIFIER_X as int, SEARCH_Y as int, MAGNIFIER_W as int, SEARCH_H as int)
                || inside_spec(bx as int, by as int, SEARCH_X as int, SEARCH_Y as int, SEARCH_W as int, SEARCH_H as int)),
            !inside_spec(bx as int, by as int, FILTER_X as int, FILTER_Y as int, FILTER_W as int, FILTER_H as int),
            first_tab_hit(bx as int, by as int, i as int) is None,
        decreases ntabs - i,
    {
        let (tx, ty) = tab_position(i as i32);
        if inside(bx, by, tx, ty, TAB_W, TAB_H) {
            proof {
                assert(first_tab_hit(bx as int, by as int, i + 1) == Some(i as int));
                lemma_first_tab_hit_stays(bx as int, by as int, i + 1, ntabs as int);
            }
            return Some(BookHit::Tab(i));
        }
        i = i + 1;
    }
    None
}

proof fn lemma_first_hit_stays(bx: int, by: int, m: int, n: int)
    requires
        0 < m <= n,
        first_slot_hit(bx, by, m) is Some,
    ensures
        first_slot_hit(bx, by, n) == first_slot_hit(bx, by, m),
    decreases n - m,
{
    if m < n {
        lemma_first_hit_stays(bx, by, m, n - 1);
    }
}

proof fn lemma_first_tab_hit_stays(bx: int, by: int, m: int, n: int)
    requires
        0 < m <= n,
        first_tab_hit(bx, by, m) is Some,
    ensures
        first_tab_hit(bx, by, n) == first_tab_hit(bx, by, m),
    decreases n - m,
{
    if m < n {
        lemma_first_tab_hit_stays(bx, by, m, n - 1);
    }
}

/// The book's own screen state — what only a click can change.
#[derive(Debug, Clone, Copy, PartialEq, Eq, Structural)]
pub struct BookState {
    pub selected_tab: usize,
    pub page: usize,
}

impl Default for BookState {
    /// The first tab, on its first page.
    fn default() -> (r: Self)
        ensures
            r == (BookState { selected_tab: 0, page: 0 }),
    {
        BookState { selected_tab: 0, page: 0 }
    }
}

/// What a press does to the search field's focus: `None` leaves it alone,
/// `Some(v)` sets it. The page's own widgets return before the unfocusing
/// else-branch; everything below it unfocuses.
pub open spec fn focus_change_spec(hit: Option<BookHit>) -> Option<bool> {
    match hit {
        None => None,
        Some(BookHit::PageForward) | Some(BookHit::PageBackward) | Some(BookHit::Slot(_)) => None,
        Some(BookHit::Search) => Some(true),
        Some(BookHit::Filter) | Some(BookHit::Tab(_)) => Some(false),
    }
}

pub fn focus_change(hit: Option<BookHit>) -> (r: Option<bool>)
    ensures
        r == focus_change_spec(hit),
{
    match hit {
        None => None,
        Some(h) => match h {
            BookHit::PageForward | BookHit::PageBackward | BookHit::Slot(_) => None,
            BookHit::Search => Some(true),
            BookHit::Filter | BookHit::Tab(_) => Some(false),
        },
    }
}

/// What a press changed, for the caller to act on.
#[derive(Debug, Clone, Copy, PartialEq, Eq, Structural)]
pub enum BookAction {
    /// The filter toggled — the caller flips it and tells the server.
    ToggleFilter,
    /// A recipe cell was clicked with the given button.
    Recipe { index: usize, right: bool },
    /// The tab or page moved; nothing leaves the client.
    Navigated,
}

impl BookState {
    /// Apply a press. `None` when the click missed the book entirely, so the
    /// caller lets it fall through to the menu. Switching tabs resets the
    /// page; re-selecting the current tab does nothing.
    pub fn press(&mut self, hit: Option<BookHit>, right: bool) -> (r: Option<BookAction>)
        requires
            hit == Some(BookHit::PageForward) ==> old(self).page < usize::MAX,
        ensures
            match hit {
                None => r is None && *final(self) == *old(self),
                Some(BookHit::PageForward) => r == Some(BookAction::Navigated)
                    && *final(self) == (BookState { page: (old(self).page + 1) as usize, ..*old(self) }),
                Some(BookHit::PageBackward) => r == Some(BookAction::Navigated)
                    && *final(self) == (BookState {
                        page: if old(self).page > 0 { (old(self).page - 1) as usize } else { 0 },
                        ..*old(self)
                    }),
                Some(BookHit::Slot(index)) => r == Some(BookAction::Recipe { index, right })
                    && *final(self) == *old(self),
                Some(BookHit::Search) => r == Some(BookAction::Navigated) && *final(self) == *old(self),
                Some(BookHit::Filter) => r == Some(BookAction::ToggleFilter) && *final(self) == *old(self),
                Some(BookHit::Tab(i)) => r == Some(BookAction::Navigated) && *final(self) == if i
                    != old(self).selected_tab {
                    BookState { selected_tab: i, page: 0 }
                } else {
                    *old(self)
                },
            },
    {
        let h = match hit {
            None => return None,
            Some(h) => h,
        };
        Some(
            match h {
                BookHit::PageForward => {
                    self.page = self.page + 1;
                    BookAction::Navigated
                },
                BookHit::PageBackward => {
                    self.page = if self.page > 0 { self.page - 1 } else { 0 };
                    BookAction::Navigated
                },
                BookHit::Slot(index) => BookAction::Recipe { index, right },
                BookHit::Search => BookAction::Navigated,
                BookHit::Filter => BookAction::ToggleFilter,
                BookHit::Tab(i) => {
                    if i != self.selected_tab {
                        self.selected_tab = i;
                        self.page = 0;
                    }
                    BookAction::Navigated
                },
            },
        )
    }
}

/// The page counter's text, or `None` on the frames it is not drawn at all:
/// `if (totalPages > 1)`. Only the current page is converted to 1-based; a
/// template with no specifiers (the bare key, when the translation is
/// missing) comes back unchanged.
pub fn page_label(page: usize, total: usize, template: &str) -> (r: Option<String>)
    requires
        page < usize::MAX,
    ensures
        (r is Some) == (total > 1),
        r matches Some(label) ==> label@ == fill(
            template@,
            seq![decimal((page + 1) as nat), decimal(total as nat)],
            0,
        ),
{
    if total <= 1 {
        return None;
    }
    let mut current: Vec<char> = Vec::new();
    push_decimal(&mut current, page + 1);
    let mut count: Vec<char> = Vec::new();
    push_decimal(&mut count, total);
    let mut args: Vec<Vec<char>> = Vec::new();
    args.push(current);
    args.push(count);
    let t = chars_of(template);
    let out = format_chars(&t, &args);
    proof {
        assert(args@.map_values(|a: Vec<char>| a@) =~= seq![decimal((page + 1) as nat), decimal(total as nat)]);
    }
    Some(string_from_chars(&out))
}

} // verus!
