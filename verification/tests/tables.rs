use raphael::game_data::check_recipes_have_items;
use raphael::game_data::find_ingredients;
use raphael::game_data::get_craftable_item_names;
use raphael::game_data::get_ingredients;
use raphael::game_data::ids_are_distinct;
use raphael::game_data::names_are_distinct;
use raphael::game_data::Ingredient;
use raphael::game_data::Item;
use raphael::game_data::ItemTable;
use raphael::game_data::NameTable;
use raphael::game_data::Recipe;
use raphael::game_data::RecipeTable;
use raphael::game_data::LEVELS;

fn recipe(progress: u32, first: (u32, u32)) -> Recipe {
    let none = Ingredient { item_id: 0, amount: 0 };
    Recipe {
        recipe_level: 560,
        progress,
        quality: 7200,
        durability: 70,
        progress_div: 130,
        progress_mod: 90,
        quality_div: 115,
        quality_mod: 80,
        material_quality_factor: 75,
        ingredients: [
            Ingredient { item_id: first.0, amount: first.1 },
            none,
            none,
            none,
            none,
            none,
        ],
    }
}

fn item(name: &'static str) -> Item {
    Item { name, item_level: 560, can_be_hq: true }
}

fn items() -> ItemTable {
    ItemTable::build(vec![
        (10u32, item("Ingot")),
        (11, item("Ore")),
        (12, item("Saw")),
        (13, item("Plank")),
    ])
    .unwrap()
}

fn recipes() -> RecipeTable {
    RecipeTable::build(vec![(12u32, recipe(3500, (10, 2))), (10, recipe(1200, (11, 3)))]).unwrap()
}

#[test]
fn names_of_craftable_items_follow_the_recipes() {
    assert!(check_recipes_have_items(&recipes(), &items()));
    assert_eq!(get_craftable_item_names(&recipes(), &items()), vec!["Saw", "Ingot"]);
    let empty = RecipeTable::build(vec![]).unwrap();
    assert!(check_recipes_have_items(&empty, &items()));
    assert_eq!(get_craftable_item_names(&empty, &items()), Vec::<&str>::new());
}

#[test]
fn recipe_without_item_is_noticed() {
    let items = ItemTable::build(vec![(10u32, item("Ingot"))]).unwrap();
    let recipes =
        RecipeTable::build(vec![(10u32, recipe(1200, (11, 3))), (12, recipe(3500, (10, 2)))])
            .unwrap();
    assert!(!check_recipes_have_items(&recipes, &items));
}

#[test]
fn ingredients_are_found_by_name() {
    let item_ids =
        NameTable::build(vec![("Ingot", 10u32), ("Ore", 11), ("Saw", 12), ("Plank", 13)]).unwrap();
    let recipes = recipes();
    let found = get_ingredients(&item_ids, &recipes, "Saw".to_string());
    assert_eq!(found[0].item_id, 10);
    assert_eq!(found[0].amount, 2);
    assert_eq!(found[1].amount, 0);
    let found = find_ingredients(&item_ids, &recipes, "Ingot").unwrap();
    assert_eq!((found[0].item_id, found[0].amount), (11, 3));
    // no recipe makes ore, and nothing is called a hammer
    assert!(find_ingredients(&item_ids, &recipes, "Ore").is_none());
    assert!(find_ingredients(&item_ids, &recipes, "Hammer").is_none());
}

#[test]
fn tables_answer_in_the_order_and_by_the_key_of_their_entries() {
    let recipes = recipes();
    assert_eq!(recipes.len(), 2);
    assert_eq!(recipes.key_at(0), Some(12));
    assert_eq!(recipes.key_at(1), Some(10));
    assert_eq!(recipes.key_at(2), None);
    assert_eq!(recipes.get(12).map(|r| r.progress), Some(3500));
    assert_eq!(recipes.get(10).map(|r| r.progress), Some(1200));
    assert!(recipes.get(11).is_none());
    let items = items();
    assert_eq!(items.get(13).map(|i| i.name), Some("Plank"));
    assert!(items.get(14).is_none());
    let names = NameTable::build(vec![("Ingot", 10u32), ("Ore", 11)]).unwrap();
    assert_eq!(names.get("Ore"), Some(11));
    assert_eq!(names.get("ore"), None);
    let empty = ItemTable::build(vec![]).unwrap();
    assert!(empty.get(0).is_none());
}

#[test]
fn large_table_finds_every_key() {
    let entries: Vec<(u32, Item)> = (0..500u32).map(|i| (i * 7 + 3, item("Thing"))).collect();
    let table = ItemTable::build(entries).unwrap();
    for i in 0..500u32 {
        assert!(table.get(i * 7 + 3).is_some());
        assert!(table.get(i * 7 + 4).is_none());
    }
}

#[test]
fn repeated_key_makes_no_table() {
    assert!(RecipeTable::build(vec![(1u32, recipe(1, (1, 1))), (1, recipe(2, (1, 1)))]).is_none());
    assert!(ItemTable::build(vec![(5u32, item("A")), (6, item("B")), (5, item("C"))]).is_none());
    assert!(NameTable::build(vec![("A", 1u32), ("B", 2), ("A", 3)]).is_none());
    assert!(!ids_are_distinct(&vec![(1u32, 'a'), (2, 'b'), (1, 'c')]));
    assert!(ids_are_distinct(&vec![(1u32, 'a'), (2, 'b'), (3, 'a')]));
    assert!(ids_are_distinct::<u8>(&vec![]));
    assert!(!names_are_distinct(&vec![("x", 1u32), ("x", 1)]));
    assert!(names_are_distinct(&vec![("x", 1u32), ("y", 1)]));
}

#[test]
fn recipe_levels_of_the_job_levels() {
    assert_eq!(LEVELS.len(), 90);
    assert_eq!(LEVELS[0], 1);
    assert_eq!(LEVELS[49], 50);
    assert_eq!(LEVELS[50], 120);
    assert_eq!(LEVELS[89], 560);
    for pair in LEVELS.windows(2) {
        assert!(pair[0] < pair[1]);
    }
}
