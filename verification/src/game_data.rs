use vstd::prelude::*;
use phf::OrderedMap;

verus! {

/// An item of the game.
#[derive(Debug, Clone, Copy)]
pub struct Item {
    pub name: &'static str,
    pub item_level: u32,
    pub can_be_hq: bool,
}

/// One ingredient of a recipe: an item and how many of it.
#[derive(Debug, Clone, Copy)]
pub struct Ingredient {
    pub item_id: u32,
    pub amount: u32,
}

/// How an item is crafted.
#[derive(Debug, Clone, Copy)]
pub struct Recipe {
    pub recipe_level: u32,
    pub progress: u32,
    pub quality: u32,
    pub durability: i8,
    pub progress_div: u32,
    pub progress_mod: u32,
    pub quality_div: u32,
    pub quality_mod: u32,
    pub material_quality_factor: u32,
    pub ingredients: [Ingredient; 6],
}

/// The recipe that is to be crafted and the high-quality ingredients used.
#[derive(Debug, Clone, Copy)]
pub struct RecipeConfiguration {
    pub item_id: u32,
    pub recipe: Recipe,
    pub hq_ingredients: [u8; 6],
}

/// The crafter's stats.
#[derive(Debug, Clone, Copy)]
pub struct CrafterConfiguration {
    pub craftsmanship: u16,
    pub control: u16,
    pub cp: u16,
    pub job_level: u8,
    pub manipulation: bool,
}

/// The recipe level that corresponds to each job level from 1 to 90.
pub const LEVELS: [u32; 90] = [
    1, 2, 3, 4, 5, 6, 7, 8, 9, 10, 11, 12, 13, 14, 15, 16, 17, 18, 19, 20, 21, 22, 23, 24, 25, 26,
    27, 28, 29, 30, 31, 32, 33, 34, 35, 36, 37, 38, 39, 40, 41, 42, 43, 44, 45, 46, 47, 48, 49, 50,
    120, 125, 130, 133, 136, 139, 142, 145, 148, 150, 260, 265, 270, 273, 276, 279, 282, 285, 288,
    290, 390, 395, 400, 403, 406, 409, 412, 415, 418, 420, 517, 520, 525, 530, 535, 540, 545, 550,
    555, 560,
];

/// `OrderedMap` of `phf`: a table with a perfect hash that keeps the order
/// of its entries. Nothing is said of what is inside it; the library holds
/// such tables only inside the three table types below, which are made by
/// `phf`'s generator from entries without a repeated key.
#[verifier::external_type_specification]
#[verifier::external_body]
#[verifier::reject_recursive_types(K)]
#[verifier::reject_recursive_types(V)]
pub struct ExOrderedMap<K: 'static, V: 'static>(OrderedMap<K, V>);

/// The entries of a table of recipes, in the order of the table: the
/// identifier of the item crafted, and the recipe.
pub uninterp spec fn recipe_entries(table: OrderedMap<u32, Recipe>) -> Seq<(u32, Recipe)>;

/// The entries of a table of items, in the order of the table.
pub uninterp spec fn item_entries(table: OrderedMap<u32, Item>) -> Seq<(u32, Item)>;

/// The entries of a table of item names, in the order of the table: the
/// name and the identifier of the item.
pub uninterp spec fn name_entries(table: OrderedMap<&'static str, u32>) -> Seq<(Seq<char>, u32)>;

/// The value of the first entry with the given key.
pub open spec fn spec_find<K, V>(entries: Seq<(K, V)>, key: K) -> Option<V>
    decreases entries.len(),
{
    if entries.len() == 0 {
        None
    } else if entries[0].0 == key {
        Some(entries[0].1)
    } else {
        spec_find(entries.skip(1), key)
    }
}

/// No key occurs in two entries.
pub open spec fn distinct_keys<K, V>(entries: Seq<(K, V)>) -> bool {
    forall|i: int, j: int|
        0 <= i < j < entries.len() ==> (#[trigger] entries[i]).0 != (#[trigger] entries[j]).0
}

/// The entries with each name as its sequence of characters.
pub open spec fn spec_named(entries: Seq<(&'static str, u32)>) -> Seq<(Seq<char>, u32)> {
    Seq::new(entries.len(), |i: int| (entries[i].0@, entries[i].1))
}

/// `str::eq` of std: whether two texts are the same characters.
#[verifier::external_body]
fn same_text(a: &str, b: &str) -> (r: bool)
    ensures
        r == (a@ == b@),
{
    a == b
}

/// `phf_generator::generate_hash`, and the table of `phf` over its result:
/// a table that holds the given entries in their order. The generator
/// does not return on a repeated key.
#[verifier::external_body]
fn make_recipe_table(entries: Vec<(u32, Recipe)>) -> (table: OrderedMap<u32, Recipe>)
    requires
        distinct_keys(entries@),
    ensures
        recipe_entries(table) == entries@,
{
    let keys: Vec<u32> = entries.iter().map(|entry| entry.0).collect();
    let state = phf_generator::generate_hash(&keys);
    OrderedMap {
        key: state.key,
        disps: Box::leak(state.disps.into_boxed_slice()),
        idxs: Box::leak(state.map.into_boxed_slice()),
        entries: Box::leak(entries.into_boxed_slice()),
    }
}

/// `phf_generator::generate_hash`, and the table of `phf` over its result:
/// a table that holds the given entries in their order. The generator
/// does not return on a repeated key.
#[verifier::external_body]
fn make_item_table(entries: Vec<(u32, Item)>) -> (table: OrderedMap<u32, Item>)
    requires
        distinct_keys(entries@),
    ensures
        item_entries(table) == entries@,
{
    let keys: Vec<u32> = entries.iter().map(|entry| entry.0).collect();
    let state = phf_generator::generate_hash(&keys);
    OrderedMap {
        key: state.key,
        disps: Box::leak(state.disps.into_boxed_slice()),
        idxs: Box::leak(state.map.into_boxed_slice()),
        entries: Box::leak(entries.into_boxed_slice()),
    }
}

/// `phf_generator::generate_hash`, and the table of `phf` over its result:
/// a table that holds the given entries in their order. The generator
/// does not return on a repeated key.
#[verifier::external_body]
fn make_name_table(entries: Vec<(&'static str, u32)>) -> (table: OrderedMap<&'static str, u32>)
    requires
        distinct_keys(spec_named(entries@)),
    ensures
        name_entries(table) == spec_named(entries@),
{
    let keys: Vec<&'static str> = entries.iter().map(|entry| entry.0).collect();
    let state = phf_generator::generate_hash(&keys);
    OrderedMap {
        key: state.key,
        disps: Box::leak(state.disps.into_boxed_slice()),
        idxs: Box::leak(state.map.into_boxed_slice()),
        entries: Box::leak(entries.into_boxed_slice()),
    }
}

/// `OrderedMap::len` of `phf`: the number of entries.
#[verifier::external_body]
fn recipe_count(table: &RecipeTable) -> (n: usize)
    ensures
        n == table@.len(),
{
    table.table.len()
}

/// `OrderedMap::index` of `phf`: the key of the entry at a position, in the
/// order of the table.
#[verifier::external_body]
fn recipe_key_at(table: &RecipeTable, index: usize) -> (key: Option<u32>)
    ensures
        key == (if index < table@.len() {
            Some(table@[index as int].0)
        } else {
            None
        }),
{
    table.table.index(index).map(|entry| *entry.0)
}

/// `OrderedMap::get` of `phf`, on a table made by the generator: the recipe
/// stored for an item.
#[verifier::external_body]
fn recipe_of(table: &RecipeTable, item_id: u32) -> (recipe: Option<Recipe>)
    ensures
        recipe == spec_find(table@, item_id),
{
    table.table.get(&item_id).copied()
}

/// `OrderedMap::get` of `phf`, on a table made by the generator: the item
/// stored under an identifier.
#[verifier::external_body]
fn item_of(table: &ItemTable, item_id: u32) -> (item: Option<Item>)
    ensures
        item == spec_find(table@, item_id),
{
    table.table.get(&item_id).copied()
}

/// `OrderedMap::get` of `phf`, on a table made by the generator: the
/// identifier stored under a name.
#[verifier::external_body]
fn item_id_of(table: &NameTable, name: &str) -> (item_id: Option<u32>)
    ensures
        item_id == spec_find(table@, name@),
{
    table.table.get(name).copied()
}

/// Whether no identifier occurs in two entries.
pub fn ids_are_distinct<V>(entries: &Vec<(u32, V)>) -> (r: bool)
    ensures
        r == distinct_keys(entries@),
{
    let mut j: usize = 0;
    while j < entries.len()
        invariant
            j <= entries.len(),
            forall|a: int, b: int|
                0 <= a < b < j ==> (#[trigger] entries@[a]).0 != (#[trigger] entries@[b]).0,
        decreases entries.len() - j,
    {
        let mut i: usize = 0;
        while i < j
            invariant
                i <= j < entries.len(),
                forall|a: int| 0 <= a < i ==> (#[trigger] entries@[a]).0 != entries@[j as int].0,
            decreases j - i,
        {
            if entries[i].0 == entries[j].0 {
                return false;
            }
            i += 1;
        }
        j += 1;
    }
    true
}

/// Whether no name occurs in two entries.
pub fn names_are_distinct(entries: &Vec<(&'static str, u32)>) -> (r: bool)
    ensures
        r == distinct_keys(spec_named(entries@)),
{
    let mut j: usize = 0;
    while j < entries.len()
        invariant
            j <= entries.len(),
            forall|a: int, b: int|
                0 <= a < b < j ==> (#[trigger] entries@[a]).0@ != (#[trigger] entries@[b]).0@,
        decreases entries.len() - j,
    {
        let mut i: usize = 0;
        while i < j
            invariant
                i <= j < entries.len(),
                forall|a: int| 0 <= a < i ==> (#[trigger] entries@[a]).0@ != entries@[j as int].0@,
            decreases j - i,
        {
            if same_text(entries[i].0, entries[j].0) {
                proof {
                    let named = spec_named(entries@);
                    assert(named[i as int].0 == named[j as int].0);
                }
                return false;
            }
            i += 1;
        }
        j += 1;
    }
    proof {
        let named = spec_named(entries@);
        assert forall|a: int, b: int| 0 <= a < b < named.len() implies (#[trigger] named[a]).0 != (
        #[trigger] named[b]).0 by {
            assert(entries@[a].0@ != entries@[b].0@);
        }
    }
    true
}

/// The recipes, by the identifier of the item that each makes.
pub struct RecipeTable {
    table: OrderedMap<u32, Recipe>,
}

/// The items, by identifier.
pub struct ItemTable {
    table: OrderedMap<u32, Item>,
}

/// The identifiers of the items, by name.
pub struct NameTable {
    table: OrderedMap<&'static str, u32>,
}

impl View for RecipeTable {
    type V = Seq<(u32, Recipe)>;

    /// The entries in the order of the table.
    closed spec fn view(&self) -> Seq<(u32, Recipe)> {
        recipe_entries(self.table)
    }
}

impl View for ItemTable {
    type V = Seq<(u32, Item)>;

    /// The entries in the order of the table.
    closed spec fn view(&self) -> Seq<(u32, Item)> {
        item_entries(self.table)
    }
}

impl View for NameTable {
    type V = Seq<(Seq<char>, u32)>;

    /// The entries in the order of the table, each name as its characters.
    closed spec fn view(&self) -> Seq<(Seq<char>, u32)> {
        name_entries(self.table)
    }
}

impl RecipeTable {
    /// The table of the given entries; `None` if an identifier occurs
    /// twice.
    pub fn build(entries: Vec<(u32, Recipe)>) -> (r: Option<RecipeTable>)
        ensures
            r is Some <==> distinct_keys(entries@),
            r matches Some(table) ==> table@ == entries@,
    {
        if ids_are_distinct(&entries) {
            Some(RecipeTable { table: make_recipe_table(entries) })
        } else {
            None
        }
    }

    /// The number of recipes.
    pub fn len(&self) -> (n: usize)
        ensures
            n == self@.len(),
    {
        recipe_count(self)
    }

    /// The identifier of the item that the recipe at a position makes.
    pub fn key_at(&self, index: usize) -> (key: Option<u32>)
        ensures
            key == (if index < self@.len() {
                Some(self@[index as int].0)
            } else {
                None
            }),
    {
        recipe_key_at(self, index)
    }

    /// The recipe that makes the item.
    pub fn get(&self, item_id: u32) -> (recipe: Option<Recipe>)
        ensures
            recipe == spec_find(self@, item_id),
    {
        recipe_of(self, item_id)
    }
}

impl ItemTable {
    /// The table of the given entries; `None` if an identifier occurs
    /// twice.
    pub fn build(entries: Vec<(u32, Item)>) -> (r: Option<ItemTable>)
        ensures
            r is Some <==> distinct_keys(entries@),
            r matches Some(table) ==> table@ == entries@,
    {
        if ids_are_distinct(&entries) {
            Some(ItemTable { table: make_item_table(entries) })
        } else {
            None
        }
    }

    /// The item with the identifier.
    pub fn get(&self, item_id: u32) -> (item: Option<Item>)
        ensures
            item == spec_find(self@, item_id),
    {
        item_of(self, item_id)
    }
}

impl NameTable {
    /// The table of the given entries; `None` if a name occurs twice.
    pub fn build(entries: Vec<(&'static str, u32)>) -> (r: Option<NameTable>)
        ensures
            r is Some <==> distinct_keys(spec_named(entries@)),
            r matches Some(table) ==> table@ == spec_named(entries@),
    {
        if names_are_distinct(&entries) {
            Some(NameTable { table: make_name_table(entries) })
        } else {
            None
        }
    }

    /// The identifier of the item of the name.
    pub fn get(&self, name: &str) -> (item_id: Option<u32>)
        ensures
            item_id == spec_find(self@, name@),
    {
        item_id_of(self, name)
    }
}

/// Every recipe of the table makes an item that the table of items knows.
pub open spec fn recipes_have_items(recipes: RecipeTable, items: ItemTable) -> bool {
    forall|i: int|
        0 <= i < recipes@.len() ==> spec_find(items@, (#[trigger] recipes@[i]).0) is Some
}

/// Whether every recipe of the table makes an item that the table of
/// items knows.
pub fn check_recipes_have_items(recipes: &RecipeTable, items: &ItemTable) -> (r: bool)
    ensures
        r == recipes_have_items(*recipes, *items),
{
    let count = recipes.len();
    let mut i: usize = 0;
    while i < count
        invariant
            i <= count,
            count == recipes@.len(),
            forall|k: int| 0 <= k < i ==> spec_find(items@, (#[trigger] recipes@[k]).0) is Some,
        decreases count - i,
    {
        let known = match recipes.key_at(i) {
            Some(item_id) => items.get(item_id).is_some(),
            None => false,
        };
        if !known {
            return false;
        }
        i += 1;
    }
    true
}

/// The names of the items for which there is a recipe, in the order of the
/// recipes.
pub fn get_craftable_item_names(recipes: &RecipeTable, items: &ItemTable) -> (names: Vec<
    &'static str,
>)
    requires
        recipes_have_items(*recipes, *items),
    ensures
        names@.len() == recipes@.len(),
        forall|i: int|
            0 <= i < names@.len() ==> Some(#[trigger] names@[i]) == spec_name_of(
                items@,
                recipes@[i].0,
            ),
{
    let count = recipes.len();
    let mut names: Vec<&'static str> = Vec::new();
    let mut i: usize = 0;
    while i < count
        invariant
            i <= count,
            count == recipes@.len(),
            recipes_have_items(*recipes, *items),
            names@.len() == i,
            forall|k: int|
                0 <= k < i ==> Some(#[trigger] names@[k]) == spec_name_of(items@, recipes@[k].0),
        decreases count - i,
    {
        let item_id = recipes.key_at(i).unwrap();
        assert(spec_find(items@, recipes@[i as int].0) is Some);
        let item = items.get(item_id).unwrap();
        names.push(item.name);
        i += 1;
    }
    names
}

/// The name of the item stored under an identifier.
pub open spec fn spec_name_of(entries: Seq<(u32, Item)>, item_id: u32) -> Option<&'static str> {
    match spec_find(entries, item_id) {
        Some(item) => Some(item.name),
        None => None,
    }
}

/// The ingredients of the recipe for the item of the given name, if the
/// name is known and there is a recipe for the item.
pub open spec fn spec_ingredients(
    item_ids: Seq<(Seq<char>, u32)>,
    recipes: Seq<(u32, Recipe)>,
    item_name: Seq<char>,
) -> Option<[Ingredient; 6]> {
    match spec_find(item_ids, item_name) {
        None => None,
        Some(item_id) => match spec_find(recipes, item_id) {
            None => None,
            Some(recipe) => Some(recipe.ingredients),
        },
    }
}

/// The ingredients of the recipe for the item of the given name; `None`
/// if the name is not known or there is no recipe for the item.
pub fn find_ingredients(item_ids: &NameTable, recipes: &RecipeTable, item_name: &str) -> (r: Option<
    [Ingredient; 6],
>)
    ensures
        r == spec_ingredients(item_ids@, recipes@, item_name@),
{
    match item_ids.get(item_name) {
        None => None,
        Some(item_id) => match recipes.get(item_id) {
            None => None,
            Some(recipe) => Some(recipe.ingredients),
        },
    }
}

/// The ingredients of the recipe for the item of the given name.
pub fn get_ingredients(
    item_ids: &NameTable,
    recipes: &RecipeTable,
    item_name: String,
) -> (r: [Ingredient; 6])
    requires
        spec_ingredients(item_ids@, recipes@, item_name@) is Some,
    ensures
        Some(r) == spec_ingredients(item_ids@, recipes@, item_name@),
{
    find_ingredients(item_ids, recipes, item_name.as_str()).unwrap()
}

} // verus!
