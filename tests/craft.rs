use craftgraph::{
    calculate_craft_graph, default_one, export_items, insert_tag, resolve_tag_inner, CraftError,
    Fraction,
    GameData, Recipe, RecipeItem, RecipeItems, RecipeResult, Tag,
};

fn item(id: &str) -> RecipeItem {
    RecipeItem::Item(id.to_string())
}

fn tag_ref(id: &str) -> RecipeItem {
    RecipeItem::Tag(id.to_string())
}

fn slot(id: &str) -> RecipeItems {
    RecipeItems::single(item(id))
}

fn result(id: &str, count: u32) -> RecipeResult {
    RecipeResult { count, id: id.to_string() }
}

fn tag(name: &str, values: &[&str]) -> Tag {
    Tag { name: name.to_string(), values: values.iter().map(|v| v.to_string()).collect() }
}

fn shapeless(ings: Vec<RecipeItems>, id: &str, count: u32) -> Recipe {
    Recipe::Shapeless {
        category: "misc".to_string(),
        group: None,
        ingredients: ings,
        result: result(id, count),
    }
}

fn shaped(key: Vec<(&str, RecipeItems)>, pattern: &[&str], id: &str, count: u32) -> Recipe {
    Recipe::Shaped {
        category: "misc".to_string(),
        group: None,
        key: key.into_iter().map(|(k, v)| (k.to_string(), v)).collect(),
        pattern: pattern.iter().map(|p| p.to_string()).collect(),
        result: result(id, count),
    }
}

fn frac(f: Fraction) -> (u32, u32) {
    (f.numer, f.denom)
}

fn strings(v: Vec<&str>) -> Vec<String> {
    v.into_iter().map(|s| s.to_string()).collect()
}

#[test]
fn default_count_is_one() {
    assert_eq!(default_one(), 1);
}

#[test]
fn root_ratio_is_one() {
    let gd = GameData::new(vec![], vec![]).unwrap();
    let g = calculate_craft_graph(&gd, slot("minecraft:stone")).unwrap();
    assert_eq!(g.nodes.len(), 1);
    assert_eq!(frac(g.nodes[0].1), (1, 1));
    assert!(g.nodes[0].0 == slot("minecraft:stone"));
    assert!(g.edges.is_empty());
}

#[test]
fn planks_tag_without_recipes() {
    let tags = vec![tag("planks", &["oak_planks", "birch_planks"])];
    let gd = GameData::new(vec![], tags).unwrap();
    let found = gd.get_recipes_for_item(&tag_ref("planks")).unwrap();
    assert!(found.is_empty());
    let g = calculate_craft_graph(&gd, RecipeItems::single(tag_ref("planks"))).unwrap();
    assert_eq!(g.nodes.len(), 1);
    assert!(g.edges.is_empty());
}

#[test]
fn torch_from_stick_and_coal() {
    let torch = shapeless(vec![slot("stick"), slot("coal")], "torch", 4);
    let gd = GameData::new(vec![torch], vec![]).unwrap();
    let g = calculate_craft_graph(&gd, slot("torch")).unwrap();
    assert_eq!(g.nodes.len(), 3);
    assert!(g.nodes[0].0 == slot("torch"));
    assert!(g.nodes[1].0 == slot("stick"));
    assert!(g.nodes[2].0 == slot("coal"));
    assert_eq!(frac(g.nodes[1].1), (1, 4));
    assert_eq!(frac(g.nodes[2].1), (1, 4));
    assert_eq!(g.edges, vec![(1, 0, 0), (2, 0, 0)]);
    assert_eq!(g.recipes.len(), 1);
    assert_eq!(g.recipes[0].get_kind(), "Shapeless");
}

#[test]
fn shaped_pattern_counts_cells() {
    let ladder = shaped(vec![("X", slot("stick"))], &["X  ", "X X", "  X"], "b", 1);
    let ings = ladder.get_ingredients();
    assert_eq!(ings.len(), 1);
    assert!(*ings[0].0 == slot("stick"));
    assert_eq!(ings[0].1, 4);
}

#[test]
fn shaped_ratio_under_parent_two() {
    let top = shaped(vec![("B", slot("b"))], &["BB"], "a", 1);
    let ladder = shaped(vec![("X", slot("stick"))], &["X  ", "X X", "  X"], "b", 1);
    let gd = GameData::new(vec![top, ladder], vec![]).unwrap();
    let g = calculate_craft_graph(&gd, slot("a")).unwrap();
    assert_eq!(g.nodes.len(), 3);
    assert!(g.nodes[1].0 == slot("b"));
    assert_eq!(frac(g.nodes[1].1), (2, 1));
    assert!(g.nodes[2].0 == slot("stick"));
    assert_eq!(frac(g.nodes[2].1), (8, 1));
    assert_eq!(g.edges, vec![(1, 0, 0), (2, 1, 1)]);
}

#[test]
fn ratio_three_quarters() {
    let parent = Fraction { numer: 3, denom: 1 };
    let r = parent.scaled(1, 4).unwrap();
    assert_eq!(frac(r), (3, 4));
    let half = Fraction { numer: 1, denom: 2 };
    assert_eq!(frac(half.scaled(6, 4).unwrap()), (3, 4));
}

#[test]
fn ratio_overflow_is_reported() {
    let big = Fraction { numer: u32::MAX, denom: 1 };
    assert!(matches!(big.scaled(2, 1), Err(CraftError::RatioOverflow)));
    assert_eq!(frac(big.scaled(2, 2).unwrap()), (u32::MAX, 1));
}

#[test]
fn shapeless_counts_each_slot() {
    let r = shapeless(vec![slot("a"), slot("a"), slot("b")], "c", 1);
    let ings = r.get_ingredients();
    let counts: Vec<u32> = ings.iter().map(|p| p.1).collect();
    assert_eq!(counts, vec![1, 1, 1]);
    assert_eq!(r.get_kind(), "Shapeless");
}

#[test]
fn cooking_kinds_have_one_slot() {
    let cut = Recipe::Stonecutting { ingredient: slot("stone"), result: result("slab", 2) };
    let smelt = Recipe::Smelting {
        category: "blocks".to_string(),
        cookingtime: 200,
        experience_bits: 0,
        ingredient: slot("sand"),
        result: result("glass", 1),
    };
    assert_eq!(cut.get_ingredients().len(), 1);
    assert_eq!(cut.get_ingredients()[0].1, 1);
    assert_eq!(smelt.get_ingredients().len(), 1);
    assert_eq!(cut.get_result().unwrap().count, 2);
    assert_eq!(cut.get_kind(), "Stonecutting");
    assert_eq!(smelt.get_kind(), "Smelting");
    let other = Recipe::Unsupported("minecraft:smoking".to_string());
    assert!(other.get_result().is_none());
    assert!(other.get_ingredients().is_empty());
    assert_eq!(other.get_kind(), "Unsupported");
}

#[test]
fn plain_tag_resolves_to_its_values() {
    let tags = vec![tag("logs", &["oak_log", "birch_log", "oak_log"])];
    let ids = resolve_tag_inner("logs", &tags).unwrap();
    assert_eq!(ids, vec!["oak_log", "birch_log", "oak_log"]);
}

#[test]
fn nested_tag_flattens_in_place() {
    let tags = vec![
        tag("a", &["x", "#b", "y"]),
        tag("b", &["p", "q"]),
    ];
    let ids = resolve_tag_inner("a", &tags).unwrap();
    assert_eq!(ids, vec!["x", "p", "q", "y"]);
}

#[test]
fn missing_tag_is_reported() {
    let tags = vec![tag("a", &["x", "#nope"])];
    match resolve_tag_inner("a", &tags) {
        Err(CraftError::TagNotFound(n)) => assert_eq!(n, "nope"),
        other => panic!("unexpected {:?}", other),
    }
    assert!(matches!(resolve_tag_inner("zzz", &tags), Err(CraftError::TagNotFound(_))));
}

#[test]
fn mutual_tag_cycle_is_reported() {
    let tags = vec![tag("a", &["#b"]), tag("b", &["#a"])];
    match resolve_tag_inner("a", &tags) {
        Err(CraftError::CyclicTag(n)) => assert_eq!(n, "a"),
        other => panic!("unexpected {:?}", other),
    }
    let own = vec![tag("s", &["x", "#s"])];
    assert!(matches!(resolve_tag_inner("s", &own), Err(CraftError::CyclicTag(_))));
}

#[test]
fn graph_fails_on_missing_tag() {
    let r = shapeless(vec![RecipeItems::single(tag_ref("gone"))], "thing", 1);
    assert!(matches!(GameData::new(vec![r.clone()], vec![]), Err(CraftError::TagNotFound(_))));
    let tags = vec![tag("gone", &["#missing"])];
    assert!(matches!(GameData::new(vec![r], tags), Err(CraftError::TagNotFound(_))));
}

#[test]
fn zero_result_count_is_rejected() {
    let r = shapeless(vec![slot("a")], "b", 0);
    assert!(matches!(GameData::new(vec![r], vec![]), Err(CraftError::ZeroResultCount)));
}

#[test]
fn recipes_for_tag_in_catalog_order() {
    let tags = vec![tag("planks", &["oak_planks", "birch_planks"])];
    let r1 = shapeless(vec![slot("birch_log")], "birch_planks", 4);
    let r2 = shapeless(vec![slot("stick")], "torch", 4);
    let r3 = shapeless(vec![slot("oak_log")], "oak_planks", 4);
    let gd = GameData::new(vec![r1, r2, r3], tags).unwrap();
    let found = gd.get_recipes_for_item(&tag_ref("planks")).unwrap();
    let ids: Vec<String> = found.iter().map(|r| r.get_result().unwrap().id.clone()).collect();
    assert_eq!(ids, strings(vec!["birch_planks", "oak_planks"]));
    let resolved = gd.resolve_tag("planks").unwrap();
    assert_eq!(resolved, vec!["oak_planks", "birch_planks"]);
}

#[test]
fn alternatives_all_expanded_and_deduplicated() {
    let tags = vec![tag("planks", &["oak_planks", "birch_planks"])];
    let stick = shaped(
        vec![("#", RecipeItems::single(tag_ref("planks")))],
        &["#", "#"],
        "stick",
        4,
    );
    let oak = shapeless(vec![slot("oak_log")], "oak_planks", 4);
    let birch = shapeless(vec![slot("birch_log")], "birch_planks", 4);
    let gd = GameData::new(vec![stick, oak, birch], tags).unwrap();
    let g = calculate_craft_graph(&gd, slot("stick")).unwrap();
    assert_eq!(g.nodes.len(), 4);
    assert!(g.nodes[1].0 == RecipeItems::single(tag_ref("planks")));
    assert_eq!(frac(g.nodes[1].1), (1, 2));
    assert!(g.nodes[2].0 == slot("oak_log"));
    assert_eq!(frac(g.nodes[2].1), (1, 8));
    assert!(g.nodes[3].0 == slot("birch_log"));
    assert_eq!(g.edges, vec![(1, 0, 0), (2, 1, 1), (3, 1, 2)]);
    for i in 0..g.nodes.len() {
        for j in (i + 1)..g.nodes.len() {
            assert!(g.nodes[i].0 != g.nodes[j].0);
        }
    }
}

#[test]
fn alternatives_compare_in_order() {
    let ab = RecipeItems::Multiple(vec![item("a"), item("b")]);
    let ba = RecipeItems::Multiple(vec![item("b"), item("a")]);
    assert!(ab != ba);
    assert!(ab == RecipeItems::Multiple(vec![item("a"), item("b")]));
    assert!(slot("a") != RecipeItems::Multiple(vec![item("a")]));
    assert!(item("a") != tag_ref("a"));
    let listed: Vec<String> = ab.iter().iter().map(|i| i.to_text()).collect();
    assert_eq!(listed, strings(vec!["a", "b"]));
    assert_eq!(tag_ref("logs").to_text(), "#logs");
}

#[test]
fn cyclic_recipes_terminate() {
    let a = shapeless(vec![slot("b")], "a", 1);
    let b = shapeless(vec![slot("a")], "b", 2);
    let gd = GameData::new(vec![a, b], vec![]).unwrap();
    let g = calculate_craft_graph(&gd, slot("a")).unwrap();
    assert_eq!(g.nodes.len(), 2);
    assert_eq!(g.edges, vec![(1, 0, 0)]);
}

#[test]
fn known_items_sorted_unique() {
    let tags = vec![tag("planks", &["oak_planks", "birch_planks"])];
    let stick = shapeless(vec![RecipeItems::single(tag_ref("planks"))], "stick", 4);
    let torch = shapeless(vec![slot("stick"), slot("coal")], "torch", 4);
    let recipes = vec![stick, torch, Recipe::Unsupported("x".to_string())];
    let items = export_items(&recipes, &tags).unwrap();
    assert_eq!(items, strings(vec!["birch_planks", "coal", "oak_planks", "stick", "torch"]));
    let gd = GameData::new(recipes, tags).unwrap();
    assert_eq!(gd.items, strings(vec!["birch_planks", "coal", "oak_planks", "stick", "torch"]));
}

#[test]
fn error_messages_name_the_tag() {
    assert_eq!(CraftError::TagNotFound("x".to_string()).message(), "tag not found: x");
    assert_eq!(CraftError::CyclicTag("y".to_string()).message(), "cyclic tag reference: y");
}

#[test]
fn ratio_text_is_exact() {
    assert_eq!(Fraction { numer: 3, denom: 4 }.to_text(), "3/4");
    assert_eq!(Fraction { numer: 8, denom: 1 }.to_text(), "8");
    assert_eq!(Fraction { numer: 1234567890, denom: 7 }.to_text(), "1234567890/7");
}

#[test]
fn slot_and_recipe_text() {
    let alts = RecipeItems::Multiple(vec![item("a"), tag_ref("b")]);
    assert_eq!(alts.to_text(), "[a, #b]");
    assert_eq!(slot("coal").to_text(), "coal");
    let torch = shapeless(vec![slot("stick"), slot("coal")], "torch", 4);
    assert_eq!(torch.to_text(), "stick x1, coal x1 -> torch x4 (Shapeless)");
    let other = Recipe::Unsupported("k".to_string());
    assert_eq!(other.to_text(), " (Unsupported)");
}

#[test]
fn graph_text_lists_nodes_and_edges() {
    let torch = shapeless(vec![slot("stick"), slot("coal")], "torch", 4);
    let gd = GameData::new(vec![torch], vec![]).unwrap();
    let g = calculate_craft_graph(&gd, slot("torch")).unwrap();
    let expected = "NODES:\n0: torch x1\n1: stick x1/4\n2: coal x1/4\nEDGES:\n\
1 -> 0 (stick x1, coal x1 -> torch x4 (Shapeless))\n\
2 -> 0 (stick x1, coal x1 -> torch x4 (Shapeless))\n";
    assert_eq!(g.to_text(), expected);
}

#[test]
fn pattern_fit_check() {
    let r = shaped(vec![("X", slot("stick"))], &["XX", "X "], "b", 1);
    assert!(r.fits());
    assert_eq!(r.get_ingredients()[0].1, 3);
}

#[test]
fn ingredient_ratio_under_parent_three() {
    let top = shaped(vec![("B", slot("b"))], &["BBB"], "a", 1);
    let b = shapeless(vec![slot("x")], "b", 4);
    let gd = GameData::new(vec![top, b], vec![]).unwrap();
    let g = calculate_craft_graph(&gd, slot("a")).unwrap();
    assert_eq!(g.nodes.len(), 3);
    assert_eq!(frac(g.nodes[1].1), (3, 1));
    assert!(g.nodes[2].0 == slot("x"));
    assert_eq!(frac(g.nodes[2].1), (3, 4));
    assert_eq!(g.edges, vec![(1, 0, 0), (2, 1, 1)]);
}

#[test]
fn missing_root_tag_fails_with_that_tag() {
    let gd = GameData::new(vec![], vec![tag("planks", &["oak_planks"])]).unwrap();
    match calculate_craft_graph(&gd, RecipeItems::single(tag_ref("logs"))) {
        Err(CraftError::TagNotFound(n)) => assert_eq!(n, "logs"),
        Err(e) => panic!("unexpected {:?}", e),
        Ok(_) => panic!("graph built for a missing tag"),
    }
    let alts = RecipeItems::Multiple(vec![item("stone"), tag_ref("gone")]);
    assert!(matches!(calculate_craft_graph(&gd, alts), Err(CraftError::TagNotFound(_))));
}

#[test]
fn insert_tag_replaces_same_name() {
    let mut tags: Vec<Tag> = Vec::new();
    insert_tag(&mut tags, tag("a", &["x"]));
    insert_tag(&mut tags, tag("b", &["y"]));
    insert_tag(&mut tags, tag("a", &["z"]));
    assert_eq!(tags.len(), 2);
    assert_eq!(tags[0].name, "a");
    assert_eq!(tags[0].values, strings(vec!["z"]));
    assert_eq!(resolve_tag_inner("a", &tags).unwrap(), vec!["z"]);
}

#[test]
fn all_error_messages() {
    assert_eq!(CraftError::ZeroResultCount.message(), "recipe result count is zero");
    assert_eq!(CraftError::PatternTooLarge.message(), "recipe pattern too large");
    assert_eq!(CraftError::RatioOverflow.message(), "ratio does not fit 32 bits");
}

#[test]
fn deep_ratio_overflow_fails_build() {
    let a = shapeless(vec![slot("b")], "a", 65536);
    let b = shapeless(vec![slot("c")], "b", 65536);
    let gd = GameData::new(vec![a, b], vec![]).unwrap();
    assert!(matches!(calculate_craft_graph(&gd, slot("a")), Err(CraftError::RatioOverflow)));
}
