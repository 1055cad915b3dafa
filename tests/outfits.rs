use weave::closet::{Closet, ClosetBuilder};
use weave::item::{Family, Item};
use weave::outfit::{Outfit, OutfitError};

struct Wardrobe {
    blue: Item,
    red: Item,
    jeans: Item,
    slacks: Item,
    shirts: Family,
    pants: Family,
}

fn wardrobe() -> Wardrobe {
    Wardrobe {
        blue: Item::new("blue"),
        red: Item::new("red"),
        jeans: Item::new("jeans"),
        slacks: Item::new("slacks"),
        shirts: Family::new("shirts"),
        pants: Family::new("pants"),
    }
}

fn builder(w: &Wardrobe) -> ClosetBuilder {
    ClosetBuilder::new()
        .add_item(&w.shirts, &w.blue)
        .add_item(&w.shirts, &w.red)
        .add_item(&w.pants, &w.jeans)
        .add_item(&w.pants, &w.slacks)
}

fn names(outfit: &Outfit) -> Vec<&str> {
    outfit.items().iter().map(|i| i.name()).collect()
}

fn complete(closet: &Closet, selections: Vec<&Item>) -> Result<Vec<String>, OutfitError> {
    closet
        .complete_outfit(selections.into_iter().cloned().collect())
        .map(|o| names(&o).into_iter().map(String::from).collect())
}

fn ok(items: Vec<&str>) -> Result<Vec<String>, OutfitError> {
    Ok(items.into_iter().map(String::from).collect())
}

fn same(a: &Result<Vec<String>, OutfitError>, b: &Result<Vec<String>, OutfitError>) -> bool {
    match (a, b) {
        (Ok(x), Ok(y)) => x == y,
        (Err(OutfitError::UnknownItems(x)), Err(OutfitError::UnknownItems(y))) => x == y,
        (Err(OutfitError::MultipleItemsPerFamily(x)), Err(OutfitError::MultipleItemsPerFamily(y))) => x == y,
        (Err(OutfitError::ConflictingItems(x)), Err(OutfitError::ConflictingItems(y))) => x == y,
        _ => false,
    }
}

#[test]
fn no_rules_no_selections() {
    let w = wardrobe();
    let closet = builder(&w).build().unwrap();
    let expected = ok(vec!["blue", "jeans"]);
    assert!(same(&expected, &complete(&closet, vec![])));
}

#[test]
fn no_rules_one_selection() {
    let w = wardrobe();
    let closet = builder(&w).build().unwrap();
    let expected = ok(vec!["jeans", "red"]);
    assert!(same(&expected, &complete(&closet, vec![&w.red])));
}

#[test]
fn no_rules_selection_for_each_family() {
    let w = wardrobe();
    let closet = builder(&w).build().unwrap();
    let expected = ok(vec!["blue", "slacks"]);
    assert!(same(&expected, &complete(&closet, vec![&w.slacks, &w.blue])));
}

#[test]
fn no_rules_unknown_selection() {
    let w = wardrobe();
    let black = Item::new("black");
    let closet = builder(&w).build().unwrap();
    let expected = Err(OutfitError::UnknownItems(vec![black.clone()]));
    assert!(same(&expected, &complete(&closet, vec![&w.jeans, &black])));
}

#[test]
fn no_rules_more_selections_than_families() {
    let w = wardrobe();
    let closet = builder(&w).build().unwrap();
    let expected = Err(OutfitError::MultipleItemsPerFamily(vec![(
        w.pants.clone(),
        vec![w.jeans.clone(), w.slacks.clone()],
    )]));
    assert!(same(&expected, &complete(&closet, vec![&w.jeans, &w.blue, &w.slacks])));
}

#[test]
fn exclusion_rule_with_one_selection() {
    let w = wardrobe();
    let closet = builder(&w).add_exclusion_rule(&w.blue, &w.jeans).build().unwrap();
    let expected = ok(vec!["blue", "slacks"]);
    assert!(same(&expected, &complete(&closet, vec![&w.blue])));
    let expected = ok(vec!["jeans", "red"]);
    assert!(same(&expected, &complete(&closet, vec![&w.jeans])));
}

#[test]
fn exclusion_rule_with_conflicting_selection() {
    let w = wardrobe();
    let closet = builder(&w).add_exclusion_rule(&w.blue, &w.jeans).build().unwrap();
    let expected = Err(OutfitError::ConflictingItems(vec![w.blue.clone(), w.jeans.clone()]));
    assert!(same(&expected, &complete(&closet, vec![&w.blue, &w.jeans])));
}

#[test]
fn inclusion_rule_with_one_selection() {
    let w = wardrobe();
    let closet = builder(&w).build().unwrap();
    let expected = ok(vec!["blue", "jeans"]);
    assert!(same(&expected, &complete(&closet, vec![])));

    let closet = builder(&w).add_inclusion_rule(&w.jeans, &w.red).build().unwrap();
    let expected = ok(vec!["jeans", "red"]);
    assert!(same(&expected, &complete(&closet, vec![])));
}

#[test]
fn inclusion_rule_is_one_way() {
    let w = wardrobe();
    let closet = builder(&w).add_inclusion_rule(&w.red, &w.slacks).build().unwrap();
    let expected = ok(vec!["blue", "slacks"]);
    assert!(same(&expected, &complete(&closet, vec![&w.slacks])));
}

#[test]
fn blue_excluded_with_every_pair_of_pants_cannot_be_selected() {
    let w = wardrobe();
    let closet = builder(&w)
        .add_exclusion_rule(&w.blue, &w.jeans)
        .add_exclusion_rule(&w.blue, &w.slacks)
        .build()
        .unwrap();
    let expected = Err(OutfitError::ConflictingItems(vec![w.blue.clone()]));
    assert!(same(&expected, &complete(&closet, vec![&w.blue])));
    let expected = ok(vec!["jeans", "red"]);
    assert!(same(&expected, &complete(&closet, vec![])));
}

#[test]
fn completion_keeps_selections_and_is_repeatable() {
    let w = wardrobe();
    let closet = builder(&w).add_exclusion_rule(&w.red, &w.slacks).build().unwrap();
    let first = complete(&closet, vec![&w.slacks]);
    let second = complete(&closet, vec![&w.slacks]);
    assert!(same(&first, &second));
    assert!(same(&first, &ok(vec!["blue", "slacks"])));
}

#[test]
fn three_items_in_a_family_give_exactly_one() {
    let shirts = Family::new("shirts");
    let a = Item::new("a");
    let b = Item::new("b");
    let c = Item::new("c");
    let closet = ClosetBuilder::new()
        .add_item(&shirts, &a)
        .add_item(&shirts, &b)
        .add_item(&shirts, &c)
        .build()
        .unwrap();
    assert!(same(&ok(vec!["a"]), &complete(&closet, vec![])));
    assert!(same(&ok(vec!["c"]), &complete(&closet, vec![&c])));
    let expected = Err(OutfitError::MultipleItemsPerFamily(vec![(shirts.clone(), vec![a.clone(), c.clone()])]));
    assert!(same(&expected, &complete(&closet, vec![&a, &c])));
}

#[test]
fn empty_closet_gives_empty_outfit() {
    let closet = ClosetBuilder::new().build().unwrap();
    assert!(same(&ok(vec![]), &complete(&closet, vec![])));
}

#[test]
fn crowded_families_come_in_name_order() {
    let w = wardrobe();
    let closet = builder(&w).build().unwrap();
    let expected = Err(OutfitError::MultipleItemsPerFamily(vec![
        (w.pants.clone(), vec![w.slacks.clone(), w.jeans.clone()]),
        (w.shirts.clone(), vec![w.red.clone(), w.blue.clone()]),
    ]));
    let got = closet.complete_outfit(vec![w.red.clone(), w.slacks.clone(), w.blue.clone(), w.jeans.clone()]);
    assert_eq!(got, expected);
}

#[test]
fn outfits_compare_equal() {
    let w = wardrobe();
    let closet = builder(&w).build().unwrap();
    let first = closet.complete_outfit(vec![w.red.clone()]);
    let second = closet.complete_outfit(vec![w.red.clone()]);
    assert!(first.is_ok());
    assert_eq!(first, second);
}
