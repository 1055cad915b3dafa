use weave::bdd::{Bdd, ALWAYS, NEVER};
use weave::closet::{Closet, ClosetBuilder, Error};
use weave::item::{Family, Item};

fn var(closet: &Closet, item: &Item) -> usize {
    closet.variable(item).expect("item is in the closet")
}

#[test]
fn two_families_with_one_item_each() {
    let blue = Item::new("blue");
    let jeans = Item::new("jeans");

    let shirts = Family::new("shirts");
    let pants = Family::new("pants");

    let closet_builder = ClosetBuilder::new()
        .add_item(&shirts, &blue)
        .add_item(&pants, &jeans);

    let closet = closet_builder.build().unwrap();
    let mut bdd: Bdd = closet.arena_copy();

    let expected_cousin_node = {
        let right_branch = bdd.branch(var(&closet, &blue), NEVER, ALWAYS);
        bdd.branch(var(&closet, &jeans), NEVER, right_branch)
    };
    assert_eq!(expected_cousin_node, closet.root());

    let both_selected = {
        let root = bdd.restrict(closet.root(), var(&closet, &jeans), true);
        bdd.restrict(root, var(&closet, &blue), true)
    };
    assert_eq!(ALWAYS, both_selected);

    let blue_selected = {
        let root = bdd.restrict(closet.root(), var(&closet, &blue), true);
        bdd.restrict(root, var(&closet, &jeans), false)
    };
    assert_eq!(NEVER, blue_selected);

    let jeans_selected = {
        let root = bdd.restrict(closet.root(), var(&closet, &jeans), true);
        bdd.restrict(root, var(&closet, &blue), false)
    };
    assert_eq!(NEVER, jeans_selected);
}

#[test]
fn one_families_with_two_items() {
    let blue = Item::new("blue");
    let red = Item::new("red");

    let shirts = Family::new("shirts");

    let closet_builder = ClosetBuilder::new()
        .add_item(&shirts, &red)
        .add_item(&shirts, &blue);

    let closet = closet_builder.build().unwrap();
    let mut bdd: Bdd = closet.arena_copy();
    let r = var(&closet, &red);
    let b = var(&closet, &blue);

    let expected_sibling_node = {
        let left_branch = bdd.branch(r, NEVER, ALWAYS);
        let right_branch = bdd.branch(r, ALWAYS, NEVER);
        bdd.branch(b, left_branch, right_branch)
    };
    assert_eq!(expected_sibling_node, closet.root());

    let red_selected = {
        let root = bdd.restrict(closet.root(), r, true);
        bdd.restrict(root, b, false)
    };
    assert_eq!(ALWAYS, red_selected);

    let blue_selected = {
        let root = bdd.restrict(closet.root(), b, true);
        bdd.restrict(root, r, false)
    };
    assert_eq!(ALWAYS, blue_selected);

    let both_selected = {
        let root = bdd.restrict(closet.root(), b, true);
        bdd.restrict(root, r, true)
    };
    assert_eq!(NEVER, both_selected);
}

#[test]
fn variables_follow_name_order() {
    let shirts = Family::new("shirts");
    let closet = ClosetBuilder::new()
        .add_item(&shirts, &Item::new("red"))
        .add_item(&shirts, &Item::new("blue"))
        .add_item(&shirts, &Item::new("green"))
        .build()
        .unwrap();
    let names: Vec<&str> = closet.items().iter().map(|i| i.name()).collect();
    assert_eq!(names, vec!["blue", "green", "red"]);
    assert_eq!(closet.variable(&Item::new("green")), Some(1));
    assert_eq!(closet.variable(&Item::new("black")), None);
    assert_eq!(closet.get_family(&Item::new("red")), Some(shirts));
}

#[test]
fn item_declared_under_two_families_is_refused() {
    let blue = Item::new("blue");
    let shirts = Family::new("shirts");
    let pants = Family::new("pants");
    let result = ClosetBuilder::new()
        .add_item(&shirts, &blue)
        .add_item(&pants, &blue)
        .build();
    match result {
        Err(Error::ConflictingFamilies(c)) => {
            assert_eq!(c, vec![(blue.clone(), vec![shirts.clone(), pants.clone()])]);
        }
        other => panic!("unexpected {:?}", other.is_ok()),
    }
}

#[test]
fn inclusion_within_a_family_is_refused_once_per_pair() {
    let blue = Item::new("blue");
    let red = Item::new("red");
    let shirts = Family::new("shirts");
    let result = ClosetBuilder::new()
        .add_item(&shirts, &blue)
        .add_item(&shirts, &red)
        .add_inclusion_rule(&red, &blue)
        .add_inclusion_rule(&blue, &red)
        .build();
    match result {
        Err(Error::InclusionError(c)) => {
            assert_eq!(c, vec![(shirts.clone(), vec![blue.clone(), red.clone()])]);
        }
        other => panic!("unexpected {:?}", other.is_ok()),
    }
}

#[test]
fn exclusion_within_a_family_is_refused() {
    let blue = Item::new("blue");
    let red = Item::new("red");
    let jeans = Item::new("jeans");
    let shirts = Family::new("shirts");
    let pants = Family::new("pants");
    let result = ClosetBuilder::new()
        .add_item(&shirts, &blue)
        .add_item(&shirts, &red)
        .add_item(&pants, &jeans)
        .add_exclusion_rule(&red, &blue)
        .build();
    match result {
        Err(Error::ExclusionError(c)) => {
            assert_eq!(c, vec![(shirts.clone(), vec![blue.clone(), red.clone()])]);
        }
        other => panic!("unexpected {:?}", other.is_ok()),
    }
}

#[test]
fn conflicting_families_are_reported_before_rules() {
    let blue = Item::new("blue");
    let red = Item::new("red");
    let shirts = Family::new("shirts");
    let pants = Family::new("pants");
    let result = ClosetBuilder::new()
        .add_item(&shirts, &blue)
        .add_item(&shirts, &red)
        .add_item(&pants, &red)
        .add_inclusion_rule(&blue, &red)
        .build();
    assert!(matches!(result, Err(Error::ConflictingFamilies(_))));
}

#[test]
fn family_conflicts_are_grouped_by_later_family_name() {
    let x = Item::new("x");
    let y = Item::new("y");
    let f1 = Family::new("b");
    let f2 = Family::new("z");
    let f3 = Family::new("c");
    let f4 = Family::new("a");
    let builder = ClosetBuilder::new()
        .add_item(&f1, &x)
        .add_item(&f2, &x)
        .add_item(&f3, &y)
        .add_item(&f4, &y);
    let expected = Error::ConflictingFamilies(vec![
        (y.clone(), vec![f3.clone(), f4.clone()]),
        (x.clone(), vec![f1.clone(), f2.clone()]),
    ]);
    assert_eq!(builder.validate(), Err(expected));
    let copy = builder.clone();
    assert_eq!(copy, builder);
}

#[test]
fn declaration_order_does_not_change_the_closet() {
    let blue = Item::new("blue");
    let red = Item::new("red");
    let jeans = Item::new("jeans");
    let shirts = Family::new("shirts");
    let pants = Family::new("pants");
    let c1 = ClosetBuilder::new()
        .add_item(&shirts, &blue)
        .add_item(&pants, &jeans)
        .add_item(&shirts, &red)
        .build()
        .unwrap();
    let c2 = ClosetBuilder::new()
        .add_item(&shirts, &red)
        .add_item(&pants, &jeans)
        .add_item(&shirts, &blue)
        .build()
        .unwrap();
    assert_eq!(c1.items(), c2.items());
    let mut t1 = weave::forest::trees(&c1.arena_copy(), c1.root());
    let mut t2 = weave::forest::trees(&c2.arena_copy(), c2.root());
    t1.sort();
    t2.sort();
    assert_eq!(t1, t2);
    assert_eq!(c1.root(), c2.root());
}
