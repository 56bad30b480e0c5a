use memlyzer::loot::Loot;

#[test]
fn test_items() {
    let msg = "Loot of a x: y";
    let loot = Loot::from(msg);
    assert_eq!(&loot.monster, &"x");
    assert_eq!(&loot.items, &["y"]);
}

#[test]
fn test_multi_items() {
    let msg = "Loot of a x: y, z";
    let loot = Loot::from(msg);
    assert_eq!(&loot.monster, &"x");
    assert_eq!(&loot.items, &["y", "z"]);
}

#[test]
fn test_filter_should_omit_items_not_visible_in_filter() {
    let msg = "Loot of a x: y";
    let loot = Loot::from(msg).filter(&vec![String::from("x")]);
    assert!(loot.items.is_empty());
}

#[test]
fn test_filter_should_pass_items_visible_in_filter() {
    let msg = "Loot of a x: y";
    let loot = Loot::from(msg).filter(&vec![String::from("y")]);
    assert_eq!(&loot.items, &["y"]);
}

#[test]
fn test_filter_should_omit_prefixes() {
    let msg = "Loot of a x: a y, an z, a a";
    let loot = Loot::from(msg).filter(&vec![String::from("y"), String::from("z"), String::from("a")]);
    assert_eq!(&loot.items, &["y", "z", "a"]);
}

#[test]
fn test_filter_plular_ones() {
    let msg = "Loot of a x: 2 as";
    let loot = Loot::from(msg).filter(&vec![String::from("a")]);
    assert_eq!(&loot.items, &["2 as"]);
}

#[test]
fn test_filter_plular_ones_while_received_many_msgs() {
    let msg = "Loot of a x: 2 as, 4 bs, 6 zches";
    let loot = Loot::from(msg).filter(&vec![String::from("a"), String::from("b"), String::from("zch")]);
    assert_eq!(&loot.items, &["2 as", "4 bs", "6 zches"]);
}

#[test]
fn loot_parts_are_trimmed_and_cut_at_later_colon() {
    let loot = Loot::from("12:00 Loot of a dragon lord :  gold coin ,  a dragon shield : extra");
    assert_eq!(loot.monster_name(), "dragon lord");
    assert_eq!(&loot.items, &["gold coin", "a dragon shield"]);
}

#[test]
fn loot_text_is_cut_at_the_next_header() {
    let loot = Loot::from("Loot of a rat: cheese Loot of a bat: wing");
    assert_eq!(loot.monster_name(), "rat");
    assert_eq!(&loot.items, &["cheese"]);
}

#[test]
fn loot_parses_only_with_header_and_colon() {
    assert!(Loot::parses("Loot of a rat: cheese"));
    assert!(!Loot::parses("Loot of the rat: cheese"));
    assert!(!Loot::parses("Loot of a rat cheese"));
    assert!(!Loot::parses(""));
}

#[test]
fn looted_items_are_joined_with_comma_and_space() {
    let loot = Loot::from("Loot of a x: y, z,w");
    assert_eq!(loot.looted_items(), "y, z, w");
    let single = Loot::from("Loot of a x: y");
    assert_eq!(single.looted_items(), "y");
}

#[test]
fn empty_items_join_to_empty_text() {
    let loot = Loot::from("Loot of a x:");
    assert_eq!(&loot.items, &[""]);
    assert_eq!(loot.looted_items(), "");
    let none = Loot::from("Loot of a x: gold").filter(&vec![]);
    assert_eq!(none.looted_items(), "");
}

#[test]
fn filter_strips_every_article_occurrence() {
    let loot = Loot::from("Loot of a x: a banana shield").filter(&vec![String::from("bannshield")]);
    assert!(loot.items.is_empty());
    let loot = Loot::from("Loot of a x: a banana shield").filter(&vec![String::from("bananshield")]);
    assert_eq!(&loot.items, &["bananshield"]);
}

#[test]
fn filter_turns_plurals_into_singulars() {
    let list = vec![String::from("knife"), String::from("berry"), String::from("potato"), String::from("dish")];
    let loot = Loot::from("Loot of a x: 3 knives, 10 berries, 2 potatoes, 2 dishes, 5 swords").filter(&list);
    assert_eq!(&loot.items, &["3 knives", "10 berries", "2 potatoes", "2 dishes"]);
    assert_eq!(loot.monster_name(), "x");
}

#[test]
fn filter_checked_agrees_with_filter() {
    let list = vec![String::from("y")];
    let checked = Loot::from("Loot of a x: y, z").filter_checked(&list).unwrap();
    assert_eq!(&checked.items, &["y"]);
    assert_eq!(&checked.monster, "x");
}
