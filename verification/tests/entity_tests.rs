use clue_core::{eq_ignore_case, str_eq, Entity, GameError};

fn entities(names: &[&str]) -> Vec<Entity> {
    let mut v = Vec::new();
    for n in names {
        v.push(Entity::new(n.to_string()));
    }
    v
}

fn names_of(list: &Vec<Entity>) -> Vec<String> {
    let mut v = Vec::new();
    for e in list {
        v.push(e.name.clone());
    }
    v
}

#[test]
fn eq_ignore_case_matches_mixed_case() {
    assert!(eq_ignore_case("Knife", "kNIFE"));
    assert!(eq_ignore_case("", ""));
    assert!(eq_ignore_case("Rubber Ducky", "rubber ducky"));
    assert!(!eq_ignore_case("Knife", "Knife "));
    assert!(!eq_ignore_case("Knife", "Fork"));
}

#[test]
fn str_eq_is_exact() {
    assert!(str_eq("north", "north"));
    assert!(!str_eq("north", "North"));
    assert!(!str_eq("north", "nort"));
}

#[test]
fn find_entity_by_name_returns_first_match() {
    let list = entities(&["Hairdryer", "Knife", "knife"]);
    assert_eq!(Entity::find_entity_by_name("KNIFE", &list), Some(1));
    assert_eq!(Entity::find_entity_by_name("Wine Bottle", &list), None);
}

#[test]
fn push_and_remove_entity() {
    let mut list = entities(&["Chair"]);
    Entity::push_entity(&mut list, Entity::new("Bedsheet".to_string()));
    assert_eq!(names_of(&list), vec!["Chair".to_string(), "Bedsheet".to_string()]);
    let removed = Entity::remove_entity(&mut list, "chair").expect("present");
    assert_eq!(removed.name, "Chair");
    assert_eq!(names_of(&list), vec!["Bedsheet".to_string()]);
    assert!(Entity::remove_entity(&mut list, "Chair").is_none());
}

#[test]
fn move_entity_transfers_to_destination_end() {
    let mut source = entities(&["Rubber Ducky", "Knife"]);
    let mut dest = entities(&["Chair"]);
    let r = Entity::move_entity_by_name("knife", &mut source, &mut dest);
    assert!(r.is_ok());
    assert_eq!(names_of(&source), vec!["Rubber Ducky".to_string()]);
    assert_eq!(names_of(&dest), vec!["Chair".to_string(), "Knife".to_string()]);
}

#[test]
fn move_entity_absent_name_changes_nothing() {
    let mut source = entities(&["Rubber Ducky", "Knife"]);
    let mut dest = entities(&["Chair"]);
    let before_source = names_of(&source);
    let before_dest = names_of(&dest);
    let r = Entity::move_entity_by_name("Wine Bottle", &mut source, &mut dest);
    assert_eq!(r, Err(GameError::NotFound));
    assert_eq!(names_of(&source), before_source);
    assert_eq!(names_of(&dest), before_dest);
    assert_eq!(source.len(), 2);
    assert_eq!(dest.len(), 1);
}

#[test]
fn entity_list_as_string_renders_names_or_default() {
    let empty: Vec<Entity> = Vec::new();
    assert_eq!(Entity::entity_list_as_string(&empty, "No items."), "No items.");
    let list = entities(&["Knife", "Chair"]);
    assert_eq!(Entity::entity_list_as_string(&list, "No items."), "Knife | Chair | ");
}
