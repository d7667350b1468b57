use charta::states::{ChangeMap, NameMap, StateMap};

fn names_of<T: Copy>(map: &NameMap<T>) -> Vec<String> {
    let mut names = Vec::new();
    for i in 0..map.len() {
        names.push(map.name_at(i).to_string());
    }
    names
}

#[test]
fn new_map_is_empty() {
    let map: StateMap = NameMap::new();
    assert_eq!(map.len(), 0);
    assert!(map.is_empty());
    assert_eq!(map.get("anything"), None);
    assert!(!map.contains_key("anything"));
}

#[test]
fn insert_binds_a_name() {
    let mut map: StateMap = NameMap::new();
    assert_eq!(map.insert("signal1".to_string(), true), None);
    assert_eq!(map.get("signal1"), Some(&true));
    assert!(map.contains_key("signal1"));
    assert_eq!(map.len(), 1);
    assert!(!map.is_empty());
}

#[test]
fn insert_rebinds_and_returns_the_previous_value() {
    let mut map: StateMap = NameMap::new();
    assert_eq!(map.insert("coil1".to_string(), true), None);
    assert_eq!(map.insert("coil1".to_string(), false), Some(true));
    assert_eq!(map.get("coil1"), Some(&false));
    assert_eq!(map.len(), 1);
}

#[test]
fn insert_leaves_other_names_alone() {
    let mut map: StateMap = NameMap::new();
    map.insert("b".to_string(), true);
    map.insert("a".to_string(), false);
    map.insert("c".to_string(), true);
    map.insert("b".to_string(), false);
    assert_eq!(map.get("a"), Some(&false));
    assert_eq!(map.get("b"), Some(&false));
    assert_eq!(map.get("c"), Some(&true));
    assert_eq!(map.get("d"), None);
    assert_eq!(map.len(), 3);
}

#[test]
fn entries_are_walked_in_ascending_name_order() {
    let mut map: StateMap = NameMap::new();
    for name in ["delta", "alpha", "charlie", "bravo", "alpha2", "Zulu"] {
        map.insert(name.to_string(), name.len() % 2 == 0);
    }
    assert_eq!(names_of(&map), vec!["Zulu", "alpha", "alpha2", "bravo", "charlie", "delta"]);
    assert_eq!(map.value_at(0), true);
    assert_eq!(map.value_at(1), false);
    assert_eq!(map.value_at(2), true);
    assert_eq!(map.value_at(3), false);
    assert_eq!(map.value_at(4), false);
    assert_eq!(map.value_at(5), false);
}

#[test]
fn walk_order_does_not_depend_on_insertion_order() {
    let mut forward: StateMap = NameMap::new();
    let mut backward: StateMap = NameMap::new();
    let names = ["output1", "output2", "output10", "input"];
    for name in names.iter() {
        forward.insert(name.to_string(), true);
    }
    for name in names.iter().rev() {
        backward.insert(name.to_string(), true);
    }
    assert_eq!(forward, backward);
    assert_eq!(names_of(&forward), vec!["input", "output1", "output10", "output2"]);
}

#[test]
fn get_of_an_unbound_name_is_none_between_bound_names() {
    let mut map: StateMap = NameMap::new();
    map.insert("a".to_string(), true);
    map.insert("c".to_string(), true);
    assert_eq!(map.get(""), None);
    assert_eq!(map.get("b"), None);
    assert_eq!(map.get("d"), None);
    assert_eq!(map.get("aa"), None);
}

#[test]
fn clone_holds_the_same_entries() {
    let mut map: ChangeMap = NameMap::new();
    map.insert("running".to_string(), (false, true));
    map.insert("alarm".to_string(), (true, false));
    let copy = map.clone();
    assert_eq!(copy, map);
    assert_eq!(copy.get("running"), Some(&(false, true)));
    assert_eq!(copy.get("alarm"), Some(&(true, false)));
    assert_eq!(copy.name_at(0), "alarm");
    assert_eq!(copy.name_at(1), "running");
}

#[test]
fn the_empty_name_and_the_star_are_names_like_others() {
    let mut map: StateMap = NameMap::new();
    map.insert("*".to_string(), true);
    map.insert("".to_string(), false);
    assert_eq!(map.get("*"), Some(&true));
    assert_eq!(map.get(""), Some(&false));
    assert_eq!(names_of(&map), vec!["", "*"]);
}
