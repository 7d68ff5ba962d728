use kirbo::dict::Dict;
use kirbo::sorted::{rank, Rank, SortedMap};

fn chars(s: &str) -> Vec<char> {
    s.chars().collect()
}

#[test]
fn dict_keeps_insertion_order_and_replaces_in_place() {
    let mut dict: Dict<u32> = Dict::new();
    dict.insert("b".to_string(), 1);
    dict.insert("a".to_string(), 2);
    dict.insert("b".to_string(), 3);
    assert_eq!(dict.len(), 2);
    assert_eq!(dict.name_at(0), "b");
    assert_eq!(dict.value_at(0), &3);
    assert_eq!(dict.name_at(1), "a");
    assert_eq!(dict.get("a"), Some(&2));
    assert_eq!(dict.get("b"), Some(&3));
    assert_eq!(dict.get("c"), None);
    assert_eq!(dict.position("a"), Some(1));
    assert_eq!(dict.position(""), None);
    assert_eq!(dict.into_entries(), vec![("b".to_string(), 3), ("a".to_string(), 2)]);
}

#[test]
fn rank_orders_character_by_character() {
    assert_eq!(rank(&chars(""), &chars("")), Rank::Same);
    assert_eq!(rank(&chars(""), &chars("a")), Rank::Before);
    assert_eq!(rank(&chars("a"), &chars("")), Rank::After);
    assert_eq!(rank(&chars("abc"), &chars("abd")), Rank::Before);
    assert_eq!(rank(&chars("abd"), &chars("abc")), Rank::After);
    assert_eq!(rank(&chars("ab"), &chars("abc")), Rank::Before);
    assert_eq!(rank(&chars("abc"), &chars("abc")), Rank::Same);
    assert_eq!(rank(&chars("B"), &chars("a")), Rank::Before);
    assert_eq!(rank(&chars("a10"), &chars("a9")), Rank::Before);
    assert_eq!(rank(&chars("z"), &chars("é")), Rank::Before);
}

#[test]
fn sorted_map_keeps_names_ascending() {
    let mut map: SortedMap<u32> = SortedMap::new();
    for (name, value) in [("m", 1), ("a", 2), ("z", 3), ("b", 4), ("m", 5), ("", 6)] {
        map.insert(name.to_string(), value);
    }
    assert_eq!(map.len(), 5);
    let names: Vec<&str> = (0..map.len()).map(|i| map.name_at(i).as_str()).collect();
    assert_eq!(names, vec!["", "a", "b", "m", "z"]);
    assert_eq!(map.get("m"), Some(&5));
    assert_eq!(map.value_at(3), &5);
    assert_eq!(map.get("c"), None);
    assert_eq!(map.get("zz"), None);
}

#[test]
fn sorted_map_from_entries_wants_strictly_ascending_names() {
    let list = |names: &[&str]| -> Vec<(String, u32)> {
        names.iter().map(|n| (n.to_string(), 0)).collect()
    };
    assert!(SortedMap::from_entries(list(&[])).is_some());
    assert!(SortedMap::from_entries(list(&["a"])).is_some());
    assert!(SortedMap::from_entries(list(&["a", "b", "c"])).is_some());
    assert!(SortedMap::from_entries(list(&["a", "a"])).is_none());
    assert!(SortedMap::from_entries(list(&["a", "c", "b"])).is_none());
    assert!(SortedMap::from_entries(list(&["b", "a"])).is_none());
}
