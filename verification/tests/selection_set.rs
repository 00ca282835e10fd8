use indexmap::IndexMap;
use query_trace::{FieldQuery, SelectionSet, SelectionSetValue};

fn sample() -> SelectionSet {
    let mut map = IndexMap::new();
    map.insert("$scalars".to_string(), SelectionSetValue::Shorthand(true));
    map.insert("posts".to_string(), SelectionSetValue::Shorthand(false));
    map.insert(
        "author".to_string(),
        SelectionSetValue::Nested(FieldQuery { arguments: None, selection: SelectionSet::new(IndexMap::new()) }),
    );
    map.insert("tags".to_string(), SelectionSetValue::Shorthand(false));
    SelectionSet::new(map)
}

#[test]
fn excluded_keys_are_the_false_shorthands_in_order() {
    assert_eq!(sample().get_excluded_keys(), vec!["posts".to_string(), "tags".to_string()]);
}

#[test]
fn nothing_excluded_from_an_empty_selection() {
    assert!(SelectionSet::new(IndexMap::new()).get_excluded_keys().is_empty());
}

#[test]
fn all_scalars_and_composites() {
    let s = sample();
    assert!(s.all_scalars());
    assert!(!s.all_composites());
    let mut map = IndexMap::new();
    map.insert("$composites".to_string(), SelectionSetValue::Shorthand(true));
    let c = SelectionSet::new(map);
    assert!(c.all_composites());
    assert!(!c.all_scalars());
}

#[test]
fn special_keys() {
    assert!(SelectionSet::is_all_scalars("$scalars"));
    assert!(!SelectionSet::is_all_scalars("$scalar"));
    assert!(!SelectionSet::is_all_scalars("$composites"));
    assert!(SelectionSet::is_all_composites("$composites"));
    assert!(!SelectionSet::is_all_composites("composites"));
}

#[test]
fn is_selected() {
    assert!(SelectionSetValue::Shorthand(true).is_selected());
    assert!(!SelectionSetValue::Shorthand(false).is_selected());
    let nested = SelectionSetValue::Nested(FieldQuery { arguments: None, selection: SelectionSet::new(IndexMap::new()) });
    assert!(nested.is_selected());
}

#[test]
fn into_selection_gives_the_entries_back_in_order() {
    let keys: Vec<String> = sample().into_selection().into_keys().collect();
    assert_eq!(keys, vec!["$scalars", "posts", "author", "tags"]);
}

#[test]
fn special_keys_compare_whole_strings() {
    assert!(!SelectionSet::is_all_scalars(""));
    assert!(!SelectionSet::is_all_scalars("$scalarsX"));
    assert!(!SelectionSet::is_all_scalars("$scalarś"));
    assert!(!SelectionSet::is_all_composites("$Composites"));
}
