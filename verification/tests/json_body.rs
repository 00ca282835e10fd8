use query_trace::extract_sql_comments;
use std::collections::HashMap;

#[test]
fn test_extract_sql_comments_with_values() {
    let mut map = HashMap::new();
    map.insert("route".to_string(), "/api".to_string());
    map.insert("controller".to_string(), "UserCtrl".to_string());
    let result = extract_sql_comments(&Some(map));
    assert_eq!(result.len(), 2);
    assert!(result.contains(&("route".to_string(), "/api".to_string())));
    assert!(result.contains(&("controller".to_string(), "UserCtrl".to_string())));
}

#[test]
fn test_extract_sql_comments_with_none() {
    let result = extract_sql_comments(&None);
    assert!(result.is_empty());
}

#[test]
fn test_extract_sql_comments_with_empty_map() {
    let map = HashMap::new();
    let result = extract_sql_comments(&Some(map));
    assert!(result.is_empty());
}
