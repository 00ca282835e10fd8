use query_trace::{build_trace_comment, extract_sql_comments, url_encode, SqlTrace, SqlTraceComment, TraceParent};
use std::collections::HashMap;

fn pairs(v: &[(&str, &str)]) -> Vec<(String, String)> {
    v.iter().map(|(k, v)| (k.to_string(), v.to_string())).collect()
}

#[test]
fn equal_keys_keep_their_order() {
    let comments = pairs(&[("b", "1"), ("a", "2"), ("b", "0")]);
    assert_eq!(build_trace_comment(&comments, None).unwrap(), "a='2',b='1',b='0'");
}

#[test]
fn keys_sort_by_code_point() {
    let comments = pairs(&[("é", "x"), ("z", "y"), ("Z", "w"), ("", "e")]);
    assert_eq!(build_trace_comment(&comments, None).unwrap(), "='e',Z='w',z='y',é='x'");
}

#[test]
fn prefix_key_sorts_first() {
    let comments = pairs(&[("route2", "b"), ("route", "a")]);
    assert_eq!(build_trace_comment(&comments, None).unwrap(), "route='a',route2='b'");
}

#[test]
fn keys_are_encoded_too() {
    let comments = pairs(&[("a b/c", "%")]);
    assert_eq!(build_trace_comment(&comments, None).unwrap(), "a%20b%2Fc='%25'");
}

#[test]
fn encoding_leaves_other_characters() {
    assert_eq!(url_encode(""), "");
    assert_eq!(url_encode("a=b,c&d?é\"%2F"), "a=b,c&d?é\"%252F");
}

#[test]
fn encoding_has_no_quote_space_or_slash() {
    let e = url_encode("it's a / test ' ");
    assert!(!e.contains('\'') && !e.contains(' ') && !e.contains('/'));
}

#[test]
fn encoding_keeps_strings_apart() {
    // "%20" and " " would collide if '%' were not escaped.
    assert_ne!(url_encode("%20"), url_encode(" "));
    assert_eq!(url_encode("%20"), "%2520");
}

#[test]
fn comment_is_absent_only_without_comments_and_sampled_traceparent() {
    let unsampled = TraceParent::new(7, 8, 0);
    let sampled = TraceParent::new(7, 8, 1);
    assert!(build_trace_comment(&[], Some(unsampled)).is_none());
    assert!(build_trace_comment(&[], Some(sampled)).is_some());
    assert!(build_trace_comment(&pairs(&[("k", "v")]), None).is_some());
}

#[test]
fn unsampled_traceparent_changes_nothing() {
    let comments = pairs(&[("k", "v"), ("a", "b")]);
    assert_eq!(
        build_trace_comment(&comments, Some(TraceParent::new(1, 2, 0x10))),
        build_trace_comment(&comments, None)
    );
}

#[test]
fn comment_does_not_depend_on_map_order() {
    let mut map = HashMap::new();
    for (k, v) in [("route", "/api"), ("controller", "User"), ("action", "list"), ("db", "main")] {
        map.insert(k.to_string(), v.to_string());
    }
    let listed = extract_sql_comments(&Some(map.clone()));
    let mut reversed = listed.clone();
    reversed.reverse();
    let expected = "action='list',controller='User',db='main',route='%2Fapi'";
    assert_eq!(build_trace_comment(&listed, None).unwrap(), expected);
    assert_eq!(build_trace_comment(&reversed, None).unwrap(), expected);
}

#[test]
fn extract_gives_every_entry_once() {
    let mut map = HashMap::new();
    for i in 0..20 {
        map.insert(format!("k{i}"), format!("v{i}"));
    }
    let mut listed = extract_sql_comments(&Some(map));
    listed.sort();
    let mut expected: Vec<(String, String)> = (0..20).map(|i| (format!("k{i}"), format!("v{i}"))).collect();
    expected.sort();
    assert_eq!(listed, expected);
}

#[derive(Debug, PartialEq)]
struct Statement {
    comment: Option<String>,
}

impl SqlTraceComment for Statement {
    fn comment(self, comment: String) -> Self {
        Statement { comment: Some(comment) }
    }
}

#[test]
fn add_trace_id_attaches_the_built_comment() {
    let trace = SqlTrace::new(Some(TraceParent::new(1, 2, 1)), pairs(&[("route", "/x")]));
    let s = Statement { comment: None }.add_trace_id(&trace);
    assert_eq!(
        s.comment.as_deref(),
        Some("route='%2Fx',traceparent='00-00000000000000000000000000000001-0000000000000002-01'")
    );
}

#[test]
fn add_trace_id_leaves_the_statement_without_comment() {
    let trace = SqlTrace::from_traceparent(Some(TraceParent::new(1, 2, 0)));
    let s = Statement { comment: None }.add_trace_id(&trace);
    assert_eq!(s, Statement { comment: None });
}
