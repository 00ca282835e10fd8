use query_trace::{build_trace_comment, url_encode, TraceParent};

#[test]
fn test_url_encoding() {
    assert_eq!(url_encode("hello world"), "hello%20world");
    assert_eq!(url_encode("/api/users"), "%2Fapi%2Fusers");
    assert_eq!(url_encode("it's"), "it%27s");
    assert_eq!(url_encode("100%"), "100%25");
    assert_eq!(url_encode("plain"), "plain");
}

#[test]
fn test_build_trace_comment_with_sql_comments_only() {
    let comments = vec![
        ("route".to_string(), "/api/users".to_string()),
        ("controller".to_string(), "UserController".to_string()),
    ];
    let result = build_trace_comment(&comments, None).unwrap();
    // Keys should be sorted alphabetically
    assert_eq!(result, "controller='UserController',route='%2Fapi%2Fusers'");
}

#[test]
fn test_build_trace_comment_with_traceparent_only() {
    let tp: TraceParent = "00-4bf92f3577b34da6a3ce929d0e0e4736-00f067aa0ba902b7-01"
        .parse()
        .unwrap();
    let result = build_trace_comment(&[], Some(tp)).unwrap();
    assert_eq!(
        result,
        "traceparent='00-4bf92f3577b34da6a3ce929d0e0e4736-00f067aa0ba902b7-01'"
    );
}

#[test]
fn test_build_trace_comment_with_both() {
    let comments = vec![
        ("route".to_string(), "/api/users".to_string()),
        ("controller".to_string(), "UserController".to_string()),
    ];
    let tp: TraceParent = "00-4bf92f3577b34da6a3ce929d0e0e4736-00f067aa0ba902b7-01"
        .parse()
        .unwrap();
    let result = build_trace_comment(&comments, Some(tp)).unwrap();
    // sql_comments first (sorted), then traceparent
    assert_eq!(
        result,
        "controller='UserController',route='%2Fapi%2Fusers',traceparent='00-4bf92f3577b34da6a3ce929d0e0e4736-00f067aa0ba902b7-01'"
    );
}

#[test]
fn test_build_trace_comment_empty_comments_unsampled_traceparent() {
    // traceparent with flags=00 means not sampled
    let tp: TraceParent = "00-4bf92f3577b34da6a3ce929d0e0e4736-00f067aa0ba902b7-00"
        .parse()
        .unwrap();
    let result = build_trace_comment(&[], Some(tp));
    assert!(result.is_none());
}

#[test]
fn test_build_trace_comment_no_comments_no_traceparent() {
    let result = build_trace_comment(&[], None);
    assert!(result.is_none());
}

#[test]
fn test_build_trace_comment_url_encodes_special_chars() {
    let comments = vec![
        ("path".to_string(), "/api/user's data".to_string()),
        ("percent".to_string(), "100% done".to_string()),
    ];
    let result = build_trace_comment(&comments, None).unwrap();
    assert_eq!(
        result,
        "path='%2Fapi%2Fuser%27s%20data',percent='100%25%20done'"
    );
}

#[test]
fn test_build_trace_comment_single_comment() {
    let comments = vec![("route".to_string(), "/test".to_string())];
    let result = build_trace_comment(&comments, None).unwrap();
    assert_eq!(result, "route='%2Ftest'");
}

#[test]
fn test_build_trace_comment_sql_comments_with_unsampled_traceparent() {
    // Even with unsampled traceparent, sql_comments should still appear
    let comments = vec![("route".to_string(), "/api".to_string())];
    let tp: TraceParent = "00-4bf92f3577b34da6a3ce929d0e0e4736-00f067aa0ba902b7-00"
        .parse()
        .unwrap();
    let result = build_trace_comment(&comments, Some(tp)).unwrap();
    assert_eq!(result, "route='%2Fapi'");
}
