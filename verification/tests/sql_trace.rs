use query_trace::{SqlTrace, TraceParent};

#[test]
fn test_default_sql_trace() {
    let trace = SqlTrace::default();
    assert!(trace.traceparent.is_none());
    assert!(trace.sql_comments.is_empty());
}

#[test]
fn test_new_with_traceparent_and_comments() {
    let tp: TraceParent = "00-4bf92f3577b34da6a3ce929d0e0e4736-00f067aa0ba902b7-01"
        .parse()
        .unwrap();
    let comments = vec![("route".to_string(), "/api".to_string())];
    let trace = SqlTrace::new(Some(tp), comments.clone());
    assert_eq!(trace.traceparent, Some(tp));
    assert_eq!(trace.sql_comments, comments);
}

#[test]
fn test_from_traceparent() {
    let tp: TraceParent = "00-4bf92f3577b34da6a3ce929d0e0e4736-00f067aa0ba902b7-01"
        .parse()
        .unwrap();
    let trace = SqlTrace::from_traceparent(Some(tp));
    assert_eq!(trace.traceparent, Some(tp));
    assert!(trace.sql_comments.is_empty());
}

#[test]
fn test_from_traceparent_none() {
    let trace = SqlTrace::from_traceparent(None);
    assert!(trace.traceparent.is_none());
    assert!(trace.sql_comments.is_empty());
}
