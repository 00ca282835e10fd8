use query_trace::{QueryContext, TraceParent};

#[test]
fn test_default_query_context() {
    let ctx = QueryContext::default();
    assert!(ctx.traceparent.is_none());
    assert!(ctx.sql_comments.is_empty());
}

#[test]
fn test_new_with_comments() {
    let comments = vec![("route".to_string(), "/api".to_string())];
    let ctx = QueryContext::new(None, comments.clone());
    assert!(ctx.traceparent.is_none());
    assert_eq!(ctx.sql_comments, comments);
}

#[test]
fn test_with_traceparent() {
    let tp: TraceParent = "00-4bf92f3577b34da6a3ce929d0e0e4736-00f067aa0ba902b7-01"
        .parse()
        .unwrap();
    let ctx = QueryContext::with_traceparent(Some(tp));
    assert_eq!(ctx.traceparent, Some(tp));
    assert!(ctx.sql_comments.is_empty());
}

#[test]
fn test_with_sql_comments() {
    let tp: TraceParent = "00-4bf92f3577b34da6a3ce929d0e0e4736-00f067aa0ba902b7-01"
        .parse()
        .unwrap();
    let ctx = QueryContext::with_traceparent(Some(tp));
    let comments = vec![("key".to_string(), "value".to_string())];
    let ctx2 = ctx.with_sql_comments(comments.clone());
    assert_eq!(ctx2.traceparent, Some(tp));
    assert_eq!(ctx2.sql_comments, comments);
}

#[test]
fn test_sql_trace_conversion() {
    let tp: TraceParent = "00-4bf92f3577b34da6a3ce929d0e0e4736-00f067aa0ba902b7-01"
        .parse()
        .unwrap();
    let comments = vec![("route".to_string(), "/api".to_string())];
    let ctx = QueryContext::new(Some(tp), comments.clone());
    let trace = ctx.sql_trace();
    assert_eq!(trace.traceparent, Some(tp));
    assert_eq!(trace.sql_comments, comments);
}
