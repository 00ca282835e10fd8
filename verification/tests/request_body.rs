use indexmap::IndexMap;
use query_trace::{
    sql_comments_of, FieldQuery, JsonBatchQuery, JsonBody, JsonSingleQuery, SelectionSet,
};
use std::collections::HashMap;

fn query(model: Option<&str>, comments: Option<&[(&str, &str)]>) -> JsonSingleQuery {
    JsonSingleQuery {
        model_name: model.map(|m| m.to_string()),
        action: "findMany".to_string(),
        query: FieldQuery { arguments: None, selection: SelectionSet::new(IndexMap::new()) },
        sql_comments: comments.map(|c| {
            c.iter().map(|(k, v)| (k.to_string(), v.to_string())).collect::<HashMap<_, _>>()
        }),
    }
}

#[test]
fn single_query_gives_one_list() {
    let body = JsonBody::Single(query(Some("User"), Some(&[("route", "/api/users"), ("controller", "UserController")])));
    let r = sql_comments_of(&body);
    assert_eq!(r.len(), 1);
    let mut c = r[0].clone();
    c.sort();
    assert_eq!(
        c,
        vec![
            ("controller".to_string(), "UserController".to_string()),
            ("route".to_string(), "/api/users".to_string())
        ]
    );
}

#[test]
fn single_query_without_comments_gives_one_empty_list() {
    let r = sql_comments_of(&JsonBody::Single(query(Some("User"), None)));
    assert_eq!(r, vec![Vec::<(String, String)>::new()]);
}

#[test]
fn batch_gives_one_list_per_query_in_order() {
    let body = JsonBody::Batch(JsonBatchQuery {
        batch: vec![
            query(Some("User"), Some(&[("route", "/api/users")])),
            query(Some("Post"), None),
            query(Some("Post"), Some(&[("route", "/api/posts")])),
        ],
        transaction: None,
    });
    let r = sql_comments_of(&body);
    assert_eq!(
        r,
        vec![
            vec![("route".to_string(), "/api/users".to_string())],
            vec![],
            vec![("route".to_string(), "/api/posts".to_string())],
        ]
    );
}

#[test]
fn empty_batch_gives_no_list() {
    let body = JsonBody::Batch(JsonBatchQuery { batch: vec![], transaction: None });
    assert!(sql_comments_of(&body).is_empty());
}

#[test]
fn query_getters() {
    let q = query(Some("User"), None);
    assert_eq!(q.model(), Some(&"User".to_string()));
    assert_eq!(q.action(), "findMany");
    assert_eq!(query(None, None).model(), None);
}
