//! A JSON query request: a single query or a batch, each query with its model,
//! action, field query and optional SQL comments.
use std::collections::HashMap;
use vstd::prelude::*;

use crate::selection::FieldQuery;
use crate::ordering::{distinct_keys, lemma_sort_ignores_order, same_entries};
use crate::sql_comment::spec_trace_comment;
use crate::sql_trace::comments_view;
use crate::traceparent::TraceParent;

verus! {

/// SQL comments of each query in a request, one list per query.
pub type SqlCommentsVec = Vec<Vec<(String, String)>>;

/// The transaction options of a batch request.
pub struct BatchTransactionOption {
    pub isolation_level: Option<String>,
}

/// One query of a request. The action is kept as the text the request gives
/// (such as `findMany`).
pub struct JsonSingleQuery {
    pub model_name: Option<String>,
    pub action: String,
    pub query: FieldQuery,
    pub sql_comments: Option<HashMap<String, String>>,
}

/// A batch of queries, with optional transaction options.
pub struct JsonBatchQuery {
    pub batch: Vec<JsonSingleQuery>,
    pub transaction: Option<BatchTransactionOption>,
}

/// A request: one query or a batch.
pub enum JsonBody {
    Single(JsonSingleQuery),
    Batch(JsonBatchQuery),
}

impl JsonSingleQuery {
    /// The action of the query.
    pub fn action(&self) -> (r: &String)
        ensures
            *r == self.action,
    {
        &self.action
    }

    /// The model the query is about, if it names one.
    pub fn model(&self) -> (r: Option<&String>)
        ensures
            r is None <==> self.model_name is None,
            r matches Some(name) ==> self.model_name == Some(*name),
    {
        match &self.model_name {
            Some(name) => Some(name),
            None => None,
        }
    }
}

/// `pairs` lists the entries of `m`: as many pairs as `m` has keys, each pair a key
/// of `m` with its value, no key twice, and every key of `m` among them.
pub open spec fn lists_entries(pairs: Seq<(String, String)>, m: Map<String, String>) -> bool {
    &&& pairs.len() == m.len()
    &&& forall|i: int|
        0 <= i < pairs.len() ==> m.contains_key(#[trigger] pairs[i].0) && m[pairs[i].0] == pairs[i].1
    &&& forall|i: int, j: int|
        0 <= i < j < pairs.len() ==> (#[trigger] pairs[i].0)@ != (#[trigger] pairs[j].0)@
    &&& forall|k: String| #[trigger]
        m.contains_key(k) ==> exists|i: int| 0 <= i < pairs.len() && pairs[i].0 == k
}

/// The entries of `m` in the order in which `HashMap::iter` visits them.
/// The order rests on the map's hasher and is not stated; what is stated is that
/// each entry comes once, and that the count is the map's length.
#[verifier::external_body]
fn hash_map_entries(m: &HashMap<String, String>) -> (r: Vec<(&String, &String)>)
    ensures
        r.len() == m@.len(),
        forall|i: int|
            0 <= i < r.len() ==> m@.contains_key(*(#[trigger] r[i]).0) && m@[*r[i].0] == *r[i].1,
        forall|i: int, j: int| 0 <= i < j < r.len() ==> (#[trigger] r[i]).0@ != (#[trigger] r[j]).0@,
        forall|k: String| #[trigger]
            m@.contains_key(k) ==> exists|i: int| 0 <= i < r.len() && *r[i].0 == k,
{
    m.iter().collect()
}

/// The SQL comments of a query as key/value pairs; none when the query has none.
pub fn extract_sql_comments(comments: &Option<HashMap<String, String>>) -> (r: Vec<(String, String)>)
    ensures
        comments is None ==> r@.len() == 0,
        comments matches Some(m) ==> lists_entries(r@, m@),
{
    match comments {
        None => Vec::new(),
        Some(m) => {
            let entries = hash_map_entries(m);
            let mut r: Vec<(String, String)> = Vec::new();
            for i in 0..entries.len()
                invariant
                    r.len() == i,
                    forall|k: int| 0 <= k < i ==> (#[trigger] r[k]).0 == *entries[k].0 && r[k].1 == *entries[k].1,
            {
                let (k, v) = entries[i];
                r.push((k.clone(), v.clone()));
            }
            proof {
                assert forall|k: String| #[trigger] m@.contains_key(k) implies exists|i: int|
                    0 <= i < r.len() && r[i].0 == k by {
                    let i = choose|i: int| 0 <= i < entries.len() && *entries[i].0 == k;
                    assert(r[i].0 == k);
                }
            }
            r
        },
    }
}

/// The comment built from the SQL comments of a query does not depend on the order in
/// which their map was walked: any two listings of one map's entries give the same comment.
pub proof fn lemma_comment_ignores_map_order(
    a: Seq<(String, String)>,
    b: Seq<(String, String)>,
    m: Map<String, String>,
    traceparent: Option<TraceParent>,
)
    requires
        lists_entries(a, m),
        lists_entries(b, m),
    ensures
        spec_trace_comment(comments_view(a), traceparent) == spec_trace_comment(
            comments_view(b),
            traceparent,
        ),
{
    let ea = comments_view(a);
    let eb = comments_view(b);
    assert(distinct_keys(ea)) by {
        assert forall|i: int, j: int| 0 <= i < j < ea.len() implies (#[trigger] ea[i]).0 != (
        #[trigger] ea[j]).0 by {
            assert(a[i].0@ != a[j].0@);
        }
    }
    assert(distinct_keys(eb)) by {
        assert forall|i: int, j: int| 0 <= i < j < eb.len() implies (#[trigger] eb[i]).0 != (
        #[trigger] eb[j]).0 by {
            assert(b[i].0@ != b[j].0@);
        }
    }
    assert forall|i: int| 0 <= i < ea.len() implies eb.contains(#[trigger] ea[i]) by {
        assert(m.contains_key(a[i].0));
        let j = choose|j: int| 0 <= j < b.len() && b[j].0 == a[i].0;
        assert(m.contains_key(b[j].0));
        assert(eb[j] == ea[i]);
    }
    assert forall|j: int| 0 <= j < eb.len() implies ea.contains(#[trigger] eb[j]) by {
        assert(m.contains_key(b[j].0));
        let i = choose|i: int| 0 <= i < a.len() && a[i].0 == b[j].0;
        assert(m.contains_key(a[i].0));
        assert(ea[i] == eb[j]);
    }
    assert(same_entries(ea, eb));
    lemma_sort_ignores_order(ea, eb);
}

/// `c` is the comment list of query `q`: empty when the query has no comments,
/// else the entries of its comment map.
pub open spec fn comments_of(q: JsonSingleQuery, c: Seq<(String, String)>) -> bool {
    &&& q.sql_comments is None ==> c.len() == 0
    &&& q.sql_comments matches Some(m) ==> lists_entries(c, m@)
}

/// The SQL comments of each query of a request, one list per query in the
/// order of the queries: one list for a single query, one per query of a batch.
pub fn sql_comments_of(body: &JsonBody) -> (r: SqlCommentsVec)
    ensures
        body matches JsonBody::Single(q) ==> r.len() == 1 && comments_of(*q, r[0]@),
        body matches JsonBody::Batch(b) ==> r.len() == b.batch.len() && forall|i: int|
            0 <= i < r.len() ==> comments_of(#[trigger] b.batch[i], r[i]@),
{
    match body {
        JsonBody::Single(q) => {
            let mut r: SqlCommentsVec = Vec::new();
            r.push(extract_sql_comments(&q.sql_comments));
            r
        },
        JsonBody::Batch(b) => {
            let mut r: SqlCommentsVec = Vec::new();
            for i in 0..b.batch.len()
                invariant
                    r.len() == i,
                    forall|k: int| 0 <= k < i ==> comments_of(#[trigger] b.batch[k], r[k]@),
            {
                r.push(extract_sql_comments(&b.batch[i].sql_comments));
            }
            r
        },
    }
}

} // verus!
