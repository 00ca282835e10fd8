//! The trace information that travels with a query down to the SQL layer.
use vstd::prelude::*;

use crate::traceparent::TraceParent;

verus! {

/// The characters of each key and value of a list of comments.
pub open spec fn comments_view(s: Seq<(String, String)>) -> Seq<(Seq<char>, Seq<char>)> {
    s.map_values(|p: (String, String)| (p.0@, p.1@))
}

/// Bundles trace information for SQL query comments: the W3C traceparent and
/// the user-provided SQL comments.
#[derive(Debug, Clone)]
pub struct SqlTrace {
    pub traceparent: Option<TraceParent>,
    pub sql_comments: Vec<(String, String)>,
}

impl SqlTrace {
    pub fn new(traceparent: Option<TraceParent>, sql_comments: Vec<(String, String)>) -> (r: Self)
        ensures
            r.traceparent == traceparent,
            r.sql_comments@ == sql_comments@,
    {
        SqlTrace { traceparent, sql_comments }
    }

    pub fn from_traceparent(traceparent: Option<TraceParent>) -> (r: Self)
        ensures
            r.traceparent == traceparent,
            r.sql_comments@ == Seq::<(String, String)>::empty(),
    {
        SqlTrace { traceparent, sql_comments: Vec::new() }
    }
}

impl Default for SqlTrace {
    fn default() -> (r: Self)
        ensures
            r.traceparent is None,
            r.sql_comments@ == Seq::<(String, String)>::empty(),
    {
        SqlTrace { traceparent: None, sql_comments: Vec::new() }
    }
}

/// A copy of `comments`, pair by pair.
pub(crate) fn clone_comments(comments: &Vec<(String, String)>) -> (r: Vec<(String, String)>)
    ensures
        r@ == comments@,
{
    let mut r: Vec<(String, String)> = Vec::new();
    for i in 0..comments.len()
        invariant
            r@ == comments@.take(i as int),
    {
        let pair = &comments[i];
        r.push((pair.0.clone(), pair.1.clone()));
        proof {
            assert(comments@.take(i + 1) =~= comments@.take(i as int).push(comments@[i as int]));
        }
    }
    proof {
        assert(comments@.take(comments.len() as int) =~= comments@);
    }
    r
}

} // verus!
