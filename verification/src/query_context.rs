//! The per-query context: trace information and SQL comments, carried through
//! query execution.
use vstd::prelude::*;

use crate::sql_trace::{clone_comments, SqlTrace};
use crate::traceparent::TraceParent;

verus! {

/// Per-query context carrying trace information and SQL comments.
#[derive(Debug, Clone)]
pub struct QueryContext {
    pub traceparent: Option<TraceParent>,
    pub sql_comments: Vec<(String, String)>,
}

impl QueryContext {
    pub fn new(traceparent: Option<TraceParent>, sql_comments: Vec<(String, String)>) -> (r: Self)
        ensures
            r.traceparent == traceparent,
            r.sql_comments@ == sql_comments@,
    {
        QueryContext { traceparent, sql_comments }
    }

    pub fn with_traceparent(traceparent: Option<TraceParent>) -> (r: Self)
        ensures
            r.traceparent == traceparent,
            r.sql_comments@ == Seq::<(String, String)>::empty(),
    {
        QueryContext { traceparent, sql_comments: Vec::new() }
    }

    /// A context with this context's traceparent and the given comments.
    pub fn with_sql_comments(&self, sql_comments: Vec<(String, String)>) -> (r: Self)
        ensures
            r.traceparent == self.traceparent,
            r.sql_comments@ == sql_comments@,
    {
        QueryContext { traceparent: self.traceparent, sql_comments }
    }

    /// The trace information that the SQL layer needs: the same traceparent and a
    /// copy of the comments.
    pub fn sql_trace(&self) -> (r: SqlTrace)
        ensures
            r.traceparent == self.traceparent,
            r.sql_comments@ == self.sql_comments@,
    {
        SqlTrace::new(self.traceparent, clone_comments(&self.sql_comments))
    }
}

impl Default for QueryContext {
    fn default() -> (r: Self)
        ensures
            r.traceparent is None,
            r.sql_comments@ == Seq::<(String, String)>::empty(),
    {
        QueryContext { traceparent: None, sql_comments: Vec::new() }
    }
}

} // verus!
