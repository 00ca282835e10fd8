//! Trace context and SQL comment construction for database queries.
//!
//! A query carries an optional W3C `traceparent` and a list of user-provided
//! key/value comments.  Before a statement is sent to the database, both are
//! rendered into a single sqlcommenter-style comment.
pub mod json_body;
pub mod ordering;
pub mod query_context;
pub mod selection;
pub mod sql_comment;
pub mod sql_trace;
pub mod traceparent;

pub use json_body::{
    extract_sql_comments, sql_comments_of, BatchTransactionOption, JsonBatchQuery, JsonBody,
    JsonSingleQuery, SqlCommentsVec,
};
pub use query_context::QueryContext;
pub use selection::{FieldQuery, SelectionSet, SelectionSetValue};
pub use sql_comment::{build_trace_comment, url_encode, SqlTraceComment};
pub use sql_trace::SqlTrace;
pub use traceparent::{TraceParent, TraceParentError};
