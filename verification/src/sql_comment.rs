//! Rendering the trace information of a query as a sqlcommenter comment:
//! `key='value'` pairs sorted by key, URL-encoded, then the sampled traceparent.
use vstd::prelude::*;

use crate::ordering::{lemma_sort_is_permutation, pick, sort_by_key, stable_key_order, Entry};
use crate::sql_trace::{comments_view, SqlTrace};
use crate::traceparent::{
    lemma_parse_renders_back, push_char, spec_parse_traceparent, str_chars, TraceParent,
    TraceParentError,
};

verus! {

/// How one character is written in a comment: space, single quote, slash and
/// percent sign are percent-encoded, every other character stands as it is.
pub open spec fn encode_char(c: char) -> Seq<char> {
    if c == ' ' {
        seq!['%', '2', '0']
    } else if c == '\'' {
        seq!['%', '2', '7']
    } else if c == '/' {
        seq!['%', '2', 'F']
    } else if c == '%' {
        seq!['%', '2', '5']
    } else {
        seq![c]
    }
}

/// `s` with each character written as `encode_char` says.
pub open spec fn spec_url_encode(s: Seq<char>) -> Seq<char>
    decreases s.len(),
{
    if s.len() == 0 {
        Seq::empty()
    } else {
        spec_url_encode(s.drop_last()) + encode_char(s.last())
    }
}

/// The character that a percent escape `%2<d>` stands for in `spec_url_encode`.
pub open spec fn escaped_char(d: char) -> char {
    if d == '0' {
        ' '
    } else if d == '7' {
        '\''
    } else if d == 'F' {
        '/'
    } else {
        '%'
    }
}

/// Percent-decoding of the four escapes that `spec_url_encode` writes.
pub open spec fn spec_url_decode(t: Seq<char>) -> Seq<char>
    decreases t.len(),
{
    if t.len() == 0 {
        Seq::empty()
    } else if t.len() >= 3 && t[0] == '%' && t[1] == '2' && (t[2] == '0' || t[2] == '7' || t[2]
        == 'F' || t[2] == '5') {
        seq![escaped_char(t[2])] + spec_url_decode(t.skip(3))
    } else {
        seq![t[0]] + spec_url_decode(t.drop_first())
    }
}

proof fn lemma_url_encode_concat(a: Seq<char>, b: Seq<char>)
    ensures
        spec_url_encode(a + b) == spec_url_encode(a) + spec_url_encode(b),
    decreases b.len(),
{
    if b.len() == 0 {
        assert(a + b =~= a);
        assert(spec_url_encode(a) + spec_url_encode(b) =~= spec_url_encode(a));
    } else {
        lemma_url_encode_concat(a, b.drop_last());
        assert((a + b).drop_last() =~= a + b.drop_last());
        assert(spec_url_encode(a + b) =~= spec_url_encode(a) + spec_url_encode(b));
    }
}

/// Decoding an encoded string gives the string back.
pub proof fn lemma_url_decode_encode(s: Seq<char>)
    ensures
        spec_url_decode(spec_url_encode(s)) == s,
    decreases s.len(),
{
    if s.len() > 0 {
        let c = s[0];
        let rest = s.drop_first();
        lemma_url_decode_encode(rest);
        lemma_url_encode_concat(seq![c], rest);
        assert(seq![c] + rest =~= s);
        assert(seq![c].drop_last() =~= Seq::<char>::empty());
        assert(seq![c].last() == c);
        assert(spec_url_encode(Seq::<char>::empty()) == Seq::<char>::empty());
        assert(spec_url_encode(seq![c]) == spec_url_encode(seq![c].drop_last()) + encode_char(c));
        assert(spec_url_encode(seq![c]) =~= encode_char(c));
        let t = encode_char(c) + spec_url_encode(rest);
        if c == ' ' || c == '\'' || c == '/' || c == '%' {
            assert(t.skip(3) =~= spec_url_encode(rest));
        } else {
            assert(t.drop_first() =~= spec_url_encode(rest));
        }
        assert(spec_url_decode(t) =~= s);
    }
}

/// Distinct strings have distinct encodings.
pub proof fn lemma_url_encode_injective(a: Seq<char>, b: Seq<char>)
    requires
        spec_url_encode(a) == spec_url_encode(b),
    ensures
        a == b,
{
    lemma_url_decode_encode(a);
    lemma_url_decode_encode(b);
}

/// An encoded string holds no space, single quote or slash, so a value written
/// between single quotes cannot end early.
pub proof fn lemma_url_encode_has_no_quote(s: Seq<char>)
    ensures
        forall|i: int|
            0 <= i < spec_url_encode(s).len() ==> {
                let c = #[trigger] spec_url_encode(s)[i];
                c != '\'' && c != ' ' && c != '/'
            },
    decreases s.len(),
{
    if s.len() > 0 {
        lemma_url_encode_has_no_quote(s.drop_last());
        let head = spec_url_encode(s.drop_last());
        let e = spec_url_encode(s);
        assert forall|i: int| 0 <= i < e.len() implies {
            let c = #[trigger] e[i];
            c != '\'' && c != ' ' && c != '/'
        } by {
            if i < head.len() {
                assert(e[i] == head[i]);
            }
        }
    }
}

/// `key='value'`, both encoded.
pub open spec fn comment_entry(e: Entry) -> Seq<char> {
    spec_url_encode(e.0) + seq!['=', '\''] + spec_url_encode(e.1) + seq!['\'']
}

/// `traceparent='<header>'`.
pub open spec fn traceparent_entry(tp: TraceParent) -> Seq<char> {
    seq!['t', 'r', 'a', 'c', 'e', 'p', 'a', 'r', 'e', 'n', 't', '=', '\''] + tp.w3c() + seq!['\'']
}

/// The parts of the comment: the pairs sorted by key, then the traceparent if it is sampled.
pub open spec fn comment_parts(comments: Seq<Entry>, traceparent: Option<TraceParent>) -> Seq<Seq<char>> {
    sort_by_key(comments).map_values(|e: Entry| comment_entry(e)) + match traceparent {
        Some(tp) => if tp.is_sampled() {
            seq![traceparent_entry(tp)]
        } else {
            Seq::empty()
        },
        None => Seq::empty(),
    }
}

/// The parts separated by commas.
pub open spec fn join_commas(parts: Seq<Seq<char>>) -> Seq<char>
    decreases parts.len(),
{
    if parts.len() == 0 {
        Seq::empty()
    } else if parts.len() == 1 {
        parts[0]
    } else {
        join_commas(parts.drop_last()) + seq![','] + parts.last()
    }
}

/// The comment for a query, or `None` when it would have no part.
pub open spec fn spec_trace_comment(comments: Seq<Entry>, traceparent: Option<TraceParent>) -> Option<Seq<char>> {
    let parts = comment_parts(comments, traceparent);
    if parts.len() == 0 {
        None
    } else {
        Some(join_commas(parts))
    }
}

/// There is no comment exactly when there are no SQL comments and the traceparent
/// is missing or not sampled.
pub proof fn lemma_no_comment_iff(comments: Seq<Entry>, traceparent: Option<TraceParent>)
    ensures
        spec_trace_comment(comments, traceparent) is None <==> comments.len() == 0 && !(
        traceparent matches Some(tp) && tp.is_sampled()),
{
    lemma_sort_is_permutation(comments);
    comments.to_multiset_ensures();
    sort_by_key(comments).to_multiset_ensures();
}

/// A traceparent that is not sampled adds nothing to the comment.
pub proof fn lemma_unsampled_traceparent_ignored(comments: Seq<Entry>, tp: TraceParent)
    requires
        !tp.is_sampled(),
    ensures
        spec_trace_comment(comments, Some(tp)) == spec_trace_comment(comments, None),
{
    assert(comment_parts(comments, Some(tp)) =~= comment_parts(comments, None));
}

/// One part alone is the comment itself.
pub proof fn lemma_join_single(p: Seq<char>)
    ensures
        join_commas(seq![p]) == p,
{
}

/// Joining two non-empty lists of parts is joining each and putting exactly one
/// comma between them.
pub proof fn lemma_join_commas_concat(a: Seq<Seq<char>>, b: Seq<Seq<char>>)
    requires
        a.len() > 0,
        b.len() > 0,
    ensures
        join_commas(a + b) == join_commas(a) + seq![','] + join_commas(b),
    decreases b.len(),
{
    if b.len() == 1 {
        assert((a + b).drop_last() =~= a);
        assert((a + b).last() == b[0]);
    } else {
        lemma_join_commas_concat(a, b.drop_last());
        assert((a + b).drop_last() =~= a + b.drop_last());
        assert((a + b).last() == b.last());
        assert(join_commas(a + b) =~= join_commas(a) + seq![','] + join_commas(b));
    }
}

/// The traceparent part quotes the header text of the traceparent itself: after
/// `traceparent='` come the 55 characters of the header, then `'`, and parsing
/// those characters gives back the same traceparent, all flag bits included.
pub proof fn lemma_traceparent_entry_quotes_header(tp: TraceParent)
    ensures
        traceparent_entry(tp).len() == 69,
        traceparent_entry(tp).take(13) == seq![
            't',
            'r',
            'a',
            'c',
            'e',
            'p',
            'a',
            'r',
            'e',
            'n',
            't',
            '=',
            '\'',
        ],
        traceparent_entry(tp)[68] == '\'',
        spec_parse_traceparent(traceparent_entry(tp).subrange(13, 68)) == Ok::<
            TraceParent,
            TraceParentError,
        >(tp),
{
    lemma_parse_renders_back(tp);
    let e = traceparent_entry(tp);
    assert(e.subrange(13, 68) =~= tp.w3c());
    assert(e.take(13) =~= seq!['t', 'r', 'a', 'c', 'e', 'p', 'a', 'r', 'e', 'n', 't', '=', '\'']);
}

/// A sampled traceparent adds its part after what the SQL comments alone give,
/// separated by one comma, or is the whole comment when there are none.
pub proof fn lemma_sampled_traceparent_comes_last(comments: Seq<Entry>, tp: TraceParent)
    requires
        tp.is_sampled(),
    ensures
        spec_trace_comment(comments, Some(tp)) == match spec_trace_comment(comments, None) {
            None => Some(traceparent_entry(tp)),
            Some(s) => Some(s + seq![','] + traceparent_entry(tp)),
        },
{
    let body = comment_parts(comments, None);
    assert(comment_parts(comments, Some(tp)) =~= body + seq![traceparent_entry(tp)]);
    assert(body =~= sort_by_key(comments).map_values(|e: Entry| comment_entry(e)));
    if body.len() == 0 {
        assert(body + seq![traceparent_entry(tp)] =~= seq![traceparent_entry(tp)]);
    } else {
        lemma_join_commas_concat(body, seq![traceparent_entry(tp)]);
    }
}

/// The characters of an optional string.
pub open spec fn option_chars(s: Option<String>) -> Option<Seq<char>> {
    match s {
        Some(s) => Some(s@),
        None => None,
    }
}

/// The characters of each string.
pub open spec fn strings_view(v: Seq<String>) -> Seq<Seq<char>> {
    v.map_values(|s: String| s@)
}

/// Percent-encodes the characters of `s` that would break a quoted comment value.
pub fn url_encode(s: &str) -> (r: String)
    ensures
        r@ == spec_url_encode(s@),
{
    let chars = str_chars(s);
    let mut result = String::new();
    for i in 0..chars.len()
        invariant
            chars@ == s@,
            result@ == spec_url_encode(s@.take(i as int)),
    {
        let c = chars[i];
        let ghost done = s@.take(i as int);
        if c == ' ' {
            push_char(&mut result, '%');
            push_char(&mut result, '2');
            push_char(&mut result, '0');
        } else if c == '\'' {
            push_char(&mut result, '%');
            push_char(&mut result, '2');
            push_char(&mut result, '7');
        } else if c == '/' {
            push_char(&mut result, '%');
            push_char(&mut result, '2');
            push_char(&mut result, 'F');
        } else if c == '%' {
            push_char(&mut result, '%');
            push_char(&mut result, '2');
            push_char(&mut result, '5');
        } else {
            push_char(&mut result, c);
        }
        proof {
            assert(s@.take(i + 1).drop_last() =~= done);
            assert(result@ =~= spec_url_encode(done) + encode_char(c));
        }
    }
    proof {
        assert(s@.take(chars.len() as int) =~= s@);
    }
    result
}

fn comment_entry_string(key: &str, value: &str) -> (r: String)
    ensures
        r@ == comment_entry((key@, value@)),
{
    let mut out = url_encode(key);
    push_char(&mut out, '=');
    push_char(&mut out, '\'');
    let encoded = url_encode(value);
    out.append(encoded.as_str());
    push_char(&mut out, '\'');
    assert(out@ =~= comment_entry((key@, value@)));
    out
}

fn traceparent_entry_string(tp: &TraceParent) -> (r: String)
    ensures
        r@ == traceparent_entry(*tp),
{
    let mut out = String::new();
    proof {
        reveal_strlit("traceparent='");
    }
    out.append("traceparent='");
    let header = tp.to_string();
    out.append(header.as_str());
    push_char(&mut out, '\'');
    assert(out@ =~= traceparent_entry(*tp));
    out
}

fn join_with_commas(parts: &Vec<String>) -> (r: String)
    ensures
        r@ == join_commas(strings_view(parts@)),
{
    let mut out = String::new();
    let ghost all = strings_view(parts@);
    for i in 0..parts.len()
        invariant
            all == strings_view(parts@),
            out@ == join_commas(all.take(i as int)),
    {
        if i > 0 {
            push_char(&mut out, ',');
        }
        out.append(parts[i].as_str());
        proof {
            assert(all.take(i + 1).drop_last() =~= all.take(i as int));
            if i == 0 {
                assert(out@ =~= all.take(1)[0]);
            }
        }
    }
    proof {
        assert(all.take(parts.len() as int) =~= all);
    }
    out
}

/// Builds the sqlcommenter comment from the SQL comments and an optional traceparent.
/// Keys are sorted (stably) in the order of `str`, keys and values are URL-encoded and
/// values single-quoted; a sampled traceparent comes last. `None` when there are no
/// comments and no sampled traceparent.
pub fn build_trace_comment(sql_comments: &[(String, String)], traceparent: Option<TraceParent>) -> (r: Option<String>)
    ensures
        option_chars(r) == spec_trace_comment(comments_view(sql_comments@), traceparent),
{
    let ghost entries = comments_view(sql_comments@);
    let n: usize = sql_comments.len();
    let mut keys: Vec<Vec<char>> = Vec::new();
    for i in 0..n
        invariant
            n == sql_comments@.len(),
            entries == comments_view(sql_comments@),
            keys.len() == i,
            forall|k: int| 0 <= k < i ==> (#[trigger] keys[k])@ == entries[k].0,
    {
        keys.push(str_chars(sql_comments[i].0.as_str()));
    }
    let order = stable_key_order(&keys, Ghost(entries));
    let ghost sorted = sort_by_key(entries);
    proof {
        assert(sorted.len() == n) by {
            assert(pick(entries, order@).len() == n);
        }
    }
    let mut parts: Vec<String> = Vec::new();
    for k in 0..n
        invariant
            n == sql_comments@.len(),
            entries == comments_view(sql_comments@),
            order.len() == n,
            forall|i: int| 0 <= i < order.len() ==> (#[trigger] order[i]) < n,
            pick(entries, order@) == sorted,
            sorted.len() == n,
            parts.len() == k,
            strings_view(parts@) == sorted.take(k as int).map_values(|e: Entry| comment_entry(e)),
    {
        let idx: usize = order[k];
        let pair = &sql_comments[idx];
        let part = comment_entry_string(pair.0.as_str(), pair.1.as_str());
        let ghost prev = strings_view(parts@);
        let ghost part_view = part@;
        parts.push(part);
        proof {
            assert(strings_view(parts@) =~= prev.push(part_view));
            assert(sorted.take(k + 1).map_values(|e: Entry| comment_entry(e)) =~= sorted.take(
                k as int,
            ).map_values(|e: Entry| comment_entry(e)).push(comment_entry(sorted[k as int])));
            assert(sorted[k as int] == entries[idx as int]);
            assert(entries[idx as int] == (pair.0@, pair.1@));
            assert(strings_view(parts@) =~= sorted.take(k + 1).map_values(|e: Entry| comment_entry(e)));
        }
    }
    proof {
        assert(sorted.take(n as int) =~= sorted);
    }
    let ghost body = strings_view(parts@);
    if let Some(tp) = traceparent {
        if tp.sampled() {
            parts.push(traceparent_entry_string(&tp));
            proof {
                assert(strings_view(parts@) =~= body.push(traceparent_entry(tp)));
            }
        }
    }
    proof {
        assert(strings_view(parts@) =~= comment_parts(entries, traceparent));
    }
    if parts.len() == 0 {
        None
    } else {
        Some(join_with_commas(&parts))
    }
}

/// A statement that can carry a sqlcommenter comment.
pub trait SqlTraceComment: Sized {
    /// This statement with `comment` attached.
    fn comment(self, comment: String) -> Self;

    /// Attaches the comment built from `trace`, if `build_trace_comment` gives one:
    /// the statement unchanged when there is none, else what `comment` returns for it.
    fn add_trace_id(self, trace: &SqlTrace) -> (r: Self)
        ensures
            match spec_trace_comment(comments_view(trace.sql_comments@), trace.traceparent) {
                None => r == self,
                Some(c) => exists|s: String| s@ == c && call_ensures(Self::comment, (self, s), r),
            },
    {
        match build_trace_comment(trace.sql_comments.as_slice(), trace.traceparent) {
            Some(comment) => self.comment(comment),
            None => self,
        }
    }
}

} // verus!
