//! The selection set of a JSON query: which fields of a record are selected.
use indexmap::IndexMap;
use vstd::prelude::*;

use crate::sql_comment::strings_view;
use crate::traceparent::str_chars;

verus! {

/// `indexmap::IndexMap`, an insertion-ordered hash map; opaque here.
#[verifier::external_type_specification]
#[verifier::external_body]
#[verifier::reject_recursive_types(K)]
#[verifier::reject_recursive_types(V)]
#[verifier::reject_recursive_types(S)]
pub struct ExIndexMap<K, V, S>(IndexMap<K, V, S>);

/// `serde_json::Value`, a JSON value; opaque here, carried through unread.
#[verifier::external_type_specification]
#[verifier::external_body]
pub struct ExJsonValue(serde_json::Value);

/// The arguments and the selection of one field of a query.
pub struct FieldQuery {
    pub arguments: Option<IndexMap<String, serde_json::Value>>,
    pub selection: SelectionSet,
}

/// The selected keys of a record, in the order in which the request gives them,
/// each with what it selects, held in an insertion-ordered map.
#[verifier::external_body]
pub struct SelectionSet {
    map: IndexMap<String, SelectionSetValue>,
}

/// What a key of a selection set selects: `true`/`false`, or a nested query.
pub enum SelectionSetValue {
    Shorthand(bool),
    Nested(FieldQuery),
}

/// The entries of a selection set in their order: the characters of each key with its value.
pub uninterp spec fn selection_entries(s: SelectionSet) -> Seq<(Seq<char>, SelectionSetValue)>;

/// The entries of a map of selections, in their order.
pub uninterp spec fn index_map_selection_entries(m: IndexMap<String, SelectionSetValue>) -> Seq<
    (Seq<char>, SelectionSetValue),
>;

/// Some entry of `s` has the key `k`.
pub open spec fn selection_has_key(s: SelectionSet, k: Seq<char>) -> bool {
    exists|i: int| 0 <= i < selection_entries(s).len() && #[trigger] selection_entries(s)[i].0 == k
}

/// The key that selects all scalar fields.
pub open spec fn all_scalars_key() -> Seq<char> {
    seq!['$', 's', 'c', 'a', 'l', 'a', 'r', 's']
}

/// The key that selects all composite fields.
pub open spec fn all_composites_key() -> Seq<char> {
    seq!['$', 'c', 'o', 'm', 'p', 'o', 's', 'i', 't', 'e', 's']
}

/// The keys, in order, whose value does not select.
pub open spec fn excluded_keys(entries: Seq<(Seq<char>, SelectionSetValue)>) -> Seq<Seq<char>>
    decreases entries.len(),
{
    if entries.len() == 0 {
        Seq::empty()
    } else {
        let rest = excluded_keys(entries.drop_last());
        if entries.last().1.spec_is_selected() {
            rest
        } else {
            rest.push(entries.last().0)
        }
    }
}

/// A nested query always selects, whatever its own selection; a shorthand selects
/// exactly when it is `true`.
pub proof fn lemma_what_selects(q: FieldQuery, b: bool)
    ensures
        SelectionSetValue::Nested(q).spec_is_selected(),
        SelectionSetValue::Shorthand(b).spec_is_selected() == b,
{
}

/// The excluded keys are the keys of exactly those entries whose value is the
/// shorthand `false`, every one of them, at any position, in their order.
pub proof fn lemma_excluded_keys_are_false_shorthands(entries: Seq<(Seq<char>, SelectionSetValue)>)
    ensures
        excluded_keys(entries) == entries.filter(
            |e: (Seq<char>, SelectionSetValue)| e.1 == SelectionSetValue::Shorthand(false),
        ).map_values(|e: (Seq<char>, SelectionSetValue)| e.0),
    decreases entries.len(),
{
    reveal(Seq::filter);
    let pred = |e: (Seq<char>, SelectionSetValue)| e.1 == SelectionSetValue::Shorthand(false);
    let key = |e: (Seq<char>, SelectionSetValue)| e.0;
    if entries.len() > 0 {
        let t = entries.drop_last();
        lemma_excluded_keys_are_false_shorthands(t);
        let f = t.filter(pred);
        if pred(entries.last()) {
            assert(entries.filter(pred) == f.push(entries.last()));
            assert(f.push(entries.last()).map_values(key) =~= f.map_values(key).push(entries.last().0));
        } else {
            assert(entries.filter(pred) == f);
        }
    } else {
        assert(entries.filter(pred).map_values(key) =~= Seq::<Seq<char>>::empty());
    }
}

/// Whether `a` and `b` are the same string, compared character by character.
pub(crate) fn str_eq(a: &str, b: &str) -> (r: bool)
    ensures
        r == (a@ == b@),
{
    let x = str_chars(a);
    let y = str_chars(b);
    if x.len() != y.len() {
        return false;
    }
    let mut i: usize = 0;
    while i < x.len()
        invariant
            x@ == a@,
            y@ == b@,
            x.len() == y.len(),
            i <= x.len(),
            x@.take(i as int) == y@.take(i as int),
        decreases x.len() - i,
    {
        if x[i] != y[i] {
            proof {
                assert(a@[i as int] != b@[i as int]);
            }
            return false;
        }
        proof {
            assert(x@.take(i + 1) =~= x@.take(i as int).push(x@[i as int]));
            assert(y@.take(i + 1) =~= y@.take(i as int).push(y@[i as int]));
        }
        i = i + 1;
    }
    proof {
        assert(x@.take(i as int) =~= x@);
        assert(y@.take(i as int) =~= y@);
    }
    true
}

/// Taking back the map of a selection set made from a map gives the entries of
/// that map: every key with its value, in their order, none added or dropped.
pub proof fn lemma_selection_round_trip(
    m: IndexMap<String, SelectionSetValue>,
    s: SelectionSet,
    back: IndexMap<String, SelectionSetValue>,
)
    requires
        selection_entries(s) == index_map_selection_entries(m),
        index_map_selection_entries(back) == selection_entries(s),
    ensures
        index_map_selection_entries(back) == index_map_selection_entries(m),
{
}

impl SelectionSetValue {
    /// A shorthand selects when it is `true`; a nested query always selects.
    pub open spec fn spec_is_selected(self) -> bool {
        match self {
            SelectionSetValue::Shorthand(b) => b,
            SelectionSetValue::Nested(_) => true,
        }
    }

    pub fn is_selected(&self) -> (r: bool)
        ensures
            r == self.spec_is_selected(),
    {
        match self {
            SelectionSetValue::Shorthand(b) => *b,
            SelectionSetValue::Nested(_) => true,
        }
    }
}

impl SelectionSet {
    /// A selection set with the entries of `selection_set`, in their order.
    #[verifier::external_body]
    pub fn new(selection_set: IndexMap<String, SelectionSetValue>) -> (r: Self)
        ensures
            selection_entries(r) == index_map_selection_entries(selection_set),
    {
        SelectionSet { map: selection_set }
    }

    /// The map of entries, in their order.
    #[verifier::external_body]
    pub fn into_selection(self) -> (r: IndexMap<String, SelectionSetValue>)
        ensures
            index_map_selection_entries(r) == selection_entries(self),
    {
        self.map
    }

    /// The number of entries: `IndexMap::len`.
    #[verifier::external_body]
    fn entry_count(&self) -> (r: usize)
        ensures
            r == selection_entries(*self).len(),
    {
        self.map.len()
    }

    /// The entry at position `i`: `IndexMap::get_index`.
    #[verifier::external_body]
    fn entry_at(&self, i: usize) -> (r: Option<(&String, &SelectionSetValue)>)
        ensures
            r matches Some(p) ==> p.0@ == selection_entries(*self)[i as int].0 && *p.1
                == selection_entries(*self)[i as int].1,
            r is Some <==> selection_entries(*self).len() > i,
    {
        self.map.get_index(i)
    }

    /// Whether some entry has the key `key`: `IndexMap::contains_key`.
    #[verifier::external_body]
    fn has_key(&self, key: &str) -> (r: bool)
        ensures
            r == selection_has_key(*self, key@),
    {
        self.map.contains_key(key)
    }

    /// Whether `key` is the key that selects all scalar fields.
    pub fn is_all_scalars(key: &str) -> (r: bool)
        ensures
            r == (key@ == all_scalars_key()),
    {
        proof {
            reveal_strlit("$scalars");
        }
        let r = str_eq(key, "$scalars");
        assert("$scalars"@ =~= all_scalars_key());
        r
    }

    /// Whether `key` is the key that selects all composite fields.
    pub fn is_all_composites(key: &str) -> (r: bool)
        ensures
            r == (key@ == all_composites_key()),
    {
        proof {
            reveal_strlit("$composites");
        }
        let r = str_eq(key, "$composites");
        assert("$composites"@ =~= all_composites_key());
        r
    }

    /// Whether the selection selects all scalar fields.
    pub fn all_scalars(&self) -> (r: bool)
        ensures
            r == selection_has_key(*self, all_scalars_key()),
    {
        proof {
            reveal_strlit("$scalars");
        }
        let r = self.has_key("$scalars");
        assert("$scalars"@ =~= all_scalars_key());
        r
    }

    /// Whether the selection selects all composite fields.
    pub fn all_composites(&self) -> (r: bool)
        ensures
            r == selection_has_key(*self, all_composites_key()),
    {
        proof {
            reveal_strlit("$composites");
        }
        let r = self.has_key("$composites");
        assert("$composites"@ =~= all_composites_key());
        r
    }

    /// The keys, in order, of the entries that do not select.
    pub fn get_excluded_keys(&self) -> (r: Vec<String>)
        ensures
            strings_view(r@) == excluded_keys(selection_entries(*self)),
    {
        let ghost entries = selection_entries(*self);
        let n: usize = self.entry_count();
        let mut r: Vec<String> = Vec::new();
        for i in 0..n
            invariant
                n == entries.len(),
                entries == selection_entries(*self),
                strings_view(r@) == excluded_keys(entries.take(i as int)),
        {
            proof {
                assert(entries.take(i + 1).drop_last() =~= entries.take(i as int));
            }
            match self.entry_at(i) {
                Some((key, value)) => {
                    if !value.is_selected() {
                        let ghost prev = strings_view(r@);
                        r.push(key.clone());
                        proof {
                            assert(strings_view(r@) =~= prev.push(key@));
                        }
                    }
                },
                None => {},
            }
        }
        proof {
            assert(entries.take(n as int) =~= entries);
        }
        r
    }
}

} // verus!
