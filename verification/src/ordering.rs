//! Ordering comment keys: the lexicographic order of strings, and a stable
//! insertion sort of key/value pairs by key.
use vstd::prelude::*;

verus! {

/// A key/value pair, as the characters of both strings.
pub type Entry = (Seq<char>, Seq<char>);

/// `a` comes before `b` or equals it in the lexicographic order of characters
/// (the order of `str`, since UTF-8 preserves the order of code points).
pub open spec fn key_le(a: Seq<char>, b: Seq<char>) -> bool
    decreases a.len(),
{
    if a.len() == 0 {
        true
    } else if b.len() == 0 {
        false
    } else if a[0] != b[0] {
        a[0] < b[0]
    } else {
        key_le(a.drop_first(), b.drop_first())
    }
}

/// Inserts `x` into `s` right after the last entry, counted from the end, whose key
/// is not greater than the key of `x`.
pub open spec fn insert_by_key(s: Seq<Entry>, x: Entry) -> Seq<Entry>
    decreases s.len(),
{
    if s.len() == 0 {
        seq![x]
    } else if key_le(s.last().0, x.0) {
        s.push(x)
    } else {
        insert_by_key(s.drop_last(), x).push(s.last())
    }
}

/// `s` sorted by key, entries with equal keys kept in their order (a stable sort).
pub open spec fn sort_by_key(s: Seq<Entry>) -> Seq<Entry>
    decreases s.len(),
{
    if s.len() == 0 {
        s
    } else {
        insert_by_key(sort_by_key(s.drop_last()), s.last())
    }
}

/// Every entry's key is not greater than the key of any entry after it.
pub open spec fn sorted_by_key(s: Seq<Entry>) -> bool {
    forall|i: int, j: int| 0 <= i < j < s.len() ==> key_le(#[trigger] s[i].0, #[trigger] s[j].0)
}

/// The entries of `s` whose key is `k`, in their order.
pub open spec fn with_key(s: Seq<Entry>, k: Seq<char>) -> Seq<Entry> {
    s.filter(|e: Entry| e.0 == k)
}

pub proof fn lemma_key_le_reflexive(a: Seq<char>)
    ensures
        key_le(a, a),
    decreases a.len(),
{
    if a.len() > 0 {
        lemma_key_le_reflexive(a.drop_first());
    }
}

pub proof fn lemma_key_le_total(a: Seq<char>, b: Seq<char>)
    ensures
        key_le(a, b) || key_le(b, a),
    decreases a.len(),
{
    if a.len() > 0 && b.len() > 0 && a[0] == b[0] {
        lemma_key_le_total(a.drop_first(), b.drop_first());
    }
}

pub proof fn lemma_key_le_antisymmetric(a: Seq<char>, b: Seq<char>)
    requires
        key_le(a, b),
        key_le(b, a),
    ensures
        a == b,
    decreases a.len(),
{
    if a.len() > 0 && b.len() > 0 {
        lemma_key_le_antisymmetric(a.drop_first(), b.drop_first());
        assert(a =~= seq![a[0]] + a.drop_first());
        assert(b =~= seq![b[0]] + b.drop_first());
    } else {
        assert(a =~= b);
    }
}

pub proof fn lemma_key_le_transitive(a: Seq<char>, b: Seq<char>, c: Seq<char>)
    requires
        key_le(a, b),
        key_le(b, c),
    ensures
        key_le(a, c),
    decreases a.len(),
{
    if a.len() > 0 && b.len() > 0 && c.len() > 0 && a[0] == b[0] && b[0] == c[0] {
        lemma_key_le_transitive(a.drop_first(), b.drop_first(), c.drop_first());
    }
}

/// `a` is a prefix of `b`, or at the first position where they differ the
/// character of `a` has the smaller code point.
pub open spec fn lexicographic_le(a: Seq<char>, b: Seq<char>) -> bool {
    ||| (a.len() <= b.len() && b.take(a.len() as int) == a)
    ||| exists|i: int|
        0 <= i < a.len() && i < b.len() && #[trigger] a.take(i) == b.take(i) && a[i] < b[i]
}

/// The key order is the lexicographic order of code points (the order of `str`):
/// `a` comes first when it is a prefix of `b` or has the smaller character at the
/// first position where the two differ.
pub proof fn lemma_key_le_is_lexicographic(a: Seq<char>, b: Seq<char>)
    ensures
        key_le(a, b) <==> lexicographic_le(a, b),
    decreases a.len(),
{
    if a.len() == 0 {
        assert(b.take(0) =~= a);
    } else if b.len() == 0 {
    } else if a[0] != b[0] {
        if key_le(a, b) {
            assert(a.take(0) =~= b.take(0));
        }
        if lexicographic_le(a, b) {
            if a.len() <= b.len() && b.take(a.len() as int) == a {
                assert(b.take(a.len() as int)[0] == b[0]);
            } else {
                let i = choose|i: int|
                    0 <= i < a.len() && i < b.len() && #[trigger] a.take(i) == b.take(i) && a[i] < b[i];
                if i > 0 {
                    assert(a.take(i)[0] == b.take(i)[0]);
                }
            }
        }
    } else {
        let a1 = a.drop_first();
        let b1 = b.drop_first();
        lemma_key_le_is_lexicographic(a1, b1);
        if lexicographic_le(a1, b1) {
            if a1.len() <= b1.len() && b1.take(a1.len() as int) == a1 {
                assert(b.take(a.len() as int) =~= seq![b[0]] + b1.take(a1.len() as int));
                assert(a =~= seq![a[0]] + a1);
            } else {
                let i = choose|i: int|
                    0 <= i < a1.len() && i < b1.len() && #[trigger] a1.take(i) == b1.take(i) && a1[i] < b1[i];
                assert(a.take(i + 1) =~= seq![a[0]] + a1.take(i));
                assert(b.take(i + 1) =~= seq![b[0]] + b1.take(i));
                assert(a.take(i + 1) == b.take(i + 1));
            }
        }
        if lexicographic_le(a, b) {
            if a.len() <= b.len() && b.take(a.len() as int) == a {
                assert(b1.take(a1.len() as int) =~= b.take(a.len() as int).drop_first());
                assert(a1 =~= a.drop_first());
            } else {
                let i = choose|i: int|
                    0 <= i < a.len() && i < b.len() && #[trigger] a.take(i) == b.take(i) && a[i] < b[i];
                assert(i > 0);
                assert(a1.take(i - 1) =~= a.take(i).drop_first());
                assert(b1.take(i - 1) =~= b.take(i).drop_first());
                assert(a1[i - 1] == a[i] && b1[i - 1] == b[i]);
                assert(a1.take(i - 1) == b1.take(i - 1));
            }
        }
    }
}

/// Every entry of `s` has a key not greater than `k`.
spec fn keys_at_most(s: Seq<Entry>, k: Seq<char>) -> bool {
    forall|i: int| 0 <= i < s.len() ==> key_le(#[trigger] s[i].0, k)
}

proof fn lemma_insert_keys_at_most(s: Seq<Entry>, x: Entry, k: Seq<char>)
    requires
        keys_at_most(s, k),
        key_le(x.0, k),
    ensures
        keys_at_most(insert_by_key(s, x), k),
    decreases s.len(),
{
    if s.len() > 0 && !key_le(s.last().0, x.0) {
        lemma_insert_keys_at_most(s.drop_last(), x, k);
    }
}

proof fn lemma_insert_sorted(s: Seq<Entry>, x: Entry)
    requires
        sorted_by_key(s),
    ensures
        sorted_by_key(insert_by_key(s, x)),
    decreases s.len(),
{
    if s.len() > 0 {
        let last = s.last();
        let r = insert_by_key(s, x);
        if key_le(last.0, x.0) {
            assert forall|i: int, j: int| 0 <= i < j < r.len() implies key_le(
                #[trigger] r[i].0,
                #[trigger] r[j].0,
            ) by {
                if j == s.len() {
                    if i < s.len() - 1 {
                        lemma_key_le_transitive(s[i].0, last.0, x.0);
                    }
                }
            }
        } else {
            let t = s.drop_last();
            lemma_insert_sorted(t, x);
            lemma_key_le_total(last.0, x.0);
            assert forall|i: int| 0 <= i < t.len() implies key_le(#[trigger] t[i].0, last.0) by {
                assert(s[i] == t[i]);
            }
            lemma_insert_keys_at_most(t, x, last.0);
            let u = insert_by_key(t, x);
            assert forall|i: int, j: int| 0 <= i < j < r.len() implies key_le(
                #[trigger] r[i].0,
                #[trigger] r[j].0,
            ) by {
                if j < u.len() {
                    assert(r[i] == u[i] && r[j] == u[j]);
                } else {
                    assert(r[i] == u[i]);
                }
            }
        }
    }
}

proof fn lemma_insert_multiset(s: Seq<Entry>, x: Entry)
    ensures
        insert_by_key(s, x).to_multiset() == s.to_multiset().insert(x),
    decreases s.len(),
{
    s.to_multiset_ensures();
    if s.len() == 0 {
        assert(seq![x] =~= s.push(x));
        assert(s.push(x).to_multiset() == s.to_multiset().insert(x));
    } else if key_le(s.last().0, x.0) {
        assert(s.push(x).to_multiset() == s.to_multiset().insert(x));
    } else {
        let t = s.drop_last();
        let last = s.last();
        let u = insert_by_key(t, x);
        lemma_insert_multiset(t, x);
        t.to_multiset_ensures();
        u.to_multiset_ensures();
        assert(s =~= t.push(last));
        assert(t.push(last).to_multiset() == t.to_multiset().insert(last));
        assert(u.push(last).to_multiset() == u.to_multiset().insert(last));
        assert(u.to_multiset().insert(last) =~= t.to_multiset().insert(last).insert(x));
    }
}

proof fn lemma_insert_with_key(s: Seq<Entry>, x: Entry, k: Seq<char>)
    ensures
        with_key(insert_by_key(s, x), k) == if x.0 == k {
            with_key(s, k).push(x)
        } else {
            with_key(s, k)
        },
    decreases s.len(),
{
    reveal(Seq::filter);
    let pred = |e: Entry| e.0 == k;
    if s.len() == 0 {
        assert(seq![x].drop_last() =~= s);
    } else if key_le(s.last().0, x.0) {
        assert(s.push(x).drop_last() =~= s);
    } else {
        let t = s.drop_last();
        let last = s.last();
        lemma_insert_with_key(t, x, k);
        lemma_key_le_reflexive(x.0);
        let u = insert_by_key(t, x);
        assert(u.push(last).drop_last() =~= u);
        assert(s.drop_last() =~= t);
    }
}

/// The sort puts the keys in order.
pub proof fn lemma_sort_is_sorted(s: Seq<Entry>)
    ensures
        sorted_by_key(sort_by_key(s)),
    decreases s.len(),
{
    if s.len() > 0 {
        lemma_sort_is_sorted(s.drop_last());
        lemma_insert_sorted(sort_by_key(s.drop_last()), s.last());
    }
}

/// The sort keeps every entry, as often as it occurs, and adds none.
pub proof fn lemma_sort_is_permutation(s: Seq<Entry>)
    ensures
        sort_by_key(s).to_multiset() == s.to_multiset(),
    decreases s.len(),
{
    if s.len() > 0 {
        let t = s.drop_last();
        lemma_sort_is_permutation(t);
        lemma_insert_multiset(sort_by_key(t), s.last());
        t.to_multiset_ensures();
        assert(s =~= t.push(s.last()));
        assert(t.push(s.last()).to_multiset() == t.to_multiset().insert(s.last()));
    }
}

/// The sort is stable: the entries of any one key keep their relative order.
pub proof fn lemma_sort_is_stable(s: Seq<Entry>, k: Seq<char>)
    ensures
        with_key(sort_by_key(s), k) == with_key(s, k),
    decreases s.len(),
{
    reveal(Seq::filter);
    if s.len() > 0 {
        lemma_sort_is_stable(s.drop_last(), k);
        lemma_insert_with_key(sort_by_key(s.drop_last()), s.last(), k);
    }
}

/// No two entries of `s` have the same key.
pub open spec fn distinct_keys(s: Seq<Entry>) -> bool {
    forall|i: int, j: int| 0 <= i < j < s.len() ==> (#[trigger] s[i]).0 != (#[trigger] s[j]).0
}

/// `a` and `b` hold the same entries, each found in the other.
pub open spec fn same_entries(a: Seq<Entry>, b: Seq<Entry>) -> bool {
    &&& forall|i: int| 0 <= i < a.len() ==> b.contains(#[trigger] a[i])
    &&& forall|j: int| 0 <= j < b.len() ==> a.contains(#[trigger] b[j])
}

/// Every entry of the inserted sequence is `x` or an entry of `s`.
proof fn lemma_insert_members(s: Seq<Entry>, x: Entry, i: int)
    requires
        0 <= i < insert_by_key(s, x).len(),
    ensures
        insert_by_key(s, x)[i] == x || s.contains(insert_by_key(s, x)[i]),
{
    let r = insert_by_key(s, x);
    let y = r[i];
    lemma_insert_multiset(s, x);
    r.to_multiset_ensures();
    s.to_multiset_ensures();
    assert(r.contains(y));
    assert(r.to_multiset().count(y) > 0);
    if y != x {
        assert(s.to_multiset().count(y) > 0);
    }
}

/// Every entry of the sorted sequence is an entry of `s`.
proof fn lemma_sort_members(s: Seq<Entry>, i: int)
    requires
        0 <= i < sort_by_key(s).len(),
    ensures
        s.contains(sort_by_key(s)[i]),
{
    let r = sort_by_key(s);
    lemma_sort_is_permutation(s);
    r.to_multiset_ensures();
    s.to_multiset_ensures();
    assert(r.contains(r[i]));
    assert(r.to_multiset().count(r[i]) > 0);
    assert(s.to_multiset().count(r[i]) > 0);
}

proof fn lemma_insert_distinct(s: Seq<Entry>, x: Entry)
    requires
        distinct_keys(s),
        forall|i: int| 0 <= i < s.len() ==> (#[trigger] s[i]).0 != x.0,
    ensures
        distinct_keys(insert_by_key(s, x)),
    decreases s.len(),
{
    if s.len() > 0 && !key_le(s.last().0, x.0) {
        let t = s.drop_last();
        let last = s.last();
        assert forall|i: int| 0 <= i < t.len() implies (#[trigger] t[i]).0 != x.0 by {
            assert(t[i] == s[i]);
        }
        lemma_insert_distinct(t, x);
        let u = insert_by_key(t, x);
        let r = insert_by_key(s, x);
        assert forall|i: int, j: int| 0 <= i < j < r.len() implies (#[trigger] r[i]).0 != (
        #[trigger] r[j]).0 by {
            if j == u.len() {
                lemma_insert_members(t, x, i);
                assert(r[i] == u[i]);
                if u[i] != x {
                    let k = choose|k: int| 0 <= k < t.len() && t[k] == u[i];
                    assert(s[k] == t[k]);
                    assert(s[s.len() - 1] == last);
                }
            } else {
                assert(r[i] == u[i] && r[j] == u[j]);
            }
        }
    }
}

/// Sorting keeps keys distinct.
proof fn lemma_sort_distinct(s: Seq<Entry>)
    requires
        distinct_keys(s),
    ensures
        distinct_keys(sort_by_key(s)),
    decreases s.len(),
{
    if s.len() > 0 {
        let t = s.drop_last();
        let last = s.last();
        assert(distinct_keys(t)) by {
            assert forall|i: int, j: int| 0 <= i < j < t.len() implies (#[trigger] t[i]).0 != (
            #[trigger] t[j]).0 by {
                assert(t[i] == s[i] && t[j] == s[j]);
            }
        }
        lemma_sort_distinct(t);
        let u = sort_by_key(t);
        assert forall|i: int| 0 <= i < u.len() implies (#[trigger] u[i]).0 != last.0 by {
            lemma_sort_members(t, i);
            let k = choose|k: int| 0 <= k < t.len() && t[k] == u[i];
            assert(s[k] == t[k]);
            assert(s[s.len() - 1] == last);
        }
        lemma_insert_distinct(u, last);
    }
}

/// Two sorted sequences with distinct keys and the same entries are equal.
proof fn lemma_sorted_unique(a: Seq<Entry>, b: Seq<Entry>)
    requires
        sorted_by_key(a),
        sorted_by_key(b),
        distinct_keys(a),
        distinct_keys(b),
        same_entries(a, b),
    ensures
        a == b,
    decreases a.len(),
{
    if a.len() == 0 {
        if b.len() > 0 {
            assert(a.contains(b[0]));
        }
        assert(a =~= b);
    } else if b.len() == 0 {
        assert(b.contains(a[0]));
    } else {
        let la = a.last();
        let lb = b.last();
        let n: int = a.len() - 1;
        let m: int = b.len() - 1;
        assert(b.contains(a[n]));
        let j = choose|j: int| 0 <= j < b.len() && b[j] == la;
        if j < m {
            assert(key_le(b[j].0, b[m].0));
        } else {
            lemma_key_le_reflexive(la.0);
        }
        assert(a.contains(b[m]));
        let i = choose|i: int| 0 <= i < a.len() && a[i] == lb;
        if i < n {
            assert(key_le(a[i].0, a[n].0));
        } else {
            lemma_key_le_reflexive(lb.0);
        }
        lemma_key_le_antisymmetric(la.0, lb.0);
        assert(i == n);
        let a1 = a.drop_last();
        let b1 = b.drop_last();
        assert forall|p: int| 0 <= p < a1.len() implies b1.contains(#[trigger] a1[p]) by {
            assert(a1[p] == a[p]);
            assert(b.contains(a[p]));
            let q = choose|q: int| 0 <= q < b.len() && b[q] == a[p];
            assert(q != m);
            assert(b1[q] == b[q]);
        }
        assert forall|q: int| 0 <= q < b1.len() implies a1.contains(#[trigger] b1[q]) by {
            assert(b1[q] == b[q]);
            assert(a.contains(b[q]));
            let p = choose|p: int| 0 <= p < a.len() && a[p] == b[q];
            assert(p != n);
            assert(a1[p] == a[p]);
        }
        assert(sorted_by_key(a1)) by {
            assert forall|x: int, y: int| 0 <= x < y < a1.len() implies key_le(
                #[trigger] a1[x].0,
                #[trigger] a1[y].0,
            ) by {
                assert(a1[x] == a[x] && a1[y] == a[y]);
            }
        }
        assert(sorted_by_key(b1)) by {
            assert forall|x: int, y: int| 0 <= x < y < b1.len() implies key_le(
                #[trigger] b1[x].0,
                #[trigger] b1[y].0,
            ) by {
                assert(b1[x] == b[x] && b1[y] == b[y]);
            }
        }
        assert(distinct_keys(a1)) by {
            assert forall|x: int, y: int| 0 <= x < y < a1.len() implies (#[trigger] a1[x]).0 != (
            #[trigger] a1[y]).0 by {
                assert(a1[x] == a[x] && a1[y] == a[y]);
            }
        }
        assert(distinct_keys(b1)) by {
            assert forall|x: int, y: int| 0 <= x < y < b1.len() implies (#[trigger] b1[x]).0 != (
            #[trigger] b1[y]).0 by {
                assert(b1[x] == b[x] && b1[y] == b[y]);
            }
        }
        lemma_sorted_unique(a1, b1);
        assert(a =~= a1.push(la));
        assert(b =~= b1.push(lb));
    }
}

/// When no key occurs twice, the sort depends only on which entries there are,
/// not on the order in which they come.
pub proof fn lemma_sort_ignores_order(a: Seq<Entry>, b: Seq<Entry>)
    requires
        distinct_keys(a),
        distinct_keys(b),
        same_entries(a, b),
    ensures
        sort_by_key(a) == sort_by_key(b),
{
    let sa = sort_by_key(a);
    let sb = sort_by_key(b);
    lemma_sort_is_sorted(a);
    lemma_sort_is_sorted(b);
    lemma_sort_distinct(a);
    lemma_sort_distinct(b);
    lemma_sort_is_permutation(a);
    lemma_sort_is_permutation(b);
    a.to_multiset_ensures();
    b.to_multiset_ensures();
    sa.to_multiset_ensures();
    sb.to_multiset_ensures();
    assert forall|i: int| 0 <= i < sa.len() implies sb.contains(#[trigger] sa[i]) by {
        lemma_sort_members(a, i);
        let k = choose|k: int| 0 <= k < a.len() && a[k] == sa[i];
        assert(b.contains(a[k]));
        assert(b.to_multiset().count(a[k]) > 0);
        assert(sb.to_multiset().count(a[k]) > 0);
    }
    assert forall|j: int| 0 <= j < sb.len() implies sa.contains(#[trigger] sb[j]) by {
        lemma_sort_members(b, j);
        let k = choose|k: int| 0 <= k < b.len() && b[k] == sb[j];
        assert(a.contains(b[k]));
        assert(a.to_multiset().count(b[k]) > 0);
        assert(sa.to_multiset().count(b[k]) > 0);
    }
    lemma_sorted_unique(sa, sb);
}

/// Whether `a` comes before `b` or equals it, in the order of `key_le`.
pub fn chars_le(a: &Vec<char>, b: &Vec<char>) -> (r: bool)
    ensures
        r == key_le(a@, b@),
        r == lexicographic_le(a@, b@),
{
    proof {
        lemma_key_le_is_lexicographic(a@, b@);
    }
    let mut i: usize = 0;
    proof {
        assert(a@.skip(0) =~= a@);
        assert(b@.skip(0) =~= b@);
    }
    while i < a.len() && i < b.len()
        invariant
            i <= a.len(),
            i <= b.len(),
            key_le(a@, b@) == key_le(a@.skip(i as int), b@.skip(i as int)),
            key_le(a@, b@) == lexicographic_le(a@, b@),
        decreases a.len() - i,
    {
        if a[i] != b[i] {
            return a[i] < b[i];
        }
        proof {
            assert(a@.skip(i as int).drop_first() =~= a@.skip(i + 1));
            assert(b@.skip(i as int).drop_first() =~= b@.skip(i + 1));
        }
        i = i + 1;
    }
    i == a.len()
}

/// The entries that the positions in `order` pick from `entries`.
pub open spec fn pick(entries: Seq<Entry>, order: Seq<usize>) -> Seq<Entry> {
    order.map_values(|i: usize| entries[i as int])
}

/// The positions `0..keys.len()` in the order in which a stable sort by key puts them.
pub(crate) fn stable_key_order(keys: &Vec<Vec<char>>, Ghost(entries): Ghost<Seq<Entry>>) -> (order: Vec<usize>)
    requires
        keys.len() == entries.len(),
        forall|i: int| 0 <= i < keys.len() ==> (#[trigger] keys[i])@ == entries[i].0,
    ensures
        order.len() == keys.len(),
        forall|i: int| 0 <= i < order.len() ==> (#[trigger] order[i]) < keys.len(),
        pick(entries, order@) == sort_by_key(entries),
{
    let mut order: Vec<usize> = Vec::new();
    let mut j: usize = 0;
    proof {
        assert(entries.take(0) =~= Seq::<Entry>::empty());
        assert(pick(entries, order@) =~= Seq::<Entry>::empty());
    }
    while j < keys.len()
        invariant
            j <= keys.len(),
            keys.len() == entries.len(),
            forall|i: int| 0 <= i < keys.len() ==> (#[trigger] keys[i])@ == entries[i].0,
            order.len() == j,
            forall|i: int| 0 <= i < order.len() ==> (#[trigger] order[i]) < j,
            pick(entries, order@) == sort_by_key(entries.take(j as int)),
        decreases keys.len() - j,
    {
        let ghost m = pick(entries, order@);
        let ghost x = entries[j as int];
        let mut pos: usize = order.len();
        proof {
            assert(m.take(pos as int) =~= m);
            assert(m.skip(pos as int) =~= Seq::<Entry>::empty());
            assert(insert_by_key(m, x) =~= insert_by_key(m.take(pos as int), x) + m.skip(pos as int));
        }
        while pos > 0 && !chars_le(&keys[order[pos - 1]], &keys[j])
            invariant
                pos <= order.len(),
                order.len() == j,
                j < keys.len(),
                keys.len() == entries.len(),
                forall|i: int| 0 <= i < keys.len() ==> (#[trigger] keys[i])@ == entries[i].0,
                forall|i: int| 0 <= i < order.len() ==> (#[trigger] order[i]) < j,
                m == pick(entries, order@),
                x == entries[j as int],
                insert_by_key(m, x) == insert_by_key(m.take(pos as int), x) + m.skip(pos as int),
            decreases pos,
        {
            proof {
                let p: int = pos as int;
                let t = m.take(p);
                assert(t.last() == m[p - 1]);
                assert(t.drop_last() =~= m.take(p - 1));
                assert(insert_by_key(t, x) == insert_by_key(m.take(p - 1), x).push(m[p - 1]));
                assert(insert_by_key(m.take(p - 1), x).push(m[p - 1]) + m.skip(p)
                    =~= insert_by_key(m.take(p - 1), x) + m.skip(p - 1));
            }
            pos = pos - 1;
        }
        proof {
            let p: int = pos as int;
            if p == 0 {
                assert(m.take(0) =~= Seq::<Entry>::empty());
                assert(insert_by_key(m.take(0), x) =~= seq![x]);
            } else {
                assert(m.take(p).last() == m[p - 1]);
            }
            assert(insert_by_key(m.take(p), x) == m.take(p).push(x));
        }
        order.insert(pos, j);
        proof {
            let p: int = pos as int;
            assert(pick(entries, order@) =~= m.take(p).push(x) + m.skip(p));
            assert(entries.take(j + 1).drop_last() =~= entries.take(j as int));
            assert(entries.take(j + 1).last() == x);
        }
        j = j + 1;
    }
    proof {
        assert(entries.take(j as int) =~= entries);
    }
    order
}

} // verus!
