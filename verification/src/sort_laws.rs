//! What holds of sorting a document after a base.
use vstd::prelude::*;

use crate::laws::lemma_concat_contains;
use crate::shape_laws::lemma_find_same_names;
use crate::tree::{
    KeyPath, TranslationTree, apply_order, apply_order_entries, entries_keys, find, has_leaf, keys,
    lemma_entries_well_formed, lemma_find, merged_order, node_at, well_formed,
};

verus! {

proof fn lemma_filter_contains_iff(s: Seq<Seq<char>>, pred: spec_fn(Seq<char>) -> bool, x: Seq<char>)
    ensures
        s.filter(pred).contains(x) <==> s.contains(x) && pred(x),
{
    broadcast use vstd::seq_lib::group_filter_ensures;

    if s.filter(pred).contains(x) {
        s.lemma_filter_contains_rev(pred, x);
        let i = choose|i: int| 0 <= i < s.filter(pred).len() && s.filter(pred)[i] == x;
        assert(pred(s.filter(pred)[i]));
    }
    if s.contains(x) && pred(x) {
        let i = choose|i: int| 0 <= i < s.len() && s[i] == x;
        s.lemma_filter_contains(pred, i);
    }
}

proof fn lemma_filter_keeps_all(s: Seq<Seq<char>>, pred: spec_fn(Seq<char>) -> bool)
    requires
        forall|i: int| 0 <= i < s.len() ==> pred(#[trigger] s[i]),
    ensures
        s.filter(pred) == s,
    decreases s.len(),
{
    reveal(Seq::filter);
    if s.len() > 0 {
        let d = s.drop_last();
        assert forall|i: int| 0 <= i < d.len() implies pred(#[trigger] d[i]) by {
            assert(d[i] == s[i]);
        }
        lemma_filter_keeps_all(d, pred);
        assert(pred(s[s.len() - 1]));
        assert(d.push(s.last()) =~= s);
    }
}

proof fn lemma_filter_drops_all(s: Seq<Seq<char>>, pred: spec_fn(Seq<char>) -> bool)
    requires
        forall|i: int| 0 <= i < s.len() ==> !pred(#[trigger] s[i]),
    ensures
        s.filter(pred) == Seq::<Seq<char>>::empty(),
    decreases s.len(),
{
    reveal(Seq::filter);
    if s.len() > 0 {
        let d = s.drop_last();
        assert forall|i: int| 0 <= i < d.len() implies !pred(#[trigger] d[i]) by {
            assert(d[i] == s[i]);
        }
        lemma_filter_drops_all(d, pred);
        assert(!pred(s[s.len() - 1]));
    }
}

proof fn lemma_filter_same_pred(s: Seq<Seq<char>>, p1: spec_fn(Seq<char>) -> bool, p2: spec_fn(Seq<char>) -> bool)
    requires
        forall|i: int| 0 <= i < s.len() ==> (p1(#[trigger] s[i]) <==> p2(s[i])),
    ensures
        s.filter(p1) == s.filter(p2),
    decreases s.len(),
{
    reveal(Seq::filter);
    if s.len() > 0 {
        let d = s.drop_last();
        assert forall|i: int| 0 <= i < d.len() implies (p1(#[trigger] d[i]) <==> p2(d[i])) by {
            assert(d[i] == s[i]);
        }
        lemma_filter_same_pred(d, p1, p2);
        assert(p1(s[s.len() - 1]) <==> p2(s[s.len() - 1]));
    }
}

/// Sorting keeps the names of a map: a name stands in the sorted order
/// exactly when it stood in the order before.
pub proof fn law_sort_keeps_names(intended: Seq<Seq<char>>, current: Seq<Seq<char>>)
    ensures
        forall|k: Seq<char>| #[trigger] merged_order(intended, current).contains(k) <==> current.contains(k),
{
    let a = intended.filter(|k: Seq<char>| current.contains(k));
    let b = current.filter(|k: Seq<char>| !intended.contains(k));
    assert forall|k: Seq<char>| #[trigger] merged_order(intended, current).contains(k) <==> current.contains(k) by {
        lemma_concat_contains(a, b, k);
        lemma_filter_contains_iff(intended, |k: Seq<char>| current.contains(k), k);
        lemma_filter_contains_iff(current, |k: Seq<char>| !intended.contains(k), k);
    }
}

/// Sorting puts the names that the base knows first: no name that the base
/// lacks comes before one that it holds.
pub proof fn law_sort_puts_known_names_first(intended: Seq<Seq<char>>, current: Seq<Seq<char>>)
    ensures
        forall|x: int, y: int|
            0 <= x < y < merged_order(intended, current).len() && intended.contains(
                #[trigger] merged_order(intended, current)[y],
            ) ==> intended.contains(#[trigger] merged_order(intended, current)[x]),
{
    broadcast use vstd::seq_lib::group_filter_ensures;

    let pa = |k: Seq<char>| current.contains(k);
    let pb = |k: Seq<char>| !intended.contains(k);
    let a = intended.filter(pa);
    let b = current.filter(pb);
    let m = merged_order(intended, current);
    assert forall|x: int, y: int|
        0 <= x < y < m.len() && intended.contains(#[trigger] m[y]) implies intended.contains(#[trigger] m[x]) by {
        if y >= a.len() {
            assert(m[y] == b[y - a.len()]);
            assert(pb(b[y - a.len()]));
        } else {
            assert(m[x] == a[x]);
            intended.lemma_filter_contains_rev(pa, a[x]);
        }
    }
}

/// A map whose order names exactly what the base's order names gets the
/// base's order.
pub proof fn law_sort_to_same_names(intended: Seq<Seq<char>>, current: Seq<Seq<char>>)
    requires
        forall|k: Seq<char>| #[trigger] intended.contains(k) <==> #[trigger] current.contains(k),
    ensures
        merged_order(intended, current) == intended,
{
    let pa = |k: Seq<char>| current.contains(k);
    let pb = |k: Seq<char>| !intended.contains(k);
    assert forall|i: int| 0 <= i < intended.len() implies pa(#[trigger] intended[i]) by {
        assert(intended.contains(intended[i]));
    }
    lemma_filter_keeps_all(intended, pa);
    assert forall|i: int| 0 <= i < current.len() implies !pb(#[trigger] current[i]) by {
        assert(current.contains(current[i]));
    }
    lemma_filter_drops_all(current, pb);
    assert(intended + Seq::<Seq<char>>::empty() =~= intended);
}

/// Sorting an order that is already sorted after the same base changes
/// nothing.
pub proof fn law_sort_order_is_idempotent(intended: Seq<Seq<char>>, current: Seq<Seq<char>>)
    ensures
        merged_order(intended, merged_order(intended, current)) == merged_order(intended, current),
{
    broadcast use vstd::seq_lib::group_filter_ensures;

    let m = merged_order(intended, current);
    let pa = |k: Seq<char>| current.contains(k);
    let pb = |k: Seq<char>| !intended.contains(k);
    let a = intended.filter(pa);
    let b = current.filter(pb);
    law_sort_keeps_names(intended, current);
    lemma_filter_same_pred(intended, |k: Seq<char>| m.contains(k), pa);
    Seq::filter_distributes_over_add(a, b, pb);
    assert forall|i: int| 0 <= i < a.len() implies !pb(#[trigger] a[i]) by {
        intended.lemma_filter_contains_rev(pa, a[i]);
    }
    lemma_filter_drops_all(a, pb);
    assert forall|i: int| 0 <= i < b.len() implies pb(#[trigger] b[i]) by {
    }
    lemma_filter_keeps_all(b, pb);
    assert(Seq::<Seq<char>>::empty() + b =~= b);
}


/// Entries with the same names and the same key paths, one by one, have the
/// same key paths.
pub(crate) proof fn lemma_entries_keys_pointwise(a: Seq<(Seq<char>, TranslationTree)>, b: Seq<(Seq<char>, TranslationTree)>)
    requires
        a.len() == b.len(),
        forall|i: int| 0 <= i < a.len() ==> #[trigger] a[i].0 == b[i].0 && keys(a[i].1) == keys(b[i].1),
    ensures
        entries_keys(a) == entries_keys(b),
    decreases a.len(),
{
    if a.len() > 0 {
        let (da, db) = (a.drop_last(), b.drop_last());
        assert forall|i: int| 0 <= i < da.len() implies #[trigger] da[i].0 == db[i].0 && keys(da[i].1) == keys(db[i].1) by {
            assert(da[i] == a[i] && db[i] == b[i]);
        }
        lemma_entries_keys_pointwise(da, db);
        assert(a[a.len() - 1].0 == b[b.len() - 1].0);
    }
}

/// The entries that sorting gives keep their names, their key paths and
/// their well-formedness, one by one.
proof fn lemma_sort_entries_keep_structure(
    es: Seq<(Seq<char>, TranslationTree)>,
    other: Seq<(Seq<char>, TranslationTree)>,
)
    ensures
        apply_order_entries(es, other).0.len() == es.len(),
        forall|i: int|
            0 <= i < es.len() ==> #[trigger] apply_order_entries(es, other).0[i].0 == es[i].0 && keys(
                apply_order_entries(es, other).0[i].1,
            ) == keys(es[i].1) && (well_formed(es[i].1) ==> well_formed(
                apply_order_entries(es, other).0[i].1,
            )),
    decreases es, 1int,
{
    if es.len() > 0 {
        let c = match find(other, es[0].0) {
            Some(j) => {
                lemma_find(other, es[0].0);
                law_sort_keeps_structure(es[0].1, other[j].1);
                apply_order(es[0].1, other[j].1).0
            },
            None => es[0].1,
        };
        let r = apply_order_entries(es, other).0;
        let tail = es.drop_first();
        assert(r[0] == (es[0].0, c));
        match apply_order_entries(es, other).1 {
            Err(_) => {
                if r == seq![(es[0].0, c)] + tail {
                    assert forall|i: int| 0 <= i < es.len() implies #[trigger] r[i].0 == es[i].0 && keys(r[i].1) == keys(es[i].1)
                        && (well_formed(es[i].1) ==> well_formed(r[i].1)) by {
                        if i > 0 {
                            assert(r[i] == tail[i - 1]);
                        }
                    }
                } else {
                    lemma_sort_entries_keep_structure(tail, other);
                    let rest = apply_order_entries(tail, other).0;
                    assert(r == seq![(es[0].0, c)] + rest);
                    assert forall|i: int| 0 <= i < es.len() implies #[trigger] r[i].0 == es[i].0 && keys(r[i].1) == keys(es[i].1)
                        && (well_formed(es[i].1) ==> well_formed(r[i].1)) by {
                        if i > 0 {
                            assert(r[i] == rest[i - 1]);
                            assert(tail[i - 1] == es[i]);
                        }
                    }
                }
            },
            Ok(_) => {
                lemma_sort_entries_keep_structure(tail, other);
                let rest = apply_order_entries(tail, other).0;
                assert forall|i: int| 0 <= i < es.len() implies #[trigger] r[i].0 == es[i].0 && keys(r[i].1) == keys(es[i].1)
                    && (well_formed(es[i].1) ==> well_formed(r[i].1)) by {
                    if i > 0 {
                        assert(r[i] == rest[i - 1]);
                        assert(tail[i - 1] == es[i]);
                    }
                }
            },
        }
    }
}

/// Sorting never adds or loses a key path, and keeps a well-formed document
/// well formed: it only reorders names.
pub proof fn law_sort_keeps_structure(t: TranslationTree, other: TranslationTree)
    ensures
        keys(apply_order(t, other).0) == keys(t),
        well_formed(t) ==> well_formed(apply_order(t, other).0),
    decreases t, 0int,
{
    if let TranslationTree::Branch { entries: es, order } = t {
        if let TranslationTree::Branch { entries: oes, order: oorder } = other {
            lemma_sort_entries_keep_structure(es, oes);
            let r = apply_order_entries(es, oes).0;
            lemma_entries_keys_pointwise(r, es);
            if well_formed(t) {
                lemma_entries_well_formed(es);
                lemma_entries_well_formed(r);
                assert forall|i: int, j: int| 0 <= i < r.len() && 0 <= j < r.len() && i != j implies r[i].0 != r[j].0 by {
                    assert(r[i].0 == es[i].0);
                    assert(r[j].0 == es[j].0);
                }
                assert forall|i: int| 0 <= i < r.len() implies #[trigger] well_formed(r[i].1) by {
                    assert(well_formed(es[i].1));
                }
            }
        }
    }
}


/// What sorting does to one entry: it sorts the subtree after the entry of
/// the same name in `other`, when there is one.
pub open spec fn sort_entry(e: (Seq<char>, TranslationTree), other: Seq<(Seq<char>, TranslationTree)>) -> (
    TranslationTree,
    Result<(), Seq<char>>,
) {
    match find(other, e.0) {
        Some(j) => apply_order(e.1, other[j].1),
        None => (e.1, Ok(())),
    }
}

/// Sorting entries succeeds when every entry is sorted with success, and
/// then gives each entry its sorted subtree.
proof fn lemma_sort_entries_ok(es: Seq<(Seq<char>, TranslationTree)>, other: Seq<(Seq<char>, TranslationTree)>)
    requires
        apply_order_entries(es, other).1 is Ok,
    ensures
        apply_order_entries(es, other).0.len() == es.len(),
        forall|i: int|
            0 <= i < es.len() ==> #[trigger] apply_order_entries(es, other).0[i] == (
                es[i].0,
                sort_entry(es[i], other).0,
            ) && sort_entry(es[i], other).1 is Ok,
    decreases es.len(),
{
    if es.len() > 0 {
        let tail = es.drop_first();
        lemma_sort_entries_ok(tail, other);
        let r = apply_order_entries(es, other).0;
        let rest = apply_order_entries(tail, other).0;
        assert forall|i: int| 0 <= i < es.len() implies #[trigger] r[i] == (es[i].0, sort_entry(es[i], other).0)
            && sort_entry(es[i], other).1 is Ok by {
            if i > 0 {
                assert(r[i] == rest[i - 1]);
                assert(tail[i - 1] == es[i]);
            }
        }
    }
}

/// Entries that sorting leaves alone one by one are left alone together.
proof fn lemma_sort_entries_unchanged(es: Seq<(Seq<char>, TranslationTree)>, other: Seq<(Seq<char>, TranslationTree)>)
    requires
        forall|i: int| 0 <= i < es.len() ==> #[trigger] sort_entry(es[i], other) == (es[i].1, Ok::<(), Seq<char>>(())),
    ensures
        apply_order_entries(es, other) == (es, Ok::<(), Seq<char>>(())),
    decreases es.len(),
{
    if es.len() > 0 {
        let tail = es.drop_first();
        assert forall|i: int| 0 <= i < tail.len() implies #[trigger] sort_entry(tail[i], other) == (tail[i].1, Ok::<(), Seq<char>>(())) by {
            assert(tail[i] == es[i + 1]);
        }
        lemma_sort_entries_unchanged(tail, other);
        assert(sort_entry(es[0], other) == (es[0].1, Ok::<(), Seq<char>>(())));
        assert(seq![(es[0].0, es[0].1)] + tail =~= es);
    }
}

/// Sorting a document that was sorted after the same base changes nothing.
pub proof fn law_sort_is_idempotent(t: TranslationTree, other: TranslationTree)
    requires
        apply_order(t, other).1 is Ok,
    ensures
        apply_order(apply_order(t, other).0, other) == (apply_order(t, other).0, Ok::<(), Seq<char>>(())),
    decreases t,
{
    if let TranslationTree::Branch { entries: es, order } = t {
        if let TranslationTree::Branch { entries: oes, order: oorder } = other {
            lemma_sort_entries_ok(es, oes);
            let r = apply_order_entries(es, oes).0;
            assert forall|i: int| 0 <= i < r.len() implies #[trigger] sort_entry(r[i], oes) == (r[i].1, Ok::<(), Seq<char>>(())) by {
                assert(r[i] == (es[i].0, sort_entry(es[i], oes).0));
                if let Some(j) = find(oes, es[i].0) {
                    lemma_find(oes, es[i].0);
                    law_sort_is_idempotent(es[i].1, oes[j].1);
                }
            }
            lemma_sort_entries_unchanged(r, oes);
            law_sort_order_is_idempotent(oorder, order);
        }
    }
}



/// The order of the map that `p` leads to in `t`, if it leads to a map.
pub open spec fn order_at(t: TranslationTree, p: KeyPath) -> Option<Seq<Seq<char>>> {
    match node_at(t, p) {
        Some(TranslationTree::Branch { order, .. }) => Some(order),
        _ => None,
    }
}

/// The names of the entries, in their order.
pub open spec fn entry_names(es: Seq<(Seq<char>, TranslationTree)>) -> Seq<Seq<char>> {
    es.map_values(|e: (Seq<char>, TranslationTree)| e.0)
}

/// `order` names every entry of `es` once, and nothing else.
pub open spec fn order_names_entries(es: Seq<(Seq<char>, TranslationTree)>, order: Seq<Seq<char>>) -> bool {
    &&& order.no_duplicates()
    &&& forall|k: Seq<char>| #[trigger] order.contains(k) <==> entry_names(es).contains(k)
}

/// Every map of `t` has an order that names each of its entries once, as
/// in a document read from a file.
pub open spec fn orders_exact(t: TranslationTree) -> bool {
    forall|p: KeyPath|
        #[trigger] node_at(t, p) matches Some(TranslationTree::Branch { entries, order })
            ==> order_names_entries(entries, order)
}

/// No order of a map of `t` names a name twice.
pub open spec fn orders_distinct(t: TranslationTree) -> bool {
    forall|p: KeyPath| #[trigger] order_at(t, p) matches Some(x) ==> x.no_duplicates()
}

/// `b` is a permutation of `a`: both name the same names, each once.
pub open spec fn is_reordering(a: Seq<Seq<char>>, b: Seq<Seq<char>>) -> bool {
    &&& a.len() == b.len()
    &&& a.no_duplicates()
    &&& b.no_duplicates()
    &&& forall|k: Seq<char>| #[trigger] a.contains(k) <==> #[trigger] b.contains(k)
}

proof fn lemma_filter_distinct(s: Seq<Seq<char>>, pred: spec_fn(Seq<char>) -> bool)
    requires
        s.no_duplicates(),
    ensures
        s.filter(pred).no_duplicates(),
    decreases s.len(),
{
    reveal(Seq::filter);
    if s.len() > 0 {
        let d = s.drop_last();
        assert forall|i: int, j: int| 0 <= i < d.len() && 0 <= j < d.len() && i != j implies d[i] != d[j] by {
            assert(d[i] == s[i] && d[j] == s[j]);
        }
        lemma_filter_distinct(d, pred);
        if pred(s.last()) {
            lemma_filter_contains_iff(d, pred, s.last());
            if d.contains(s.last()) {
                let i = choose|i: int| 0 <= i < d.len() && d[i] == s.last();
                assert(s[i] == s[s.len() - 1]);
            }
            let f = d.filter(pred);
            let g = f.push(s.last());
            assert forall|i: int, j: int| 0 <= i < g.len() && 0 <= j < g.len() && i != j implies g[i] != g[j] by {
                if i == f.len() {
                    assert(f.contains(f[j]));
                } else if j == f.len() {
                    assert(f.contains(f[i]));
                }
            }
        }
    }
}

/// Sorting a duplicate-free order after a duplicate-free order gives a
/// permutation of it.
pub proof fn law_sort_order_is_reordering(intended: Seq<Seq<char>>, current: Seq<Seq<char>>)
    requires
        intended.no_duplicates(),
        current.no_duplicates(),
    ensures
        is_reordering(current, merged_order(intended, current)),
{
    broadcast use vstd::seq_lib::group_filter_ensures;

    let pa = |k: Seq<char>| current.contains(k);
    let pb = |k: Seq<char>| !intended.contains(k);
    let a = intended.filter(pa);
    let b = current.filter(pb);
    let m = merged_order(intended, current);
    law_sort_keeps_names(intended, current);
    lemma_filter_distinct(intended, pa);
    lemma_filter_distinct(current, pb);
    assert forall|i: int, j: int| 0 <= i < a.len() && 0 <= j < b.len() implies a[i] != b[j] by {
        intended.lemma_filter_contains_rev(pa, a[i]);
        assert(pb(b[j]));
    }
    vstd::seq_lib::lemma_no_dup_in_concat(a, b);
    assert(m.to_set() =~= current.to_set());
    m.unique_seq_to_set();
    current.unique_seq_to_set();
}

/// Where a path leads after sorting: nowhere when it led nowhere, to the
/// same value when it led to a value, and to a map with the same names in
/// the same places when it led to a map, whose order is the old one sorted
/// after the order at the same place in `other`, or the old one where
/// `other` has no map there. A sort that succeeds has met no value facing
/// a map.
proof fn lemma_sort_node(t: TranslationTree, other: TranslationTree, p: KeyPath)
    requires
        apply_order(t, other).1 is Ok,
    ensures
        match node_at(t, p) {
            None => node_at(apply_order(t, other).0, p) is None,
            Some(TranslationTree::Leaf { .. }) => node_at(apply_order(t, other).0, p) == node_at(t, p),
            Some(TranslationTree::Branch { entries: e, order: ord }) => node_at(apply_order(t, other).0, p) matches Some(
                TranslationTree::Branch { entries: e2, order: ord2 },
            ) && e2.len() == e.len() && (forall|i: int| 0 <= i < e.len() ==> #[trigger] e2[i].0 == e[i].0)
                && (match order_at(other, p) {
                Some(x) => ord2 == merged_order(x, ord),
                None => ord2 == ord,
            }),
        },
        node_at(t, p) is Some && node_at(other, p) is Some ==> (node_at(t, p)->0 is Leaf <==> node_at(
            other,
            p,
        )->0 is Leaf),
    decreases p.len(),
{
    if let TranslationTree::Branch { entries: es, order } = t {
        if let TranslationTree::Branch { entries: oes, order: oorder } = other {
            lemma_sort_entries_ok(es, oes);
            let r = apply_order_entries(es, oes).0;
            if p.len() > 0 {
                assert forall|i: int| 0 <= i < es.len() implies #[trigger] es[i].0 == r[i].0 by {
                    assert(r[i] == (es[i].0, sort_entry(es[i], oes).0));
                }
                lemma_find_same_names(es, r, p[0]);
                if let Some(i) = find(es, p[0]) {
                    lemma_find(es, p[0]);
                    let tail = p.drop_first();
                    assert(r[i] == (es[i].0, sort_entry(es[i], oes).0));
                    assert(sort_entry(es[i], oes).1 is Ok);
                    if let Some(j) = find(oes, es[i].0) {
                        lemma_sort_node(es[i].1, oes[j].1, tail);
                        assert(order_at(other, p) == order_at(oes[j].1, tail));
                    }
                }
            } else {
                assert forall|i: int| 0 <= i < es.len() implies #[trigger] r[i].0 == es[i].0 by {
                    assert(r[i] == (es[i].0, sort_entry(es[i], oes).0));
                }
            }
        }
    }
}

/// Sorting a well-formed document, whose maps name each entry once in their
/// orders, after a base whose orders name no name twice keeps it so: it
/// leads the same paths to values, leaves every value (its text and its
/// flag) unchanged, and gives every map a permutation of its old order.
pub proof fn law_sort_keeps_values_and_orders(t: TranslationTree, other: TranslationTree)
    requires
        well_formed(t),
        orders_exact(t),
        orders_distinct(other),
        apply_order(t, other).1 is Ok,
    ensures
        well_formed(apply_order(t, other).0),
        orders_exact(apply_order(t, other).0),
        forall|p: KeyPath| #[trigger] has_leaf(apply_order(t, other).0, p) == has_leaf(t, p),
        forall|p: KeyPath| has_leaf(t, p) ==> #[trigger] node_at(apply_order(t, other).0, p) == node_at(t, p),
        forall|p: KeyPath|
            match #[trigger] order_at(t, p) {
                Some(o) => order_at(apply_order(t, other).0, p) matches Some(m) && is_reordering(o, m),
                None => order_at(apply_order(t, other).0, p) is None,
            },
{
    let n = apply_order(t, other).0;
    law_sort_keeps_structure(t, other);
    assert forall|p: KeyPath| #[trigger] has_leaf(n, p) == has_leaf(t, p) by {
        lemma_sort_node(t, other, p);
    }
    assert forall|p: KeyPath| has_leaf(t, p) implies #[trigger] node_at(n, p) == node_at(t, p) by {
        lemma_sort_node(t, other, p);
    }
    assert forall|p: KeyPath|
        match #[trigger] order_at(t, p) {
            Some(o) => order_at(n, p) matches Some(m) && is_reordering(o, m),
            None => order_at(n, p) is None,
        } by {
        lemma_sort_node(t, other, p);
        if let Some(TranslationTree::Branch { entries: e, order: ord }) = node_at(t, p) {
            assert(order_names_entries(e, ord));
            if let Some(TranslationTree::Branch { entries: e2, order: ord2 }) = node_at(n, p) {
                if ord2 == ord {
                } else {
                    if let Some(TranslationTree::Branch { entries: oe, order: x }) = node_at(other, p) {
                        assert(order_at(other, p) == Some(x));
                        law_sort_order_is_reordering(x, ord);
                    }
                }
            }
        }
    }
    assert forall|p: KeyPath|
        (#[trigger] node_at(n, p) matches Some(TranslationTree::Branch { entries, order })
            ==> order_names_entries(entries, order)) by {
        lemma_sort_node(t, other, p);
        if let Some(TranslationTree::Branch { entries: e, order: ord }) = node_at(t, p) {
            assert(order_names_entries(e, ord));
            assert(order_at(t, p) == Some(ord));
            if let Some(TranslationTree::Branch { entries: e2, order: ord2 }) = node_at(n, p) {
                assert(order_at(n, p) == Some(ord2));
                if ord2 == ord {
                } else {
                    if let Some(TranslationTree::Branch { entries: oe, order: x }) = node_at(other, p) {
                        assert(order_at(other, p) == Some(x));
                        law_sort_order_is_reordering(x, ord);
                    }
                }
                assert forall|k: Seq<char>| #[trigger] ord2.contains(k) <==> entry_names(e2).contains(k) by {
                    if entry_names(e).contains(k) {
                        let i = choose|i: int| 0 <= i < entry_names(e).len() && entry_names(e)[i] == k;
                        assert(entry_names(e2)[i] == k);
                    }
                    if entry_names(e2).contains(k) {
                        let i = choose|i: int| 0 <= i < entry_names(e2).len() && entry_names(e2)[i] == k;
                        assert(entry_names(e)[i] == k);
                    }
                    assert(ord.contains(k) <==> entry_names(e).contains(k));
                }
            }
        }
    }
}



/// At `p`, one of `t` and `other` has a value and the other a map.
pub open spec fn diverge_at(t: TranslationTree, other: TranslationTree, p: KeyPath) -> bool {
    &&& node_at(t, p) is Some
    &&& node_at(other, p) is Some
    &&& (node_at(t, p)->0 is Leaf) != (node_at(other, p)->0 is Leaf)
}

proof fn lemma_sort_entries_err(es: Seq<(Seq<char>, TranslationTree)>, other: Seq<(Seq<char>, TranslationTree)>)
    requires
        apply_order_entries(es, other).1 is Err,
    ensures
        exists|i: int| 0 <= i < es.len() && (#[trigger] sort_entry(es[i], other)).1 is Err,
    decreases es.len(),
{
    if sort_entry(es[0], other).1 is Ok {
        let tail = es.drop_first();
        lemma_sort_entries_err(tail, other);
        let i = choose|i: int| 0 <= i < tail.len() && (#[trigger] sort_entry(tail[i], other)).1 is Err;
        assert(tail[i] == es[i + 1]);
    }
}

/// A sort of a well-formed document fails only where a value of one faces a
/// map of the other.
proof fn lemma_sort_err_diverges(t: TranslationTree, other: TranslationTree)
    requires
        well_formed(t),
        apply_order(t, other).1 is Err,
    ensures
        exists|p: KeyPath| #[trigger] diverge_at(t, other, p),
    decreases t,
{
    let empty = Seq::<Seq<char>>::empty();
    match t {
        TranslationTree::Leaf { .. } => {
            assert(diverge_at(t, other, empty));
        },
        TranslationTree::Branch { entries: es, .. } => match other {
            TranslationTree::Leaf { .. } => {
                assert(diverge_at(t, other, empty));
            },
            TranslationTree::Branch { entries: oes, .. } => {
                lemma_sort_entries_err(es, oes);
                let i = choose|i: int| 0 <= i < es.len() && (#[trigger] sort_entry(es[i], oes)).1 is Err;
                let k = es[i].0;
                let j = find(oes, k).unwrap();
                lemma_find(oes, k);
                lemma_find(es, k);
                assert(find(es, k) == Some(i));
                lemma_entries_well_formed(es);
                lemma_sort_err_diverges(es[i].1, oes[j].1);
                let q = choose|q: KeyPath| #[trigger] diverge_at(es[i].1, oes[j].1, q);
                let p = seq![k] + q;
                assert(p[0] == k);
                assert(p.drop_first() =~= q);
                assert(diverge_at(t, other, p));
            },
        },
    }
}

/// Sorting a well-formed document after `other` reaches every depth: it
/// succeeds exactly when no value of one faces a map of the other at any
/// path, and then the map at every path where both have a map gets the
/// order of `other` there (its known names first, in the order of
/// `other`, then the others in their old order), while a map where
/// `other` has none keeps its order.
pub proof fn law_sort_follows_base(t: TranslationTree, other: TranslationTree)
    requires
        well_formed(t),
    ensures
        apply_order(t, other).1 is Ok <==> forall|p: KeyPath| !#[trigger] diverge_at(t, other, p),
        apply_order(t, other).1 is Ok ==> forall|p: KeyPath|
            #![trigger order_at(apply_order(t, other).0, p)]
            order_at(t, p) is Some && order_at(other, p) is Some ==> order_at(apply_order(t, other).0, p)
                == Some(merged_order(order_at(other, p)->0, order_at(t, p)->0)),
        apply_order(t, other).1 is Ok ==> forall|p: KeyPath|
            #![trigger order_at(apply_order(t, other).0, p)]
            order_at(t, p) is Some && order_at(other, p) is None ==> order_at(apply_order(t, other).0, p)
                == order_at(t, p),
{
    let n = apply_order(t, other).0;
    if apply_order(t, other).1 is Ok {
        assert forall|p: KeyPath| !#[trigger] diverge_at(t, other, p) by {
            lemma_sort_node(t, other, p);
        }
        assert forall|p: KeyPath|
            #![trigger order_at(n, p)]
            order_at(t, p) is Some && order_at(other, p) is Some implies order_at(n, p) == Some(
                merged_order(order_at(other, p)->0, order_at(t, p)->0),
            ) by {
            lemma_sort_node(t, other, p);
        }
        assert forall|p: KeyPath|
            #![trigger order_at(n, p)]
            order_at(t, p) is Some && order_at(other, p) is None implies order_at(n, p) == order_at(t, p) by {
            lemma_sort_node(t, other, p);
        }
    } else {
        lemma_sort_err_diverges(t, other);
    }
}


/// Two elements of a filtered sequence stand in the order they stood in
/// before filtering.
proof fn lemma_filter_order(s: Seq<Seq<char>>, pred: spec_fn(Seq<char>) -> bool, x: int, y: int)
    requires
        0 <= x < y < s.filter(pred).len(),
    ensures
        exists|i: int, j: int|
            0 <= i < j < s.len() && s[i] == s.filter(pred)[x] && s[j] == s.filter(pred)[y],
    decreases s.len(),
{
    reveal(Seq::filter);
    let d = s.drop_last();
    let f = d.filter(pred);
    if y < f.len() {
        assert(s.filter(pred)[x] == f[x] && s.filter(pred)[y] == f[y]);
        lemma_filter_order(d, pred, x, y);
        let (i, j) = choose|i: int, j: int| 0 <= i < j < d.len() && d[i] == f[x] && d[j] == f[y];
        assert(s[i] == d[i] && s[j] == d[j]);
    } else {
        assert(s.filter(pred) == f.push(s.last()));
        assert(s.filter(pred)[x] == f[x]);
        assert(f.contains(f[x]));
        lemma_filter_contains_iff(d, pred, f[x]);
        let i = choose|i: int| 0 <= i < d.len() && d[i] == f[x];
        assert(s[i] == d[i]);
        assert(s[s.len() - 1] == s.filter(pred)[y]);
    }
}

/// Sorting keeps the relative order of names: two names the base knows
/// stand in the base's order, and two names it lacks stand in their old
/// order.
pub proof fn law_sort_keeps_relative_orders(intended: Seq<Seq<char>>, current: Seq<Seq<char>>)
    requires
        intended.no_duplicates(),
        current.no_duplicates(),
    ensures
        forall|x: int, y: int, a: int, b: int|
            0 <= x < y < merged_order(intended, current).len() && 0 <= a < intended.len() && 0 <= b
                < intended.len() && #[trigger] intended[a] == #[trigger] merged_order(intended, current)[x]
                && #[trigger] intended[b] == #[trigger] merged_order(intended, current)[y] ==> a < b,
        forall|x: int, y: int, a: int, b: int|
            0 <= x < y < merged_order(intended, current).len() && 0 <= a < current.len() && 0 <= b
                < current.len() && !intended.contains(merged_order(intended, current)[x])
                && !intended.contains(merged_order(intended, current)[y]) && #[trigger] current[a]
                == #[trigger] merged_order(intended, current)[x] && #[trigger] current[b]
                == #[trigger] merged_order(intended, current)[y] ==> a < b,
{
    broadcast use vstd::seq_lib::group_filter_ensures;

    let pa = |k: Seq<char>| current.contains(k);
    let pb = |k: Seq<char>| !intended.contains(k);
    let fa = intended.filter(pa);
    let fb = current.filter(pb);
    let m = merged_order(intended, current);
    assert(m == fa + fb);
    assert forall|x: int, y: int, a: int, b: int|
        0 <= x < y < m.len() && 0 <= a < intended.len() && 0 <= b < intended.len() && #[trigger] intended[a]
            == #[trigger] m[x] && #[trigger] intended[b] == #[trigger] m[y] implies a < b by {
        if y >= fa.len() {
            assert(m[y] == fb[y - fa.len()]);
            assert(pb(fb[y - fa.len()]));
            assert(intended.contains(intended[b]));
        } else {
            assert(m[x] == fa[x] && m[y] == fa[y]);
            lemma_filter_order(intended, pa, x, y);
            let (i, j) = choose|i: int, j: int|
                0 <= i < j < intended.len() && intended[i] == fa[x] && intended[j] == fa[y];
            assert(i == a);
            assert(j == b);
        }
    }
    assert forall|x: int, y: int, a: int, b: int|
        0 <= x < y < m.len() && 0 <= a < current.len() && 0 <= b < current.len() && !intended.contains(m[x])
            && !intended.contains(m[y]) && #[trigger] current[a] == #[trigger] m[x] && #[trigger] current[b]
            == #[trigger] m[y] implies a < b by {
        if x < fa.len() {
            assert(m[x] == fa[x]);
            intended.lemma_filter_contains_rev(pa, fa[x]);
        } else {
            assert(m[x] == fb[x - fa.len()] && m[y] == fb[y - fa.len()]);
            lemma_filter_order(current, pb, x - fa.len(), y - fa.len());
            let (i, j) = choose|i: int, j: int|
                0 <= i < j < current.len() && current[i] == fb[x - fa.len()] && current[j] == fb[y - fa.len()];
            assert(i == a);
            assert(j == b);
        }
    }
}

} // verus!
