//! What holds of validating with order a translation that has the shape of
//! its base.
use vstd::prelude::*;

use crate::laws::{
    law_keys_are_leaf_paths, law_ordered_keys_name_the_keys, law_visit_all_keeps_structure,
    lemma_concat_contains, lemma_strict_visit_all_is_visit_all, lemma_visit_all_reaches,
};
use crate::sort_laws::lemma_entries_keys_pointwise;
use crate::tree::{
    OrderedPath, TranslationTree, entries_ordered_keys, find, first_index, has_leaf, keys,
    lemma_entries_orders_cover, lemma_entries_well_formed, lemma_find, lemma_first_index,
    ordered_keys, orders_cover, position, prefixed_ordered, visit_all, visit_ordered,
    visit_ordered_all, well_formed,
};
use crate::verify::{base_pass, validation};

verus! {

/// `a` and `b` differ at most in their texts and flags: every branch of one
/// has a branch at the same place in the other, with the same order and the
/// same names in the same places.
pub open spec fn same_shape(a: TranslationTree, b: TranslationTree) -> bool
    decreases a, 0int,
{
    match a {
        TranslationTree::Leaf { .. } => b is Leaf,
        TranslationTree::Branch { entries: ea, order: oa } => match b {
            TranslationTree::Leaf { .. } => false,
            TranslationTree::Branch { entries: eb, order: ob } => oa == ob && ea.len() == eb.len()
                && entries_same_shape(ea, eb),
        },
    }
}

/// Entries of the same shape, one by one.
pub open spec fn entries_same_shape(
    ea: Seq<(Seq<char>, TranslationTree)>,
    eb: Seq<(Seq<char>, TranslationTree)>,
) -> bool
    decreases ea, 1int,
{
    if ea.len() == 0 || eb.len() == 0 {
        true
    } else {
        entries_same_shape(ea.drop_last(), eb.drop_last()) && ea.last().0 == eb.last().0
            && same_shape(ea.last().1, eb.last().1)
    }
}

/// Two entries with the same name and subtrees of the same shape.
pub open spec fn entry_same_shape(x: (Seq<char>, TranslationTree), y: (Seq<char>, TranslationTree)) -> bool {
    x.0 == y.0 && same_shape(x.1, y.1)
}

proof fn lemma_entries_same_shape(ea: Seq<(Seq<char>, TranslationTree)>, eb: Seq<(Seq<char>, TranslationTree)>)
    requires
        ea.len() == eb.len(),
    ensures
        entries_same_shape(ea, eb) <==> forall|i: int|
            0 <= i < ea.len() ==> #[trigger] entry_same_shape(ea[i], eb[i]),
    decreases ea.len(),
{
    if ea.len() > 0 {
        let (da, db) = (ea.drop_last(), eb.drop_last());
        lemma_entries_same_shape(da, db);
        if entries_same_shape(ea, eb) {
            assert forall|i: int| 0 <= i < ea.len() implies #[trigger] entry_same_shape(ea[i], eb[i]) by {
                if i < da.len() {
                    assert(da[i] == ea[i] && db[i] == eb[i]);
                    assert(entry_same_shape(da[i], db[i]));
                }
            }
        }
        if forall|i: int| 0 <= i < ea.len() ==> #[trigger] entry_same_shape(ea[i], eb[i]) {
            assert forall|i: int| 0 <= i < da.len() implies #[trigger] entry_same_shape(da[i], db[i]) by {
                assert(da[i] == ea[i] && db[i] == eb[i]);
                assert(entry_same_shape(ea[i], eb[i]));
            }
            assert(entry_same_shape(ea[ea.len() - 1], eb[eb.len() - 1]));
        }
    }
}

proof fn lemma_same_shape_refl(t: TranslationTree)
    ensures
        same_shape(t, t),
    decreases t,
{
    if let TranslationTree::Branch { entries: es, .. } = t {
        assert forall|i: int| 0 <= i < es.len() implies #[trigger] entry_same_shape(es[i], es[i]) by {
            lemma_same_shape_refl(es[i].1);
        }
        lemma_entries_same_shape(es, es);
    }
}

/// Trees of the same shape have the same key paths.
proof fn lemma_same_shape_keys(a: TranslationTree, b: TranslationTree)
    requires
        same_shape(a, b),
    ensures
        keys(a) == keys(b),
    decreases a,
{
    if let TranslationTree::Branch { entries: ea, .. } = a {
        let eb = b->entries;
        lemma_entries_same_shape(ea, eb);
        assert forall|i: int| 0 <= i < ea.len() implies #[trigger] ea[i].0 == eb[i].0 && keys(ea[i].1) == keys(eb[i].1) by {
            assert(entry_same_shape(ea[i], eb[i]));
            lemma_same_shape_keys(ea[i].1, eb[i].1);
        }
        lemma_entries_keys_pointwise(ea, eb);
    }
}

/// Entries with the same names in the same places find every name at the
/// same index.
pub(crate) proof fn lemma_find_same_names(ea: Seq<(Seq<char>, TranslationTree)>, eb: Seq<(Seq<char>, TranslationTree)>, k: Seq<char>)
    requires
        ea.len() == eb.len(),
        forall|i: int| 0 <= i < ea.len() ==> #[trigger] ea[i].0 == eb[i].0,
    ensures
        find(ea, k) == find(eb, k),
    decreases ea.len(),
{
    if ea.len() > 0 {
        let (da, db) = (ea.drop_last(), eb.drop_last());
        assert forall|i: int| 0 <= i < da.len() implies #[trigger] da[i].0 == db[i].0 by {
            assert(da[i] == ea[i] && db[i] == eb[i]);
        }
        lemma_find_same_names(da, db, k);
        assert(ea[ea.len() - 1].0 == eb[eb.len() - 1].0);
    }
}

/// Walking marks values and nothing else: the tree keeps its shape.
proof fn lemma_visit_ordered_keeps_shape(t: TranslationTree, p: OrderedPath, cancel: bool)
    ensures
        same_shape(t, visit_ordered(t, p, cancel).0),
    decreases p.len(),
{
    lemma_same_shape_refl(t);
    if let TranslationTree::Branch { entries: es, order } = t {
        if p.len() > 0 {
            let (k, pos) = p[0];
            if pos < order.len() && order[pos as int] == k {
                if let Some(i) = find(es, k) {
                    lemma_find(es, k);
                    let c = visit_ordered(es[i].1, p.drop_first(), cancel).0;
                    lemma_visit_ordered_keeps_shape(es[i].1, p.drop_first(), cancel);
                    let u = es.update(i, (es[i].0, c));
                    assert forall|j: int| 0 <= j < es.len() implies #[trigger] entry_same_shape(es[j], u[j]) by {
                        if j != i {
                            lemma_same_shape_refl(es[j].1);
                        }
                    }
                    lemma_entries_same_shape(es, u);
                }
            }
        }
    }
}

/// The ordered path `p` can be walked through `t`: every name stands at its
/// position in the order of its branch and names an entry of it, down to a
/// value.
pub open spec fn fits(t: TranslationTree, p: OrderedPath) -> bool
    decreases p.len(),
{
    match t {
        TranslationTree::Leaf { .. } => p.len() == 0,
        TranslationTree::Branch { entries, order } => p.len() > 0 && 0 <= p[0].1 < order.len()
            && order[p[0].1] == p[0].0 && match find(entries, p[0].0) {
            Some(i) => fits(entries[i].1, p.drop_first()),
            None => false,
        },
    }
}

proof fn lemma_fits_visit(t: TranslationTree, p: OrderedPath, cancel: bool)
    requires
        fits(t, p),
    ensures
        visit_ordered(t, p, cancel).1,
    decreases p.len(),
{
    if let TranslationTree::Branch { entries: es, .. } = t {
        let i = find(es, p[0].0).unwrap();
        lemma_find(es, p[0].0);
        lemma_fits_visit(es[i].1, p.drop_first(), cancel);
    }
}

proof fn lemma_fits_same_shape(a: TranslationTree, b: TranslationTree, p: OrderedPath)
    requires
        fits(a, p),
        same_shape(a, b),
    ensures
        fits(b, p),
    decreases p.len(),
{
    if let TranslationTree::Branch { entries: ea, .. } = a {
        let eb = b->entries;
        lemma_entries_same_shape(ea, eb);
        assert forall|j: int| 0 <= j < ea.len() implies #[trigger] ea[j].0 == eb[j].0 by {
            assert(entry_same_shape(ea[j], eb[j]));
        }
        lemma_find_same_names(ea, eb, p[0].0);
        let i = find(ea, p[0].0).unwrap();
        lemma_find(ea, p[0].0);
        assert(entry_same_shape(ea[i], eb[i]));
        lemma_fits_same_shape(ea[i].1, eb[i].1, p.drop_first());
    }
}

/// Walking ordered paths that all fit never fails.
pub(crate) proof fn lemma_fitting_visits_succeed(t: TranslationTree, ps: Seq<OrderedPath>, cancel: bool)
    requires
        forall|k: int| 0 <= k < ps.len() ==> #[trigger] fits(t, ps[k]),
    ensures
        visit_ordered_all(t, ps, cancel).1 is None,
    decreases ps.len(),
{
    if ps.len() > 0 {
        lemma_fits_visit(t, ps[0], cancel);
        let t1 = visit_ordered(t, ps[0], cancel).0;
        lemma_visit_ordered_keeps_shape(t, ps[0], cancel);
        assert forall|k: int| 0 <= k < ps.drop_first().len() implies #[trigger] fits(t1, ps.drop_first()[k]) by {
            assert(fits(t, ps[k + 1]));
            lemma_fits_same_shape(t, t1, ps[k + 1]);
        }
        lemma_fitting_visits_succeed(t1, ps.drop_first(), cancel);
    }
}

proof fn lemma_entries_ordered_keys_contains(
    es: Seq<(Seq<char>, TranslationTree)>,
    order: Seq<Seq<char>>,
    p: OrderedPath,
)
    requires
        entries_ordered_keys(es, order).contains(p),
    ensures
        exists|i: int|
            0 <= i < es.len() && p.len() > 0 && p[0] == (#[trigger] es[i].0, position(order, es[i].0))
                && ordered_keys(es[i].1).contains(p.drop_first()),
    decreases es.len(),
{
    let d = es.drop_last();
    let (k, c) = es.last();
    let a = entries_ordered_keys(d, order);
    let b = prefixed_ordered(k, position(order, k), ordered_keys(c));
    lemma_concat_contains(a, b, p);
    if a.contains(p) {
        lemma_entries_ordered_keys_contains(d, order, p);
        let i = choose|i: int|
            0 <= i < d.len() && p.len() > 0 && p[0] == (#[trigger] d[i].0, position(order, d[i].0))
                && ordered_keys(d[i].1).contains(p.drop_first());
        assert(d[i] == es[i]);
    } else {
        let m = choose|m: int| 0 <= m < b.len() && b[m] == p;
        assert(p == seq![(k, position(order, k))] + ordered_keys(c)[m]);
        assert(p.drop_first() =~= ordered_keys(c)[m]);
        assert(es[es.len() - 1] == (k, c));
    }
}

/// The ordered key paths of a well-formed document whose orders name all
/// its entries can be walked through it: every position that
/// `get_ordered_keys` gives points at the name it comes with.
pub proof fn law_own_ordered_keys_fit(t: TranslationTree, p: OrderedPath)
    requires
        well_formed(t),
        orders_cover(t),
        ordered_keys(t).contains(p),
    ensures
        fits(t, p),
    decreases t,
{
    if let TranslationTree::Branch { entries: es, order } = t {
        lemma_entries_ordered_keys_contains(es, order, p);
        let i = choose|i: int|
            0 <= i < es.len() && p.len() > 0 && p[0] == (#[trigger] es[i].0, position(order, es[i].0))
                && ordered_keys(es[i].1).contains(p.drop_first());
        let k = es[i].0;
        assert(order.contains(k));
        lemma_first_index(order, k);
        lemma_find(es, k);
        let f = find(es, k).unwrap();
        assert(f == i);
        lemma_entries_well_formed(es);
        lemma_entries_orders_cover(es);
        law_own_ordered_keys_fit(es[i].1, p.drop_first());
    }
}

/// Every name of the ordered path `p` carries the first index at which it
/// stands in the order of its map, down to a value of `t`.
pub open spec fn first_positions(t: TranslationTree, p: OrderedPath) -> bool
    decreases p.len(),
{
    match t {
        TranslationTree::Leaf { .. } => p.len() == 0,
        TranslationTree::Branch { entries, order } => p.len() > 0 && first_index(order, p[0].0)
            == Some(p[0].1) && match find(entries, p[0].0) {
            Some(i) => first_positions(entries[i].1, p.drop_first()),
            None => false,
        },
    }
}

/// In a well-formed document whose orders name all its entries, every
/// position that `get_ordered_keys` gives is the first index of its name in
/// the order of the map that holds it.
pub proof fn law_ordered_keys_give_first_positions(t: TranslationTree, p: OrderedPath)
    requires
        well_formed(t),
        orders_cover(t),
        ordered_keys(t).contains(p),
    ensures
        first_positions(t, p),
    decreases t,
{
    if let TranslationTree::Branch { entries: es, order } = t {
        lemma_entries_ordered_keys_contains(es, order, p);
        let i = choose|i: int|
            0 <= i < es.len() && p.len() > 0 && p[0] == (#[trigger] es[i].0, position(order, es[i].0))
                && ordered_keys(es[i].1).contains(p.drop_first());
        let k = es[i].0;
        assert(order.contains(k));
        lemma_first_index(order, k);
        lemma_find(es, k);
        let f = find(es, k).unwrap();
        assert(f == i);
        lemma_entries_well_formed(es);
        lemma_entries_orders_cover(es);
        law_ordered_keys_give_first_positions(es[i].1, p.drop_first());
    } else {
        assert(ordered_keys(t) == seq![Seq::<(Seq<char>, int)>::empty()]);
        assert(p =~= Seq::<(Seq<char>, int)>::empty());
    }
}

/// Validation with order accepts a translation of the same shape as the
/// base: the same names, at the same places, in the same orders. In
/// particular every document read from a file validates, with order,
/// against itself.
pub proof fn law_strict_validation_accepts_same_shape(
    t: TranslationTree,
    base: TranslationTree,
    path: Seq<char>,
)
    requires
        well_formed(base),
        orders_cover(base),
        same_shape(base, t),
    ensures
        validation(t, base, true, path) is Ok,
{
    let ps = ordered_keys(base);
    assert forall|k: int| 0 <= k < ps.len() implies #[trigger] fits(t, ps[k]) by {
        assert(ps.contains(ps[k]));
        law_own_ordered_keys_fit(base, ps[k]);
        lemma_fits_same_shape(base, t, ps[k]);
    }
    lemma_fitting_visits_succeed(t, ps, true);
    lemma_strict_visit_all_is_visit_all(t, ps);
    law_ordered_keys_name_the_keys(base);
    let t1 = visit_all(t, keys(base)).0;
    law_visit_all_keeps_structure(t, keys(base));
    lemma_same_shape_keys(base, t);
    law_keys_are_leaf_paths(base);
    let ts = keys(t1);
    assert forall|k: int| 0 <= k < ts.len() implies #[trigger] has_leaf(base, ts[k]) by {
        assert(keys(base).contains(ts[k]));
    }
    lemma_visit_all_reaches(base, ts);
}

/// Every document read from a file validates, with order, against itself.
pub proof fn law_strict_validation_accepts_itself(t: TranslationTree, path: Seq<char>)
    requires
        well_formed(t),
        orders_cover(t),
    ensures
        validation(t, t, true, path) is Ok,
{
    lemma_same_shape_refl(t);
    law_strict_validation_accepts_same_shape(t, t, path);
}


proof fn lemma_same_shape_symmetric(a: TranslationTree, b: TranslationTree)
    requires
        same_shape(a, b),
    ensures
        same_shape(b, a),
    decreases a,
{
    if let TranslationTree::Branch { entries: ea, .. } = a {
        let eb = b->entries;
        lemma_entries_same_shape(ea, eb);
        lemma_entries_same_shape(eb, ea);
        assert forall|i: int| 0 <= i < eb.len() implies #[trigger] entry_same_shape(eb[i], ea[i]) by {
            assert(entry_same_shape(ea[i], eb[i]));
            lemma_same_shape_symmetric(ea[i].1, eb[i].1);
        }
    }
}

/// An ordered walk that fails on any misplaced name succeeds only along a
/// path that fits.
proof fn lemma_strict_visit_fits(t: TranslationTree, p: OrderedPath)
    requires
        visit_ordered(t, p, true).1,
    ensures
        fits(t, p),
    decreases p.len(),
{
    if let TranslationTree::Branch { entries: es, .. } = t {
        let i = find(es, p[0].0).unwrap();
        lemma_find(es, p[0].0);
        lemma_strict_visit_fits(es[i].1, p.drop_first());
    }
}

proof fn lemma_strict_visits_fit(t: TranslationTree, ps: Seq<OrderedPath>, k: int)
    requires
        visit_ordered_all(t, ps, true).1 is None,
        0 <= k < ps.len(),
    ensures
        fits(t, ps[k]),
    decreases ps.len(),
{
    let t1 = visit_ordered(t, ps[0], true).0;
    if k == 0 {
        lemma_strict_visit_fits(t, ps[0]);
    } else {
        lemma_strict_visits_fit(t1, ps.drop_first(), k - 1);
        lemma_visit_ordered_keeps_shape(t, ps[0], true);
        lemma_same_shape_symmetric(t, t1);
        lemma_fits_same_shape(t1, t, ps[k]);
    }
}

/// Validation with order accepts only a translation through which every
/// ordered key path of the base can be walked down to a value, each name
/// standing in the translation's order at the position it has in the
/// base's order.
pub proof fn law_strict_validation_checks_positions(
    t: TranslationTree,
    base: TranslationTree,
    path: Seq<char>,
    p: OrderedPath,
)
    requires
        validation(t, base, true, path) is Ok,
        ordered_keys(base).contains(p),
    ensures
        fits(t, p),
{
    let ps = ordered_keys(base);
    assert(base_pass(t, base, true).1 is None);
    assert(visit_ordered_all(t, ps, true).1 is None);
    let k = choose|k: int| 0 <= k < ps.len() && ps[k] == p;
    lemma_strict_visits_fit(t, ps, k);
}


/// A tree of the shape of a well-formed tree is well formed.
proof fn lemma_same_shape_well_formed(a: TranslationTree, b: TranslationTree)
    requires
        same_shape(a, b),
        well_formed(a),
    ensures
        well_formed(b),
    decreases a,
{
    if let TranslationTree::Branch { entries: ea, .. } = a {
        let eb = b->entries;
        lemma_entries_same_shape(ea, eb);
        lemma_entries_well_formed(ea);
        lemma_entries_well_formed(eb);
        assert forall|i: int| 0 <= i < eb.len() implies #[trigger] well_formed(eb[i].1) by {
            assert(entry_same_shape(ea[i], eb[i]));
            lemma_same_shape_well_formed(ea[i].1, eb[i].1);
        }
        assert forall|i: int, j: int| 0 <= i < eb.len() && 0 <= j < eb.len() && i != j implies eb[i].0 != eb[j].0 by {
            assert(entry_same_shape(ea[i], eb[i]));
            assert(entry_same_shape(ea[j], eb[j]));
        }
    }
}

/// Walking ordered paths never changes the key paths of a document, nor
/// whether it is well formed.
pub proof fn law_visit_ordered_keeps_structure(t: TranslationTree, ps: Seq<OrderedPath>, cancel: bool)
    ensures
        keys(visit_ordered_all(t, ps, cancel).0) == keys(t),
        well_formed(t) ==> well_formed(visit_ordered_all(t, ps, cancel).0),
    decreases ps.len(),
{
    if ps.len() > 0 {
        let (t1, ok) = visit_ordered(t, ps[0], cancel);
        lemma_visit_ordered_keeps_shape(t, ps[0], cancel);
        lemma_same_shape_keys(t, t1);
        if well_formed(t) {
            lemma_same_shape_well_formed(t, t1);
        }
        if ok {
            law_visit_ordered_keeps_structure(t1, ps.drop_first(), cancel);
        }
    }
}

/// Walking one ordered path never changes the key paths of a document, nor
/// whether it is well formed.
pub proof fn law_visit_ordered_key_keeps_structure(t: TranslationTree, p: OrderedPath, cancel: bool)
    ensures
        keys(visit_ordered(t, p, cancel).0) == keys(t),
        well_formed(t) ==> well_formed(visit_ordered(t, p, cancel).0),
{
    lemma_visit_ordered_keeps_shape(t, p, cancel);
    lemma_same_shape_keys(t, visit_ordered(t, p, cancel).0);
    if well_formed(t) {
        lemma_same_shape_well_formed(t, visit_ordered(t, p, cancel).0);
    }
}

} // verus!
