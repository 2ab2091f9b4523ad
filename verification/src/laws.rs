//! What holds of the operations on translation documents across all inputs.
use vstd::prelude::*;

use crate::diff::unmatched;
use crate::verify::{base_pass, validation};
use crate::tree::{
    KeyPath, OrderedPath, TranslationTree, all_visited, distinct_names, entries_keys,
    entries_ordered_keys, entries_well_formed, find, has_leaf, keys, lemma_entries_all_visited,
    lemma_entries_well_formed, lemma_find, names, names_of, node_at, ordered_keys, position,
    prefixed, prefixed_ordered, visit, visit_all, visit_ordered, visit_ordered_all, well_formed,
};

verus! {

pub(crate) proof fn lemma_concat_contains<A>(a: Seq<A>, b: Seq<A>, x: A)
    ensures
        (a + b).contains(x) <==> a.contains(x) || b.contains(x),
{
    if (a + b).contains(x) {
        let i = choose|i: int| 0 <= i < (a + b).len() && (a + b)[i] == x;
        if i < a.len() {
            assert(a[i] == x);
        } else {
            assert(b[i - a.len()] == x);
        }
    }
    if a.contains(x) {
        let i = choose|i: int| 0 <= i < a.len() && a[i] == x;
        assert((a + b)[i] == x);
    }
    if b.contains(x) {
        let i = choose|i: int| 0 <= i < b.len() && b[i] == x;
        assert((a + b)[i + a.len()] == x);
    }
}

pub(crate) proof fn lemma_prefixed_contains(k: Seq<char>, ps: Seq<KeyPath>, p: KeyPath)
    ensures
        prefixed(k, ps).contains(p) <==> p.len() > 0 && p[0] == k && ps.contains(p.drop_first()),
{
    if prefixed(k, ps).contains(p) {
        let i = choose|i: int| 0 <= i < prefixed(k, ps).len() && prefixed(k, ps)[i] == p;
        assert(p == seq![k] + ps[i]);
        assert(p.drop_first() =~= ps[i]);
    }
    if p.len() > 0 && p[0] == k && ps.contains(p.drop_first()) {
        let i = choose|i: int| 0 <= i < ps.len() && ps[i] == p.drop_first();
        assert(prefixed(k, ps)[i] =~= p);
    }
}

pub(crate) proof fn lemma_entries_keys_contains(es: Seq<(Seq<char>, TranslationTree)>, p: KeyPath)
    ensures
        entries_keys(es).contains(p) <==> exists|i: int|
            0 <= i < es.len() && p.len() > 0 && p[0] == #[trigger] es[i].0 && keys(es[i].1).contains(
                p.drop_first(),
            ),
    decreases es.len(),
{
    if es.len() > 0 {
        let d = es.drop_last();
        lemma_entries_keys_contains(d, p);
        lemma_concat_contains(entries_keys(d), prefixed(es.last().0, keys(es.last().1)), p);
        lemma_prefixed_contains(es.last().0, keys(es.last().1), p);
        if entries_keys(es).contains(p) {
            if entries_keys(d).contains(p) {
                let i = choose|i: int|
                    0 <= i < d.len() && p.len() > 0 && p[0] == #[trigger] d[i].0 && keys(
                        d[i].1,
                    ).contains(p.drop_first());
                assert(d[i] == es[i]);
            } else {
                assert(es[es.len() - 1] == es.last());
            }
        }
        if exists|i: int|
            0 <= i < es.len() && p.len() > 0 && p[0] == #[trigger] es[i].0 && keys(es[i].1).contains(
                p.drop_first(),
            ) {
            let i = choose|i: int|
                0 <= i < es.len() && p.len() > 0 && p[0] == #[trigger] es[i].0 && keys(
                    es[i].1,
                ).contains(p.drop_first());
            if i < d.len() {
                assert(d[i] == es[i]);
            }
        }
    }
}

/// The key paths listed by `keys` are those that lead to a value.
pub open spec fn keys_are_leaf_paths(t: TranslationTree) -> bool {
    forall|p: KeyPath| #[trigger] keys(t).contains(p) <==> has_leaf(t, p)
}

/// The key paths that `keys` lists are exactly the paths that lead to a
/// value: what `get_keys` gives is what `contains_key` accepts.
pub proof fn law_keys_are_leaf_paths(t: TranslationTree)
    requires
        well_formed(t),
    ensures
        keys_are_leaf_paths(t),
    decreases t,
{
    match t {
        TranslationTree::Leaf { .. } => {
            assert forall|p: KeyPath| #[trigger] keys(t).contains(p) <==> has_leaf(t, p) by {
                if p.len() == 0 {
                    assert(keys(t)[0] =~= p);
                }
            }
        },
        TranslationTree::Branch { entries: es, .. } => {
            lemma_entries_well_formed(es);
            assert forall|i: int| 0 <= i < es.len() implies #[trigger] keys_are_leaf_paths(es[i].1) by {
                law_keys_are_leaf_paths(es[i].1);
            }
            assert forall|p: KeyPath| #[trigger] keys(t).contains(p) <==> has_leaf(t, p) by {
                lemma_entries_keys_contains(es, p);
                if p.len() > 0 {
                    lemma_find(es, p[0]);
                    if keys(t).contains(p) {
                        let j = choose|j: int|
                            0 <= j < es.len() && p.len() > 0 && p[0] == #[trigger] es[j].0 && keys(
                                es[j].1,
                            ).contains(p.drop_first());
                        let i = find(es, p[0]).unwrap();
                        assert(i == j);
                        assert(keys_are_leaf_paths(es[i].1));
                    }
                    if has_leaf(t, p) {
                        let i = find(es, p[0]).unwrap();
                        assert(has_leaf(es[i].1, p.drop_first()));
                        assert(keys_are_leaf_paths(es[i].1));
                    }
                }
            }
        },
    }
}


/// Replacing the subtree of one entry by one with the same key paths keeps
/// the key paths of the entries.
proof fn lemma_entries_keys_update(
    es: Seq<(Seq<char>, TranslationTree)>,
    i: int,
    c: TranslationTree,
)
    requires
        0 <= i < es.len(),
        keys(c) == keys(es[i].1),
    ensures
        entries_keys(es.update(i, (es[i].0, c))) == entries_keys(es),
    decreases es.len(),
{
    let u = es.update(i, (es[i].0, c));
    if i == es.len() - 1 {
        assert(u.drop_last() =~= es.drop_last());
    } else {
        lemma_entries_keys_update(es.drop_last(), i, c);
        assert(u.drop_last() =~= es.drop_last().update(i, (es[i].0, c)));
    }
}

/// Replacing the subtree of one entry, keeping its name, keeps the index
/// that every name is found at.
pub(crate) proof fn lemma_find_update(
    es: Seq<(Seq<char>, TranslationTree)>,
    i: int,
    c: TranslationTree,
    k: Seq<char>,
)
    requires
        0 <= i < es.len(),
    ensures
        find(es.update(i, (es[i].0, c)), k) == find(es, k),
    decreases es.len(),
{
    let u = es.update(i, (es[i].0, c));
    if i == es.len() - 1 {
        assert(u.drop_last() =~= es.drop_last());
    } else {
        lemma_find_update(es.drop_last(), i, c, k);
        assert(u.drop_last() =~= es.drop_last().update(i, (es[i].0, c)));
    }
}

proof fn lemma_well_formed_update(
    es: Seq<(Seq<char>, TranslationTree)>,
    i: int,
    c: TranslationTree,
)
    requires
        0 <= i < es.len(),
        distinct_names(es),
        entries_well_formed(es),
        well_formed(c),
    ensures
        distinct_names(es.update(i, (es[i].0, c))),
        entries_well_formed(es.update(i, (es[i].0, c))),
{
    let u = es.update(i, (es[i].0, c));
    lemma_entries_well_formed(es);
    lemma_entries_well_formed(u);
    assert forall|j: int, m: int| 0 <= j < u.len() && 0 <= m < u.len() && j != m implies u[j].0 != u[m].0 by {
        assert(u[j].0 == es[j].0);
        assert(u[m].0 == es[m].0);
    }
    assert forall|j: int| 0 <= j < u.len() implies #[trigger] well_formed(u[j].1) by {
        if j != i {
            assert(u[j] == es[j]);
        }
    }
}

/// Visiting never changes the key paths of a document, nor which paths lead
/// to values, nor whether it is well formed.
pub proof fn law_visit_keeps_structure(t: TranslationTree, p: KeyPath)
    ensures
        keys(visit(t, p).0) == keys(t),
        forall|q: KeyPath| #[trigger] has_leaf(visit(t, p).0, q) == has_leaf(t, q),
        well_formed(t) ==> well_formed(visit(t, p).0),
    decreases p.len(),
{
    match t {
        TranslationTree::Leaf { .. } => {
            assert forall|q: KeyPath| #[trigger] has_leaf(visit(t, p).0, q) == has_leaf(t, q) by {
            }
        },
        TranslationTree::Branch { entries: es, order } => {
            if p.len() > 0 {
                if let Some(i) = find(es, p[0]) {
                    lemma_find(es, p[0]);
                    let (c, ok) = visit(es[i].1, p.drop_first());
                    law_visit_keeps_structure(es[i].1, p.drop_first());
                    lemma_entries_keys_update(es, i, c);
                    let u = es.update(i, (es[i].0, c));
                    assert forall|q: KeyPath| #[trigger] has_leaf(visit(t, p).0, q) == has_leaf(t, q) by {
                        if q.len() > 0 {
                            lemma_find_update(es, i, c, q[0]);
                            if let Some(j) = find(es, q[0]) {
                                lemma_find(es, q[0]);
                                if j == i {
                                    assert(has_leaf(c, q.drop_first()) == has_leaf(es[i].1, q.drop_first()));
                                } else {
                                    assert(u[j] == es[j]);
                                }
                            }
                        }
                    }
                    if well_formed(t) {
                        lemma_entries_well_formed(es);
                        lemma_well_formed_update(es, i, c);
                    }
                }
            }
        },
    }
}


/// `q` leads from `t` to a value that has been reached.
pub open spec fn visited_at(t: TranslationTree, q: KeyPath) -> bool {
    node_at(t, q) matches Some(TranslationTree::Leaf { visited: true, .. })
}

/// A walk along a path that leads to a value succeeds.
proof fn lemma_visit_reaches(t: TranslationTree, p: KeyPath)
    requires
        has_leaf(t, p),
    ensures
        visit(t, p).1,
    decreases p.len(),
{
    if let TranslationTree::Branch { entries: es, .. } = t {
        let i = find(es, p[0]).unwrap();
        lemma_find(es, p[0]);
        lemma_visit_reaches(es[i].1, p.drop_first());
    }
}

/// A walk succeeds only along a path that leads to a value.
proof fn lemma_visit_ok_leaf(t: TranslationTree, p: KeyPath)
    requires
        visit(t, p).1,
    ensures
        has_leaf(t, p),
    decreases p.len(),
{
    if let TranslationTree::Branch { entries: es, .. } = t {
        let i = find(es, p[0]).unwrap();
        lemma_find(es, p[0]);
        lemma_visit_ok_leaf(es[i].1, p.drop_first());
    }
}

/// A value reached after a walk was reached before, or the walk ended at it.
proof fn lemma_visit_marks(t: TranslationTree, p: KeyPath, q: KeyPath)
    requires
        visited_at(visit(t, p).0, q),
    ensures
        visited_at(t, q) || q == p,
    decreases p.len(),
{
    match t {
        TranslationTree::Leaf { .. } => {
            assert(q.len() == 0);
            if p.len() == 0 {
                assert(q =~= p);
            }
        },
        TranslationTree::Branch { entries: es, order } => {
            if p.len() > 0 {
                if let Some(i) = find(es, p[0]) {
                    lemma_find(es, p[0]);
                    let (c, ok) = visit(es[i].1, p.drop_first());
                    let u = es.update(i, (es[i].0, c));
                    lemma_find_update(es, i, c, q[0]);
                    let j = find(es, q[0]).unwrap();
                    lemma_find(es, q[0]);
                    if j == i {
                        lemma_visit_marks(es[i].1, p.drop_first(), q.drop_first());
                        if !visited_at(t, q) {
                            assert(q =~= p) by {
                                assert forall|m: int| 0 <= m < q.len() implies q[m] == p[m] by {
                                    if m > 0 {
                                        assert(q[m] == q.drop_first()[m - 1]);
                                        assert(p[m] == p.drop_first()[m - 1]);
                                    }
                                }
                            }
                        }
                    } else {
                        assert(u[j] == es[j]);
                    }
                }
            }
        },
    }
}

/// Walking paths that all lead to values never fails.
pub(crate) proof fn lemma_visit_all_reaches(t: TranslationTree, ps: Seq<KeyPath>)
    requires
        forall|k: int| 0 <= k < ps.len() ==> #[trigger] has_leaf(t, ps[k]),
    ensures
        visit_all(t, ps).1 is None,
    decreases ps.len(),
{
    if ps.len() > 0 {
        lemma_visit_reaches(t, ps[0]);
        let t1 = visit(t, ps[0]).0;
        law_visit_keeps_structure(t, ps[0]);
        assert forall|k: int| 0 <= k < ps.drop_first().len() implies #[trigger] has_leaf(t1, ps.drop_first()[k]) by {
            assert(has_leaf(t, ps[k + 1]));
        }
        lemma_visit_all_reaches(t1, ps.drop_first());
    }
}

/// Walking several paths never changes the key paths of a document, nor
/// which paths lead to values, nor whether it is well formed.
pub proof fn law_visit_all_keeps_structure(t: TranslationTree, ps: Seq<KeyPath>)
    ensures
        keys(visit_all(t, ps).0) == keys(t),
        forall|q: KeyPath| #[trigger] has_leaf(visit_all(t, ps).0, q) == has_leaf(t, q),
        well_formed(t) ==> well_formed(visit_all(t, ps).0),
    decreases ps.len(),
{
    if ps.len() > 0 {
        law_visit_keeps_structure(t, ps[0]);
        let (t1, ok) = visit(t, ps[0]);
        if ok {
            law_visit_all_keeps_structure(t1, ps.drop_first());
        }
    }
}

/// When walking several paths succeeds, each of them leads to a value.
proof fn lemma_visit_all_ok_leaf(t: TranslationTree, ps: Seq<KeyPath>, k: int)
    requires
        visit_all(t, ps).1 is None,
        0 <= k < ps.len(),
    ensures
        has_leaf(t, ps[k]),
    decreases ps.len(),
{
    let (t1, ok) = visit(t, ps[0]);
    law_visit_keeps_structure(t, ps[0]);
    if k == 0 {
        lemma_visit_ok_leaf(t, ps[0]);
    } else {
        lemma_visit_all_ok_leaf(t1, ps.drop_first(), k - 1);
        assert(has_leaf(t1, ps.drop_first()[k - 1]));
    }
}

/// A value reached after several walks was reached before, or one of the
/// walks ended at it.
proof fn lemma_visit_all_marks(t: TranslationTree, ps: Seq<KeyPath>, q: KeyPath)
    requires
        visited_at(visit_all(t, ps).0, q),
    ensures
        visited_at(t, q) || ps.contains(q),
    decreases ps.len(),
{
    if ps.len() > 0 {
        let (t1, ok) = visit(t, ps[0]);
        if ok {
            lemma_visit_all_marks(t1, ps.drop_first(), q);
            if ps.drop_first().contains(q) {
                let k = choose|k: int| 0 <= k < ps.drop_first().len() && ps.drop_first()[k] == q;
                assert(ps[k + 1] == q);
            }
        }
        if visited_at(t1, q) {
            lemma_visit_marks(t, ps[0], q);
            if q == ps[0] {
                assert(ps[0] == q);
            }
        }
    }
}

/// In a document whose values have all been reached, every path to a value
/// leads to a reached one.
proof fn lemma_all_visited_leaf(t: TranslationTree, q: KeyPath)
    requires
        all_visited(t),
        has_leaf(t, q),
    ensures
        visited_at(t, q),
    decreases q.len(),
{
    if let TranslationTree::Branch { entries: es, .. } = t {
        let i = find(es, q[0]).unwrap();
        lemma_find(es, q[0]);
        lemma_entries_all_visited(es);
        lemma_all_visited_leaf(es[i].1, q.drop_first());
    }
}


/// `a` and `b` list the same key paths.
pub open spec fn same_keys(a: Seq<KeyPath>, b: Seq<KeyPath>) -> bool {
    forall|p: KeyPath| #[trigger] a.contains(p) <==> #[trigger] b.contains(p)
}

/// No value of `t` has been reached yet, as in a document just read.
pub open spec fn unvisited(t: TranslationTree) -> bool {
    forall|q: KeyPath| !#[trigger] visited_at(t, q)
}

/// Validation without order accepts a translation whose key paths are those
/// of the base, and, for a translation just read, only such a translation:
/// a missing or an unknown key is reported.
pub proof fn law_validation_matches_keys(t: TranslationTree, base: TranslationTree, path: Seq<char>)
    requires
        well_formed(t),
        well_formed(base),
    ensures
        same_keys(keys(t), keys(base)) ==> validation(t, base, false, path) is Ok,
        unvisited(t) && validation(t, base, false, path) is Ok ==> same_keys(keys(t), keys(base)),
{
    law_keys_are_leaf_paths(t);
    law_keys_are_leaf_paths(base);
    let ps = keys(base);
    let t1 = visit_all(t, ps).0;
    law_visit_all_keeps_structure(t, ps);
    let ts = keys(t1);
    if same_keys(keys(t), keys(base)) {
        assert forall|k: int| 0 <= k < ps.len() implies #[trigger] has_leaf(t, ps[k]) by {
            assert(keys(base).contains(ps[k]));
            assert(keys(t).contains(ps[k]));
        }
        lemma_visit_all_reaches(t, ps);
        assert forall|k: int| 0 <= k < ts.len() implies #[trigger] has_leaf(base, ts[k]) by {
            assert(keys(t).contains(ts[k]));
            assert(keys(base).contains(ts[k]));
        }
        lemma_visit_all_reaches(base, ts);
    }
    if unvisited(t) && validation(t, base, false, path) is Ok {
        assert(visit_all(t, ps).1 is None);
        assert forall|p: KeyPath| #[trigger] keys(base).contains(p) implies keys(t).contains(p) by {
            let k = choose|k: int| 0 <= k < ps.len() && ps[k] == p;
            lemma_visit_all_ok_leaf(t, ps, k);
        }
        assert forall|q: KeyPath| #[trigger] keys(t).contains(q) implies keys(base).contains(q) by {
            let k = choose|k: int| 0 <= k < ts.len() && ts[k] == q;
            if all_visited(t1) {
                assert(has_leaf(t1, q));
                lemma_all_visited_leaf(t1, q);
                lemma_visit_all_marks(t, ps, q);
                assert(!visited_at(t, q));
            } else {
                assert(visit_all(base, ts).1 is None);
                lemma_visit_all_ok_leaf(base, ts, k);
            }
        }
    }
}


/// The indices of the unmatched paths rise strictly and stay below the
/// number of paths: every path is reported at most once, in the order of
/// the paths. (Indices are machine words, so the paths are as many as a
/// word can count.)
pub proof fn law_unmatched_increasing(ps: Seq<KeyPath>, t: TranslationTree)
    requires
        ps.len() <= usize::MAX,
    ensures
        forall|i: int| 0 <= i < unmatched(ps, t).len() ==> #[trigger] unmatched(ps, t)[i] < ps.len(),
        forall|i: int, j: int|
            0 <= i < j < unmatched(ps, t).len() ==> #[trigger] unmatched(ps, t)[i] < #[trigger] unmatched(ps, t)[j],
    decreases ps.len(),
{
    if ps.len() > 0 {
        let d = ps.drop_last();
        law_unmatched_increasing(d, t);
        let u = unmatched(d, t);
        let r = unmatched(ps, t);
        if !has_leaf(t, ps.last()) {
            assert(r == u.push((ps.len() - 1) as usize));
            assert forall|i: int| 0 <= i < r.len() implies #[trigger] r[i] < ps.len() by {
                if i < u.len() {
                    assert(r[i] == u[i]);
                }
            }
            assert forall|i: int, j: int| 0 <= i < j < r.len() implies #[trigger] r[i] < #[trigger] r[j] by {
                assert(r[i] == u[i]);
                if j < u.len() {
                    assert(r[j] == u[j]);
                }
            }
        }
    }
}

proof fn lemma_unmatched_members(ps: Seq<KeyPath>, t: TranslationTree)
    requires
        ps.len() <= usize::MAX,
    ensures
        forall|i: usize| #[trigger] unmatched(ps, t).contains(i) <==> (i < ps.len() && !has_leaf(t, ps[i as int])),
    decreases ps.len(),
{
    if ps.len() > 0 {
        let d = ps.drop_last();
        lemma_unmatched_members(d, t);
        let u = unmatched(d, t);
        assert forall|i: usize| #[trigger] unmatched(ps, t).contains(i) <==> (i < ps.len() && !has_leaf(t, ps[i as int])) by {
            if i < d.len() {
                assert(d[i as int] == ps[i as int]);
            }
            if !has_leaf(t, ps.last()) {
                lemma_concat_contains(u, seq![(ps.len() - 1) as usize], i);
                assert(u.push((ps.len() - 1) as usize) =~= u + seq![(ps.len() - 1) as usize]);
                if i == ps.len() - 1 {
                    assert(seq![(ps.len() - 1) as usize][0] == i);
                }
            }
        }
    }
}

proof fn lemma_unmatched_empty(ps: Seq<KeyPath>, t: TranslationTree)
    requires
        forall|i: int| 0 <= i < ps.len() ==> #[trigger] has_leaf(t, ps[i]),
    ensures
        unmatched(ps, t) == Seq::<usize>::empty(),
    decreases ps.len(),
{
    if ps.len() > 0 {
        let d = ps.drop_last();
        assert forall|i: int| 0 <= i < d.len() implies #[trigger] has_leaf(t, d[i]) by {
            assert(d[i] == ps[i]);
        }
        lemma_unmatched_empty(d, t);
        assert(has_leaf(t, ps[ps.len() - 1]));
    }
}

/// A key path of the base is reported missing exactly when the translation
/// lacks it, and a key path of the translation is reported extra exactly
/// when the base lacks it.
pub proof fn law_diff_reports_absent_keys(t: TranslationTree, base: TranslationTree)
    requires
        well_formed(t),
        well_formed(base),
        keys(t).len() <= usize::MAX,
        keys(base).len() <= usize::MAX,
    ensures
        forall|i: usize| #[trigger] unmatched(keys(base), t).contains(i) <==> (i < keys(base).len()
            && !keys(t).contains(keys(base)[i as int])),
        forall|i: usize| #[trigger] unmatched(keys(t), base).contains(i) <==> (i < keys(t).len()
            && !keys(base).contains(keys(t)[i as int])),
{
    law_keys_are_leaf_paths(t);
    law_keys_are_leaf_paths(base);
    lemma_unmatched_members(keys(base), t);
    lemma_unmatched_members(keys(t), base);
}

/// Comparing a translation with a base of the same key paths, for instance
/// with itself, reports nothing missing and nothing extra.
pub proof fn law_diff_of_same_keys_is_empty(t: TranslationTree, base: TranslationTree)
    requires
        well_formed(t),
        well_formed(base),
        same_keys(keys(t), keys(base)),
    ensures
        unmatched(keys(base), t) == Seq::<usize>::empty(),
        unmatched(keys(t), base) == Seq::<usize>::empty(),
{
    law_keys_are_leaf_paths(t);
    law_keys_are_leaf_paths(base);
    assert forall|i: int| 0 <= i < keys(base).len() implies #[trigger] has_leaf(t, keys(base)[i]) by {
        assert(keys(base).contains(keys(base)[i]));
        assert(keys(t).contains(keys(base)[i]));
    }
    lemma_unmatched_empty(keys(base), t);
    assert forall|i: int| 0 <= i < keys(t).len() implies #[trigger] has_leaf(base, keys(t)[i]) by {
        assert(keys(t).contains(keys(t)[i]));
        assert(keys(base).contains(keys(t)[i]));
    }
    lemma_unmatched_empty(keys(t), base);
}

proof fn lemma_entries_ordered_keys_names(es: Seq<(Seq<char>, TranslationTree)>, order: Seq<Seq<char>>)
    ensures
        names_of(entries_ordered_keys(es, order)) == entries_keys(es),
    decreases es, 1int,
{
    if es.len() > 0 {
        let d = es.drop_last();
        let (k, c) = es.last();
        lemma_entries_ordered_keys_names(d, order);
        law_ordered_keys_name_the_keys(c);
        let a = entries_ordered_keys(d, order);
        let b = prefixed_ordered(k, crate::tree::position(order, k), ordered_keys(c));
        assert(names_of(a + b) =~= names_of(a)
            + names_of(b));
        assert forall|i: int| 0 <= i < b.len() implies #[trigger] names_of(b)[i] == prefixed(k, keys(c))[i] by {
            assert(names_of(ordered_keys(c))[i] == keys(c)[i]);
            assert(names(b[i]) =~= seq![k] + names(ordered_keys(c)[i]));
        }
        assert(names_of(b) =~= prefixed(k, keys(c)));
    }
}

/// The ordered key paths name the same paths, in the same order, as the key
/// paths: `get_ordered_keys` is `get_keys` with positions.
pub proof fn law_ordered_keys_name_the_keys(t: TranslationTree)
    ensures
        names_of(ordered_keys(t)) == keys(t),
    decreases t, 0int,
{
    match t {
        TranslationTree::Leaf { .. } => {
            assert(names(Seq::<(Seq<char>, int)>::empty()) =~= Seq::<Seq<char>>::empty());
            assert(names_of(ordered_keys(t)) =~= keys(t));
        },
        TranslationTree::Branch { entries: es, order } => {
            lemma_entries_ordered_keys_names(es, order);
        },
    }
}


/// An ordered walk that fails on any misplaced name, when it succeeds, does
/// what the walk along its names does.
proof fn lemma_strict_visit_is_visit(t: TranslationTree, p: OrderedPath)
    requires
        visit_ordered(t, p, true).1,
    ensures
        visit(t, names(p)) == visit_ordered(t, p, true),
    decreases p.len(),
{
    if let TranslationTree::Branch { entries: es, order } = t {
        let i = find(es, p[0].0).unwrap();
        lemma_find(es, p[0].0);
        lemma_strict_visit_is_visit(es[i].1, p.drop_first());
        assert(names(p).drop_first() =~= names(p.drop_first()));
    }
}

pub(crate) proof fn lemma_strict_visit_all_is_visit_all(t: TranslationTree, ps: Seq<OrderedPath>)
    requires
        visit_ordered_all(t, ps, true).1 is None,
    ensures
        visit_all(t, names_of(ps)) == (visit_ordered_all(t, ps, true).0, None::<KeyPath>),
    decreases ps.len(),
{
    if ps.len() > 0 {
        lemma_strict_visit_is_visit(t, ps[0]);
        let t1 = visit_ordered(t, ps[0], true).0;
        lemma_strict_visit_all_is_visit_all(t1, ps.drop_first());
        assert(names_of(ps).drop_first() =~= names_of(ps.drop_first()));
    }
}

/// Validation with order is stricter than validation without: what it
/// accepts, the validation without order accepts too.
pub proof fn law_strict_validation_is_stricter(t: TranslationTree, base: TranslationTree, path: Seq<char>)
    requires
        validation(t, base, true, path) is Ok,
    ensures
        validation(t, base, false, path) is Ok,
        base_pass(t, base, false) == base_pass(t, base, true),
{
    let ps = ordered_keys(base);
    assert(visit_ordered_all(t, ps, true).1 is None);
    lemma_strict_visit_all_is_visit_all(t, ps);
    law_ordered_keys_name_the_keys(base);
}


} // verus!
