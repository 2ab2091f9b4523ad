//! What holds of walking a document along its own key paths, and of the key
//! paths that it lists.
use vstd::prelude::*;

use crate::laws::{
    law_keys_are_leaf_paths, law_ordered_keys_name_the_keys, law_visit_all_keeps_structure,
    law_visit_keeps_structure, lemma_entries_keys_contains, lemma_find_update,
    lemma_strict_visit_all_is_visit_all, lemma_visit_all_reaches, visited_at,
};
use crate::shape_laws::{fits, law_own_ordered_keys_fit, lemma_fitting_visits_succeed};
use crate::tree::{
    KeyPath, TranslationTree, all_visited, entries_keys, find, has_leaf, keys,
    lemma_entries_all_visited, lemma_entries_well_formed, lemma_find, ordered_keys, orders_cover,
    prefixed, visit, visit_all, visit_ordered_all, well_formed,
};

verus! {

/// A value that has been reached stays reached after a walk.
proof fn lemma_visit_keeps_visited(t: TranslationTree, p: KeyPath, q: KeyPath)
    requires
        visited_at(t, q),
    ensures
        visited_at(visit(t, p).0, q),
    decreases p.len(),
{
    if let TranslationTree::Branch { entries: es, order } = t {
        if p.len() > 0 {
            if let Some(i) = find(es, p[0]) {
                lemma_find(es, p[0]);
                let c = visit(es[i].1, p.drop_first()).0;
                let u = es.update(i, (es[i].0, c));
                lemma_find_update(es, i, c, q[0]);
                let j = find(es, q[0]).unwrap();
                lemma_find(es, q[0]);
                if j == i {
                    lemma_visit_keeps_visited(es[i].1, p.drop_first(), q.drop_first());
                } else {
                    assert(u[j] == es[j]);
                }
            }
        }
    }
}

/// A walk that succeeds has reached the value at the end of its path.
proof fn lemma_visit_marks_target(t: TranslationTree, p: KeyPath)
    requires
        visit(t, p).1,
    ensures
        visited_at(visit(t, p).0, p),
    decreases p.len(),
{
    if let TranslationTree::Branch { entries: es, order } = t {
        let i = find(es, p[0]).unwrap();
        lemma_find(es, p[0]);
        let c = visit(es[i].1, p.drop_first()).0;
        lemma_find_update(es, i, c, p[0]);
        lemma_visit_marks_target(es[i].1, p.drop_first());
    }
}

/// When walking several paths succeeds, every one of them has reached its
/// value.
proof fn lemma_visit_all_marks_each(t: TranslationTree, ps: Seq<KeyPath>)
    requires
        visit_all(t, ps).1 is None,
    ensures
        forall|k: int| 0 <= k < ps.len() ==> #[trigger] visited_at(visit_all(t, ps).0, ps[k]),
    decreases ps.len(),
{
    if ps.len() > 0 {
        let t1 = visit(t, ps[0]).0;
        let rest = ps.drop_first();
        lemma_visit_all_marks_each(t1, rest);
        lemma_visit_marks_target(t, ps[0]);
        lemma_visit_all_keeps_visited(t1, rest, ps[0]);
        assert forall|k: int| 0 <= k < ps.len() implies #[trigger] visited_at(visit_all(t, ps).0, ps[k]) by {
            if k > 0 {
                assert(rest[k - 1] == ps[k]);
            }
        }
    }
}

/// A value that has been reached stays reached after several walks.
proof fn lemma_visit_all_keeps_visited(t: TranslationTree, ps: Seq<KeyPath>, q: KeyPath)
    requires
        visited_at(t, q),
    ensures
        visited_at(visit_all(t, ps).0, q),
    decreases ps.len(),
{
    if ps.len() > 0 {
        lemma_visit_keeps_visited(t, ps[0], q);
        let (t1, ok) = visit(t, ps[0]);
        if ok {
            lemma_visit_all_keeps_visited(t1, ps.drop_first(), q);
        }
    }
}

/// In a well-formed document whose every path to a value leads to a reached
/// value, every value has been reached.
proof fn lemma_all_leaves_visited(t: TranslationTree)
    requires
        well_formed(t),
        forall|q: KeyPath| #[trigger] has_leaf(t, q) ==> visited_at(t, q),
    ensures
        all_visited(t),
    decreases t,
{
    match t {
        TranslationTree::Leaf { .. } => {
            assert(has_leaf(t, Seq::<Seq<char>>::empty()));
        },
        TranslationTree::Branch { entries: es, .. } => {
            lemma_entries_well_formed(es);
            lemma_entries_all_visited(es);
            assert forall|i: int| 0 <= i < es.len() implies #[trigger] all_visited(es[i].1) by {
                lemma_find(es, es[i].0);
                assert(find(es, es[i].0) == Some(i));
                assert forall|q: KeyPath| #[trigger] has_leaf(es[i].1, q) implies visited_at(es[i].1, q) by {
                    let full = seq![es[i].0] + q;
                    assert(full[0] == es[i].0);
                    assert(full.drop_first() =~= q);
                    assert(has_leaf(t, full));
                }
                lemma_all_leaves_visited(es[i].1);
            }
        },
    }
}

/// Walking a well-formed document along every one of its own key paths
/// succeeds and reaches every value: a copy of a document visited with the
/// document itself has everything visited.
pub proof fn law_visit_own_keys(t: TranslationTree)
    requires
        well_formed(t),
    ensures
        visit_all(t, keys(t)).1 is None,
        all_visited(visit_all(t, keys(t)).0),
{
    let ps = keys(t);
    law_keys_are_leaf_paths(t);
    assert forall|k: int| 0 <= k < ps.len() implies #[trigger] has_leaf(t, ps[k]) by {
        assert(ps.contains(ps[k]));
    }
    lemma_visit_all_reaches(t, ps);
    lemma_visit_all_marks_each(t, ps);
    let t1 = visit_all(t, ps).0;
    law_visit_all_keeps_structure(t, ps);
    assert forall|q: KeyPath| #[trigger] has_leaf(t1, q) implies visited_at(t1, q) by {
        assert(has_leaf(t, q));
        assert(ps.contains(q));
        let k = choose|k: int| 0 <= k < ps.len() && ps[k] == q;
        assert(visited_at(t1, ps[k]));
    }
    lemma_all_leaves_visited(t1);
}

/// Walking a well-formed document, whose orders name all of its entries,
/// along every one of its own ordered key paths succeeds, even when every
/// misplaced name fails the walk, and reaches every value.
pub proof fn law_visit_own_ordered_keys(t: TranslationTree)
    requires
        well_formed(t),
        orders_cover(t),
    ensures
        visit_ordered_all(t, ordered_keys(t), true).1 is None,
        all_visited(visit_ordered_all(t, ordered_keys(t), true).0),
{
    let ps = ordered_keys(t);
    assert forall|k: int| 0 <= k < ps.len() implies #[trigger] fits(t, ps[k]) by {
        assert(ps.contains(ps[k]));
        law_own_ordered_keys_fit(t, ps[k]);
    }
    lemma_fitting_visits_succeed(t, ps, true);
    lemma_strict_visit_all_is_visit_all(t, ps);
    law_ordered_keys_name_the_keys(t);
    law_visit_own_keys(t);
}

proof fn lemma_prefixed_distinct(k: Seq<char>, ps: Seq<KeyPath>)
    requires
        ps.no_duplicates(),
    ensures
        prefixed(k, ps).no_duplicates(),
{
    let r = prefixed(k, ps);
    assert forall|i: int, j: int| 0 <= i < r.len() && 0 <= j < r.len() && i != j implies r[i] != r[j] by {
        assert(r[i].drop_first() =~= ps[i]);
        assert(r[j].drop_first() =~= ps[j]);
    }
}

proof fn lemma_entries_keys_distinct(es: Seq<(Seq<char>, TranslationTree)>)
    requires
        forall|i: int, j: int| 0 <= i < es.len() && 0 <= j < es.len() && i != j ==> es[i].0 != es[j].0,
        forall|i: int| 0 <= i < es.len() ==> #[trigger] keys(es[i].1).no_duplicates(),
    ensures
        entries_keys(es).no_duplicates(),
    decreases es.len(),
{
    if es.len() > 0 {
        let d = es.drop_last();
        assert forall|i: int| 0 <= i < d.len() implies #[trigger] keys(d[i].1).no_duplicates() by {
            assert(d[i] == es[i]);
        }
        assert forall|i: int, j: int| 0 <= i < d.len() && 0 <= j < d.len() && i != j implies d[i].0 != d[j].0 by {
            assert(d[i] == es[i] && d[j] == es[j]);
        }
        lemma_entries_keys_distinct(d);
        let last = es[es.len() - 1];
        assert(keys(last.1).no_duplicates());
        lemma_prefixed_distinct(last.0, keys(last.1));
        let a = entries_keys(d);
        let b = prefixed(last.0, keys(last.1));
        let s = a + b;
        assert forall|x: int, y: int| 0 <= x < s.len() && 0 <= y < s.len() && x != y implies s[x] != s[y] by {
            if x < a.len() && y >= a.len() {
                assert(s[x] == a[x] && s[y] == b[y - a.len()]);
                assert(a.contains(a[x]));
                lemma_entries_keys_contains(d, a[x]);
                let m = choose|m: int|
                    0 <= m < d.len() && a[x].len() > 0 && a[x][0] == #[trigger] d[m].0 && keys(
                        d[m].1,
                    ).contains(a[x].drop_first());
                assert(d[m] == es[m]);
                assert(b[y - a.len()][0] == last.0);
            } else if y < a.len() && x >= a.len() {
                assert(s[y] == a[y] && s[x] == b[x - a.len()]);
                assert(a.contains(a[y]));
                lemma_entries_keys_contains(d, a[y]);
                let m = choose|m: int|
                    0 <= m < d.len() && a[y].len() > 0 && a[y][0] == #[trigger] d[m].0 && keys(
                        d[m].1,
                    ).contains(a[y].drop_first());
                assert(d[m] == es[m]);
                assert(b[x - a.len()][0] == last.0);
            } else if x < a.len() {
                assert(s[x] == a[x] && s[y] == a[y]);
            } else {
                assert(s[x] == b[x - a.len()] && s[y] == b[y - a.len()]);
            }
        }
    }
}

/// A well-formed document lists no key path twice: `get_keys` gives every
/// path to a value exactly once.
pub proof fn law_keys_are_distinct(t: TranslationTree)
    requires
        well_formed(t),
    ensures
        keys(t).no_duplicates(),
    decreases t,
{
    if let TranslationTree::Branch { entries: es, .. } = t {
        lemma_entries_well_formed(es);
        assert forall|i: int| 0 <= i < es.len() implies #[trigger] keys(es[i].1).no_duplicates() by {
            law_keys_are_distinct(es[i].1);
        }
        lemma_entries_keys_distinct(es);
    }
}

} // verus!
