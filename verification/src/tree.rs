//! The mathematical model of a translation document and the specifications
//! of the operations on it.
use vstd::prelude::*;

verus! {

/// A key path: the names walked from the root down to a node.
pub type KeyPath = Seq<Seq<char>>;

/// A key path in which every name carries the position it is expected at
/// in the order of the node that holds it.
pub type OrderedPath = Seq<(Seq<char>, int)>;

/// The mathematical model of a translation document: a leaf holds a text and
/// a flag that records whether a walk reached it; a branch holds its entries
/// (a map from names to subtrees, as a sequence) and the order in which the
/// names were written.
pub enum TranslationTree {
    Leaf { text: Seq<char>, visited: bool },
    Branch { entries: Seq<(Seq<char>, TranslationTree)>, order: Seq<Seq<char>> },
}

/// The first index of an entry named `k`.
pub open spec fn find(es: Seq<(Seq<char>, TranslationTree)>, k: Seq<char>) -> Option<int>
    decreases es.len(),
{
    if es.len() == 0 {
        None
    } else {
        match find(es.drop_last(), k) {
            Some(i) => Some(i),
            None => if es.last().0 == k {
                Some(es.len() - 1)
            } else {
                None
            },
        }
    }
}

/// `find` gives the first index of an entry with the name, if any.
pub proof fn lemma_find(es: Seq<(Seq<char>, TranslationTree)>, k: Seq<char>)
    ensures
        match find(es, k) {
            Some(i) => 0 <= i < es.len() && es[i].0 == k && forall|j: int|
                0 <= j < i ==> es[j].0 != k,
            None => forall|j: int| 0 <= j < es.len() ==> es[j].0 != k,
        },
    decreases es.len(),
{
    if es.len() > 0 {
        let d = es.drop_last();
        lemma_find(d, k);
        match find(d, k) {
            Some(i) => {
                assert forall|j: int| 0 <= j < i implies es[j].0 != k by {
                    assert(d[j] == es[j]);
                }
                assert(d[i] == es[i]);
            },
            None => {
                assert forall|j: int| 0 <= j < d.len() implies es[j].0 != k by {
                    assert(d[j] == es[j]);
                }
            },
        }
    }
}

/// The first index at which `k` occurs in `s`.
pub open spec fn first_index(s: Seq<Seq<char>>, k: Seq<char>) -> Option<int>
    decreases s.len(),
{
    if s.len() == 0 {
        None
    } else {
        match first_index(s.drop_last(), k) {
            Some(i) => Some(i),
            None => if s.last() == k {
                Some(s.len() - 1)
            } else {
                None
            },
        }
    }
}

/// `first_index` gives the first index of the name, if any.
pub proof fn lemma_first_index(s: Seq<Seq<char>>, k: Seq<char>)
    ensures
        match first_index(s, k) {
            Some(i) => 0 <= i < s.len() && s[i] == k && forall|j: int| 0 <= j < i ==> s[j] != k,
            None => !s.contains(k),
        },
    decreases s.len(),
{
    if s.len() > 0 {
        let d = s.drop_last();
        lemma_first_index(d, k);
        match first_index(d, k) {
            Some(i) => {
                assert forall|j: int| 0 <= j < i implies s[j] != k by {
                    assert(d[j] == s[j]);
                }
                assert(d[i] == s[i]);
            },
            None => {
                assert forall|j: int| 0 <= j < d.len() implies s[j] != k by {
                    assert(d[j] == s[j]);
                    assert(!d.contains(k));
                }
                if s.last() != k {
                    assert forall|j: int| 0 <= j < s.len() implies s[j] != k by {
                        if j < d.len() {
                            assert(d[j] == s[j]);
                        }
                    }
                }
            },
        }
    }
}

/// The node that `p` leads to, walking from `t`.
pub open spec fn node_at(t: TranslationTree, p: KeyPath) -> Option<TranslationTree>
    decreases p.len(),
{
    if p.len() == 0 {
        Some(t)
    } else {
        match t {
            TranslationTree::Leaf { .. } => None,
            TranslationTree::Branch { entries, .. } => match find(entries, p[0]) {
                Some(i) => node_at(entries[i].1, p.drop_first()),
                None => None,
            },
        }
    }
}

/// `p` leads from `t` to a leaf.
pub open spec fn has_leaf(t: TranslationTree, p: KeyPath) -> bool {
    node_at(t, p) matches Some(TranslationTree::Leaf { .. })
}

/// No two entries carry the same name.
pub open spec fn distinct_names(es: Seq<(Seq<char>, TranslationTree)>) -> bool {
    forall|i: int, j: int| 0 <= i < es.len() && 0 <= j < es.len() && i != j ==> es[i].0 != es[j].0
}

/// Every branch of `t` is a map: no name occurs twice among its entries.
pub open spec fn well_formed(t: TranslationTree) -> bool
    decreases t,
{
    match t {
        TranslationTree::Leaf { .. } => true,
        TranslationTree::Branch { entries, .. } => distinct_names(entries) && entries_well_formed(
            entries,
        ),
    }
}

/// Every subtree of the entries is well formed.
pub open spec fn entries_well_formed(es: Seq<(Seq<char>, TranslationTree)>) -> bool
    decreases es,
{
    if es.len() == 0 {
        true
    } else {
        entries_well_formed(es.drop_last()) && well_formed(es.last().1)
    }
}

/// Every name of every branch of `t` occurs in that branch's order.
pub open spec fn orders_cover(t: TranslationTree) -> bool
    decreases t,
{
    match t {
        TranslationTree::Leaf { .. } => true,
        TranslationTree::Branch { entries, order } => entries_ordered(entries, order)
            && entries_orders_cover(entries),
    }
}

/// Every name of the entries occurs in `order`.
pub open spec fn entries_ordered(es: Seq<(Seq<char>, TranslationTree)>, order: Seq<Seq<char>>) -> bool {
    forall|i: int| 0 <= i < es.len() ==> order.contains(#[trigger] es[i].0)
}

/// Every subtree of the entries has its names in its orders.
pub open spec fn entries_orders_cover(es: Seq<(Seq<char>, TranslationTree)>) -> bool
    decreases es,
{
    if es.len() == 0 {
        true
    } else {
        entries_orders_cover(es.drop_last()) && orders_cover(es.last().1)
    }
}

/// `ps` with the name `k` put in front of each path.
pub open spec fn prefixed(k: Seq<char>, ps: Seq<KeyPath>) -> Seq<KeyPath> {
    ps.map_values(|p: KeyPath| seq![k] + p)
}

/// The key paths of all leaves of `t`, in the order of the entries.
pub open spec fn keys(t: TranslationTree) -> Seq<KeyPath>
    decreases t,
{
    match t {
        TranslationTree::Leaf { .. } => seq![Seq::empty()],
        TranslationTree::Branch { entries, .. } => entries_keys(entries),
    }
}

/// The key paths of the leaves below the entries, in their order.
pub open spec fn entries_keys(es: Seq<(Seq<char>, TranslationTree)>) -> Seq<KeyPath>
    decreases es,
{
    if es.len() == 0 {
        Seq::empty()
    } else {
        entries_keys(es.drop_last()) + prefixed(es.last().0, keys(es.last().1))
    }
}

/// The position at which `k` is expected: its first index in `order`.
pub open spec fn position(order: Seq<Seq<char>>, k: Seq<char>) -> int {
    match first_index(order, k) {
        Some(i) => i,
        None => -1,
    }
}

/// `ps` with the name `k`, at position `pos`, put in front of each path.
pub open spec fn prefixed_ordered(k: Seq<char>, pos: int, ps: Seq<OrderedPath>) -> Seq<
    OrderedPath,
> {
    ps.map_values(|p: OrderedPath| seq![(k, pos)] + p)
}

/// The key paths of all leaves of `t`, each name with its position.
pub open spec fn ordered_keys(t: TranslationTree) -> Seq<OrderedPath>
    decreases t,
{
    match t {
        TranslationTree::Leaf { .. } => seq![Seq::empty()],
        TranslationTree::Branch { entries, order } => entries_ordered_keys(entries, order),
    }
}

/// The ordered key paths of the leaves below the entries.
pub open spec fn entries_ordered_keys(
    es: Seq<(Seq<char>, TranslationTree)>,
    order: Seq<Seq<char>>,
) -> Seq<OrderedPath>
    decreases es,
{
    if es.len() == 0 {
        Seq::empty()
    } else {
        entries_ordered_keys(es.drop_last(), order) + prefixed_ordered(
            es.last().0,
            position(order, es.last().0),
            ordered_keys(es.last().1),
        )
    }
}

/// The names of an ordered path.
pub open spec fn names(p: OrderedPath) -> KeyPath {
    p.map_values(|e: (Seq<char>, int)| e.0)
}

/// The names of every ordered path of `ps`.
pub open spec fn names_of(ps: Seq<OrderedPath>) -> Seq<KeyPath> {
    ps.map_values(|p: OrderedPath| names(p))
}

/// Every leaf of `t` has been reached.
pub open spec fn all_visited(t: TranslationTree) -> bool
    decreases t,
{
    match t {
        TranslationTree::Leaf { visited, .. } => visited,
        TranslationTree::Branch { entries, .. } => entries_all_visited(entries),
    }
}

/// Every leaf below the entries has been reached.
pub open spec fn entries_all_visited(es: Seq<(Seq<char>, TranslationTree)>) -> bool
    decreases es,
{
    if es.len() == 0 {
        true
    } else {
        entries_all_visited(es.drop_last()) && all_visited(es.last().1)
    }
}

/// Walks `p` from `t` and marks the leaf it ends at. The flag says whether
/// the walk ended at a leaf: a walk that meets a leaf while names are left,
/// ends at a branch, or names a missing entry fails and marks nothing.
pub open spec fn visit(t: TranslationTree, p: KeyPath) -> (TranslationTree, bool)
    decreases p.len(),
{
    match t {
        TranslationTree::Leaf { text, .. } => if p.len() == 0 {
            (TranslationTree::Leaf { text, visited: true }, true)
        } else {
            (t, false)
        },
        TranslationTree::Branch { entries, order } => if p.len() == 0 {
            (t, false)
        } else {
            match find(entries, p[0]) {
                None => (t, false),
                Some(i) => {
                    let (c, ok) = visit(entries[i].1, p.drop_first());
                    (
                        TranslationTree::Branch {
                            entries: entries.update(i, (entries[i].0, c)),
                            order,
                        },
                        ok,
                    )
                },
            }
        },
    }
}

/// Walks every path of `ps` in turn and stops at the first one that reaches
/// no leaf, which it returns.
pub open spec fn visit_all(t: TranslationTree, ps: Seq<KeyPath>) -> (TranslationTree, Option<KeyPath>)
    decreases ps.len(),
{
    if ps.len() == 0 {
        (t, None)
    } else {
        let (t1, ok) = visit(t, ps[0]);
        if ok {
            visit_all(t1, ps.drop_first())
        } else {
            (t1, Some(ps[0]))
        }
    }
}

/// Walks the ordered path `p` from `t` and marks the leaf it ends at: a
/// name that is not at its expected position ends the walk, with failure
/// when `cancel_on_miss` holds and with success otherwise. A walk that meets
/// a leaf while names are left fails.
pub open spec fn visit_ordered(t: TranslationTree, p: OrderedPath, cancel_on_miss: bool) -> (
    TranslationTree,
    bool,
)
    decreases p.len(),
{
    match t {
        TranslationTree::Leaf { text, .. } => if p.len() == 0 {
            (TranslationTree::Leaf { text, visited: true }, true)
        } else {
            (t, false)
        },
        TranslationTree::Branch { entries, order } => if p.len() == 0 {
            (t, false)
        } else {
            let (k, pos) = p[0];
            if !(0 <= pos < order.len() && order[pos] == k) {
                (t, !cancel_on_miss)
            } else {
                match find(entries, k) {
                    None => (t, false),
                    Some(i) => {
                        let (c, ok) = visit_ordered(entries[i].1, p.drop_first(), cancel_on_miss);
                        (
                            TranslationTree::Branch {
                                entries: entries.update(i, (entries[i].0, c)),
                                order,
                            },
                            ok,
                        )
                    },
                }
            }
        },
    }
}

/// Walks every ordered path of `ps` in turn and stops at the first one that
/// fails, which it returns.
pub open spec fn visit_ordered_all(t: TranslationTree, ps: Seq<OrderedPath>, cancel_on_miss: bool) -> (
    TranslationTree,
    Option<OrderedPath>,
)
    decreases ps.len(),
{
    if ps.len() == 0 {
        (t, None)
    } else {
        let (t1, ok) = visit_ordered(t, ps[0], cancel_on_miss);
        if ok {
            visit_ordered_all(t1, ps.drop_first(), cancel_on_miss)
        } else {
            (t1, Some(ps[0]))
        }
    }
}

/// The order that sorting gives a branch: the names of `intended` that
/// `current` holds, in the order of `intended`, then the names of `current`
/// that `intended` lacks, in the order of `current`.
pub open spec fn merged_order(intended: Seq<Seq<char>>, current: Seq<Seq<char>>) -> Seq<Seq<char>> {
    intended.filter(|k: Seq<char>| current.contains(k)) + current.filter(
        |k: Seq<char>| !intended.contains(k),
    )
}

/// The error for a value that faces a map of the base.
pub open spec fn value_map_divergence() -> Seq<char> {
    "self and other diverged, self being value, other map"@
}

/// The error for a map that faces a value of the base.
pub open spec fn map_value_divergence() -> Seq<char> {
    "self and other diverged, self being map, other value"@
}

/// Sorts `t` after `other`: every branch of `t` gets the merged order of the
/// branch at the same place in `other`, and descends into the entries that
/// `other` holds too. A leaf facing a branch, or a branch facing a leaf,
/// ends the walk with an error.
pub open spec fn apply_order(t: TranslationTree, other: TranslationTree) -> (
    TranslationTree,
    Result<(), Seq<char>>,
)
    decreases t, 0int,
{
    match t {
        TranslationTree::Leaf { .. } => match other {
            TranslationTree::Leaf { .. } => (t, Ok(())),
            TranslationTree::Branch { .. } => (t, Err(value_map_divergence())),
        },
        TranslationTree::Branch { entries, order } => match other {
            TranslationTree::Leaf { .. } => (t, Err(map_value_divergence())),
            TranslationTree::Branch { entries: other_entries, order: other_order } => {
                let (es, r) = apply_order_entries(entries, other_entries);
                (
                    TranslationTree::Branch { entries: es, order: merged_order(other_order, order) },
                    r,
                )
            },
        },
    }
}

/// Sorts the entries in turn after the entries of the same name in
/// `other`, and stops at the first error.
pub open spec fn apply_order_entries(
    es: Seq<(Seq<char>, TranslationTree)>,
    other: Seq<(Seq<char>, TranslationTree)>,
) -> (Seq<(Seq<char>, TranslationTree)>, Result<(), Seq<char>>)
    decreases es, 1int,
{
    if es.len() == 0 {
        (es, Ok(()))
    } else {
        let (c, r) = match find(other, es[0].0) {
            Some(j) => apply_order(es[0].1, other[j].1),
            None => (es[0].1, Ok(())),
        };
        let head = seq![(es[0].0, c)];
        match r {
            Err(e) => (head + es.drop_first(), Err(e)),
            Ok(_) => {
                let (rest, r2) = apply_order_entries(es.drop_first(), other);
                (head + rest, r2)
            },
        }
    }
}

/// The first `i + 1` elements are the first `i` and then the `i`-th.
pub proof fn lemma_take_step<A>(s: Seq<A>, i: int)
    requires
        0 <= i < s.len(),
    ensures
        s.take(i + 1).len() > 0,
        s.take(i + 1).drop_last() == s.take(i),
        s.take(i + 1).last() == s[i],
{
    assert(s.take(i + 1).drop_last() =~= s.take(i));
}

/// `entries_all_visited` holds when every subtree holds `all_visited`.
pub proof fn lemma_entries_all_visited(es: Seq<(Seq<char>, TranslationTree)>)
    ensures
        entries_all_visited(es) <==> forall|i: int| 0 <= i < es.len() ==> #[trigger] all_visited(es[i].1),
    decreases es.len(),
{
    if es.len() > 0 {
        let d = es.drop_last();
        lemma_entries_all_visited(d);
        if entries_all_visited(es) {
            assert forall|i: int| 0 <= i < es.len() implies #[trigger] all_visited(es[i].1) by {
                if i < d.len() {
                    assert(d[i] == es[i]);
                }
            }
        }
        if forall|i: int| 0 <= i < es.len() ==> #[trigger] all_visited(es[i].1) {
            assert forall|i: int| 0 <= i < d.len() implies #[trigger] all_visited(d[i].1) by {
                assert(d[i] == es[i]);
            }
            assert(all_visited(es[es.len() - 1].1));
        }
    }
}

/// `entries_well_formed` holds when every subtree is well formed.
pub proof fn lemma_entries_well_formed(es: Seq<(Seq<char>, TranslationTree)>)
    ensures
        entries_well_formed(es) <==> forall|i: int| 0 <= i < es.len() ==> #[trigger] well_formed(es[i].1),
    decreases es.len(),
{
    if es.len() > 0 {
        let d = es.drop_last();
        lemma_entries_well_formed(d);
        if entries_well_formed(es) {
            assert forall|i: int| 0 <= i < es.len() implies #[trigger] well_formed(es[i].1) by {
                if i < d.len() {
                    assert(d[i] == es[i]);
                }
            }
        }
        if forall|i: int| 0 <= i < es.len() ==> #[trigger] well_formed(es[i].1) {
            assert forall|i: int| 0 <= i < d.len() implies #[trigger] well_formed(d[i].1) by {
                assert(d[i] == es[i]);
            }
            assert(well_formed(es[es.len() - 1].1));
        }
    }
}

/// `entries_orders_cover` holds when every subtree holds `orders_cover`.
pub proof fn lemma_entries_orders_cover(es: Seq<(Seq<char>, TranslationTree)>)
    ensures
        entries_orders_cover(es) <==> forall|i: int| 0 <= i < es.len() ==> #[trigger] orders_cover(es[i].1),
    decreases es.len(),
{
    if es.len() > 0 {
        let d = es.drop_last();
        lemma_entries_orders_cover(d);
        if entries_orders_cover(es) {
            assert forall|i: int| 0 <= i < es.len() implies #[trigger] orders_cover(es[i].1) by {
                if i < d.len() {
                    assert(d[i] == es[i]);
                }
            }
        }
        if forall|i: int| 0 <= i < es.len() ==> #[trigger] orders_cover(es[i].1) {
            assert forall|i: int| 0 <= i < d.len() implies #[trigger] orders_cover(d[i].1) by {
                assert(d[i] == es[i]);
            }
            assert(orders_cover(es[es.len() - 1].1));
        }
    }
}

/// The names of `p` joined with dots.
pub open spec fn join_key(p: KeyPath) -> Seq<char>
    decreases p.len(),
{
    if p.len() == 0 {
        Seq::empty()
    } else if p.len() == 1 {
        p[0]
    } else {
        join_key(p.drop_last()) + seq!['.'] + p.last()
    }
}

} // verus!
