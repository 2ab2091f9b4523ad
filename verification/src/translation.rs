//! The translation document and its operations: looking keys up, listing
//! key paths, walking paths and marking the values reached, and sorting the
//! maps after a base.
use std::collections::VecDeque;

use vstd::prelude::*;

use crate::tree::{
    KeyPath, OrderedPath, TranslationTree, all_visited, apply_order, apply_order_entries,
    entries_keys, entries_ordered_keys, find, first_index, has_leaf, join_key, keys,
    lemma_entries_all_visited, lemma_entries_orders_cover, lemma_find, lemma_first_index,
    lemma_take_step, names, ordered_keys, orders_cover, position, prefixed, prefixed_ordered,
    visit, visit_all, visit_ordered, visit_ordered_all, well_formed,
};
use crate::laws::{law_visit_all_keeps_structure, law_visit_keeps_structure};
use crate::shape_laws::{law_visit_ordered_key_keeps_structure, law_visit_ordered_keeps_structure};
use crate::sort_laws::law_sort_keeps_structure;
use vstd::string::StringExecFns;

use crate::keys::{IntoKey, KeyToString};

verus! {

/// A translation document: a value is a text with a flag that records
/// whether a walk reached it; a map holds its entries, each name once, and
/// the order in which the names were written.
#[derive(Debug)]
pub enum Translation {
    Value(String, bool),
    Nested { content: Vec<(String, Translation)>, order: Vec<String> },
}

/// The texts of a list of strings.
pub open spec fn strings_view(v: Seq<String>) -> Seq<Seq<char>> {
    v.map_values(|s: String| s@)
}

/// The model of a list of entries.
pub open spec fn entries_view(es: Seq<(String, Translation)>) -> Seq<(Seq<char>, TranslationTree)>
    decreases es,
{
    if es.len() == 0 {
        Seq::empty()
    } else {
        let last = es.last();
        entries_view(es.drop_last()).push((last.0@, last.1.tree()))
    }
}

impl Translation {
    /// The model of the document.
    pub open spec fn tree(&self) -> TranslationTree
        decreases *self,
    {
        match self {
            Translation::Value(s, v) => TranslationTree::Leaf { text: s@, visited: *v },
            Translation::Nested { content, order } => TranslationTree::Branch {
                entries: entries_view(content@),
                order: strings_view(order@),
            },
        }
    }
}

/// The model of a list of entries is the list of the entries' models.
pub proof fn lemma_entries_view(es: Seq<(String, Translation)>)
    ensures
        entries_view(es).len() == es.len(),
        forall|i: int| 0 <= i < es.len() ==> #[trigger] entries_view(es)[i] == (es[i].0@, es[i].1.tree()),
    decreases es.len(),
{
    if es.len() > 0 {
        lemma_entries_view(es.drop_last());
    }
}

/// The key path that a list of names spells.
pub open spec fn refs_view(key: Seq<&String>) -> KeyPath {
    key.map_values(|s: &String| s@)
}

/// Replacing one entry replaces its model.
pub proof fn lemma_entries_view_update(es: Seq<(String, Translation)>, i: int, e: (String, Translation))
    requires
        0 <= i < es.len(),
    ensures
        entries_view(es.update(i, e)) == entries_view(es).update(i, (e.0@, e.1.tree())),
{
    lemma_entries_view(es);
    lemma_entries_view(es.update(i, e));
    assert(entries_view(es.update(i, e)) =~= entries_view(es).update(i, (e.0@, e.1.tree())));
}

/// The key path that `key` spells from index `start` on.
pub open spec fn path_from(key: Seq<&String>, start: int) -> KeyPath {
    refs_view(key).skip(start)
}

proof fn lemma_path_from_step(key: Seq<&String>, start: int)
    requires
        0 <= start < key.len(),
    ensures
        path_from(key, start).len() > 0,
        path_from(key, start)[0] == key[start]@,
        path_from(key, start).drop_first() == path_from(key, start + 1),
{
    assert(path_from(key, start).drop_first() =~= path_from(key, start + 1));
}

impl Translation {
    /// The index of the first entry named `k`.
    pub(crate) fn find_entry(content: &Vec<(String, Translation)>, k: &String) -> (r: Option<usize>)
        ensures
            match r {
                Some(i) => i < content.len() && find(entries_view(content@), k@) == Some(i as int),
                None => find(entries_view(content@), k@) is None,
            },
    {
        proof {
            lemma_entries_view(content@);
            lemma_find(entries_view(content@), k@);
        }
        let mut i: usize = 0;
        while i < content.len()
            invariant
                i <= content.len(),
                entries_view(content@).len() == content.len(),
                forall|j: int| 0 <= j < i ==> #[trigger] content@[j].0@ != k@,
                forall|j: int|
                    0 <= j < content@.len() ==> #[trigger] entries_view(content@)[j] == (
                        content@[j].0@,
                        content@[j].1.tree(),
                    ),
                match find(entries_view(content@), k@) {
                    Some(x) => 0 <= x < content.len() && entries_view(content@)[x].0 == k@
                        && forall|j: int| 0 <= j < x ==> entries_view(content@)[j].0 != k@,
                    None => forall|j: int|
                        0 <= j < content.len() ==> entries_view(content@)[j].0 != k@,
                },
            decreases content.len() - i,
        {
            if content[i].0 == *k {
                proof {
                    let x = find(entries_view(content@), k@);
                    assert(entries_view(content@)[i as int].0 == k@);
                    if let Some(x) = x {
                        if x > i {
                            assert(entries_view(content@)[i as int].0 != k@);
                        }
                        if x < i {
                            assert(content@[x].0@ != k@);
                        }
                    }
                }
                return Some(i);
            }
            i += 1;
        }
        None
    }

    /// Whether `key` leads to a value.
    pub fn contains_key(&self, key: &[&String]) -> (r: bool)
        ensures
            r == has_leaf(self.tree(), refs_view(key@)),
    {
        proof {
            assert(path_from(key@, 0) =~= refs_view(key@));
        }
        self.contains_key_from(key, 0)
    }

    fn contains_key_from(&self, key: &[&String], start: usize) -> (r: bool)
        requires
            start <= key@.len(),
        ensures
            r == has_leaf(self.tree(), path_from(key@, start as int)),
        decreases *self,
    {
        match self {
            Translation::Value(_, _) => start == key.len(),
            Translation::Nested { content, .. } => {
                if start >= key.len() {
                    return false;
                }
                proof {
                    lemma_path_from_step(key@, start as int);
                    lemma_entries_view(content@);
                }
                match Self::find_entry(content, key[start]) {
                    None => false,
                    Some(i) => {
                        proof {
                            assert(decreases_to!(*self => content@[i as int].1));
                        }
                        content[i].1.contains_key_from(key, start + 1)
                    },
                }
            },
        }
    }

    /// Marks the value that `key` leads to as visited. Fails, marking
    /// nothing, when `key` does not lead to a value: a name is missing, the
    /// path ends at a map, or it meets a value while names are left.
    pub fn visit_key(&mut self, key: &[&String]) -> (r: Result<(), ()>)
        ensures
            well_formed(old(self).tree()) ==> well_formed(final(self).tree()),
            (final(self).tree(), r is Ok) == visit(old(self).tree(), refs_view(key@)),
    {
        proof {
            law_visit_keeps_structure(old(self).tree(), refs_view(key@));
        }
        proof {
            assert(path_from(key@, 0) =~= refs_view(key@));
        }
        self.visit_key_from(key, 0)
    }

    fn visit_key_from(&mut self, key: &[&String], start: usize) -> (r: Result<(), ()>)
        requires
            start <= key@.len(),
        ensures
            (final(self).tree(), r is Ok) == visit(old(self).tree(), path_from(key@, start as int)),
        decreases *old(self),
    {
        match self {
            Translation::Value(_, visited) => {
                if start < key.len() {
                    return Err(());
                }
                *visited = true;
                Ok(())
            },
            Translation::Nested { content, .. } => {
                if start >= key.len() {
                    return Err(());
                }
                proof {
                    lemma_path_from_step(key@, start as int);
                    lemma_entries_view(content@);
                }
                match Self::find_entry(content, key[start]) {
                    None => Err(()),
                    Some(i) => {
                        proof {
                            assert(decreases_to!(*old(self) => content@[i as int].1));
                        }
                        let ghost before = content@;
                        let r = content[i].1.visit_key_from(key, start + 1);
                        proof {
                            assert(content@ == before.update(i as int, (before[i as int].0, content@[i as int].1)));
                            lemma_entries_view_update(before, i as int, content@[i as int]);
                        }
                        r
                    },
                }
            },
        }
    }

    /// Whether every value has been visited.
    pub fn everything_visited(&self) -> (r: bool)
        ensures
            r == all_visited(self.tree()),
        decreases *self,
    {
        match self {
            Translation::Value(_, visited) => *visited,
            Translation::Nested { content, .. } => {
                proof {
                    lemma_entries_view(content@);
                    lemma_entries_all_visited(entries_view(content@));
                }
                let mut i: usize = 0;
                #[verifier::loop_isolation(false)]
                while i < content.len()
                    invariant
                        i <= content.len(),
                        forall|j: int|
                            0 <= j < content@.len() ==> #[trigger] entries_view(content@)[j] == (
                                content@[j].0@,
                                content@[j].1.tree(),
                            ),
                        forall|j: int| 0 <= j < i ==> #[trigger] all_visited(content@[j].1.tree()),
                    decreases content.len() - i,
                {
                    proof {
                        assert(decreases_to!(*self => content@[i as int].1));
                    }
                    if !content[i].1.everything_visited() {
                        proof {
                            assert(!all_visited(entries_view(content@)[i as int].1));
                        }
                        return false;
                    }
                    i += 1;
                }
                proof {
                    assert forall|j: int| 0 <= j < content@.len() implies #[trigger] all_visited(
                        entries_view(content@)[j].1,
                    ) by {
                        assert(all_visited(content@[j].1.tree()));
                    }
                }
                true
            },
        }
    }
}


impl Translation {
    /// The key paths of all values, one deque of names per value.
    pub fn get_keys(&self) -> (r: Vec<VecDeque<&String>>)
        ensures
            deques_view(r@) == keys(self.tree()),
        decreases *self, 0int,
    {
        match self {
            Translation::Value(_, _) => {
                let mut r: Vec<VecDeque<&String>> = Vec::new();
                r.push(VecDeque::new());
                proof {
                    assert(refs_view(r@[0]@) =~= Seq::<Seq<char>>::empty());
                    assert(deques_view(r@) =~= keys(self.tree()));
                }
                r
            },
            Translation::Nested { content, .. } => {
                proof {
                    lemma_entries_view(content@);
                }
                let ghost ev = entries_view(content@);
                let mut r: Vec<VecDeque<&String>> = Vec::new();
                let mut i: usize = 0;
                proof {
                    assert(deques_view(r@) =~= entries_keys(ev.take(0)));
                }
                #[verifier::loop_isolation(false)]
                while i < content.len()
                    invariant
                        i <= content.len(),
                        deques_view(r@) == entries_keys(ev.take(i as int)),
                    decreases content.len() - i,
                {
                    proof {
                        assert(decreases_to!(*self => content@[i as int].1));
                        lemma_take_step(ev, i as int);
                    }
                    let mut part = Self::get_keys_int((&content[i].0, &content[i].1));
                    let ghost before = r@;
                    r.append(&mut part);
                    proof {
                        assert(deques_view(r@) =~= deques_view(before) + prefixed(
                            content@[i as int].0@,
                            keys(content@[i as int].1.tree()),
                        ));
                    }
                    i += 1;
                }
                proof {
                    assert(ev.take(content.len() as int) =~= ev);
                }
                r
            },
        }
    }

    /// The key paths of the values of `input.1`, each with `input.0` put in
    /// front.
    fn get_keys_int<'a>(input: (&'a String, &'a Translation)) -> (r: Vec<VecDeque<&'a String>>)
        ensures
            deques_view(r@) == prefixed(input.0@, keys(input.1.tree())),
        decreases *input.1, 1int,
    {
        let (key, value) = input;
        let mut sub = value.get_keys();
        let ghost orig = sub@;
        let mut i: usize = 0;
        while i < sub.len()
            invariant
                i <= sub.len(),
                sub@.len() == orig.len(),
                deques_view(orig) == keys(value.tree()),
                forall|j: int| 0 <= j < i ==> #[trigger] refs_view(sub@[j]@) == seq![key@] + refs_view(orig[j]@),
                forall|j: int| i <= j < sub@.len() ==> #[trigger] sub@[j] == orig[j],
            decreases sub.len() - i,
        {
            let ghost d = sub@[i as int]@;
            sub[i].push_front(key);
            proof {
                assert(refs_view(sub@[i as int]@) =~= seq![key@] + refs_view(d));
            }
            i += 1;
        }
        proof {
            assert forall|j: int| 0 <= j < sub@.len() implies #[trigger] deques_view(sub@)[j] == prefixed(key@, keys(value.tree()))[j] by {
                assert(deques_view(orig)[j] == refs_view(orig[j]@));
            }
            assert(deques_view(sub@) =~= prefixed(key@, keys(value.tree())));
        }
        sub
    }
}


impl Translation {
    /// The first index at which `key` occurs in `order`.
    fn get_position(order: &Vec<String>, key: &String) -> (r: usize)
        requires
            strings_view(order@).contains(key@),
        ensures
            r < order.len(),
            r as int == position(strings_view(order@), key@),
            first_index(strings_view(order@), key@) == Some(r as int),
    {
        let ghost ov = strings_view(order@);
        proof {
            lemma_first_index(ov, key@);
        }
        let mut i: usize = 0;
        while i < order.len()
            invariant
                i <= order.len(),
                ov == strings_view(order@),
                ov.len() == order.len(),
                forall|j: int| 0 <= j < i ==> #[trigger] ov[j] != key@,
                match first_index(ov, key@) {
                    Some(x) => 0 <= x < ov.len() && ov[x] == key@ && forall|j: int| 0 <= j < x ==> ov[j] != key@,
                    None => !ov.contains(key@),
                },
            decreases order.len() - i,
        {
            if order[i] == *key {
                proof {
                    assert(ov[i as int] == key@);
                    if let Some(x) = first_index(ov, key@) {
                        if x > i {
                            assert(ov[i as int] != key@);
                        }
                        if x < i {
                            assert(ov[x] != key@);
                        }
                    }
                }
                return i;
            }
            i += 1;
        }
        proof {
            let x = first_index(ov, key@).unwrap();
            assert(ov[x] != key@);
        }
        0
    }

    /// The key paths of all values, each name with the position it is
    /// expected at in the order of its map.
    pub fn get_ordered_keys(&self) -> (r: Vec<VecDeque<(&String, usize)>>)
        requires
            orders_cover(self.tree()),
        ensures
            ordered_deques_view(r@) == ordered_keys(self.tree()),
        decreases *self,
    {
        match self {
            Translation::Value(_, _) => {
                let mut r: Vec<VecDeque<(&String, usize)>> = Vec::new();
                r.push(VecDeque::new());
                proof {
                    assert(r@[0]@.map_values(|e: (&String, usize)| (e.0@, e.1 as int)) =~= Seq::<(Seq<char>, int)>::empty());
                    assert(ordered_deques_view(r@) =~= ordered_keys(self.tree()));
                }
                r
            },
            Translation::Nested { content, order } => {
                proof {
                    lemma_entries_view(content@);
                    lemma_entries_orders_cover(entries_view(content@));
                }
                let ghost ev = entries_view(content@);
                let ghost ov = strings_view(order@);
                let mut r: Vec<VecDeque<(&String, usize)>> = Vec::new();
                let mut i: usize = 0;
                proof {
                    assert(ordered_deques_view(r@) =~= entries_ordered_keys(ev.take(0), ov));
                }
                #[verifier::loop_isolation(false)]
                while i < content.len()
                    invariant
                        i <= content.len(),
                        ordered_deques_view(r@) == entries_ordered_keys(ev.take(i as int), ov),
                    decreases content.len() - i,
                {
                    proof {
                        assert(decreases_to!(*self => content@[i as int].1));
                        lemma_take_step(ev, i as int);
                        assert(ev[i as int] == (content@[i as int].0@, content@[i as int].1.tree()));
                        assert(orders_cover(ev[i as int].1));
                        assert(ov.contains(ev[i as int].0));
                    }
                    let key = &content[i].0;
                    let pos = Self::get_position(order, key);
                    let mut sub = content[i].1.get_ordered_keys();
                    let ghost orig = sub@;
                    let mut j: usize = 0;
                    while j < sub.len()
                        invariant
                            j <= sub.len(),
                            sub@.len() == orig.len(),
                            forall|m: int| 0 <= m < j ==> #[trigger] sub@[m]@ == seq![(key, pos)] + orig[m]@,
                            forall|m: int| j <= m < sub@.len() ==> #[trigger] sub@[m] == orig[m],
                        decreases sub.len() - j,
                    {
                        let ghost d = sub@[j as int]@;
                        sub[j].push_front((key, pos));
                        proof {
                            assert(sub@[j as int]@ =~= seq![(key, pos)] + d);
                        }
                        j += 1;
                    }
                    proof {
                        let pre = prefixed_ordered(key@, pos as int, ordered_keys(content@[i as int].1.tree()));
                        assert forall|m: int| 0 <= m < sub@.len() implies #[trigger] ordered_deques_view(sub@)[m] == pre[m] by {
                            assert(ordered_deques_view(orig)[m] == orig[m]@.map_values(|e: (&String, usize)| (e.0@, e.1 as int)));
                            assert(ordered_deques_view(sub@)[m] =~= pre[m]);
                        }
                        assert(ordered_deques_view(sub@) =~= pre);
                    }
                    let ghost before = r@;
                    r.append(&mut sub);
                    proof {
                        assert(ordered_deques_view(r@) =~= ordered_deques_view(before) + prefixed_ordered(
                            key@,
                            pos as int,
                            ordered_keys(content@[i as int].1.tree()),
                        ));
                    }
                    i += 1;
                }
                proof {
                    assert(ev.take(content.len() as int) =~= ev);
                }
                r
            },
        }
    }
}


/// The ordered path that `key` spells from index `start` on.
pub open spec fn ordered_path_from(key: Seq<(&String, usize)>, start: int) -> OrderedPath {
    key.map_values(|e: (&String, usize)| (e.0@, e.1 as int)).skip(start)
}

proof fn lemma_ordered_path_from_step(key: Seq<(&String, usize)>, start: int)
    requires
        0 <= start < key.len(),
    ensures
        ordered_path_from(key, start).len() > 0,
        ordered_path_from(key, start)[0] == (key[start].0@, key[start].1 as int),
        ordered_path_from(key, start).drop_first() == ordered_path_from(key, start + 1),
{
    assert(ordered_path_from(key, start).drop_first() =~= ordered_path_from(key, start + 1));
}

impl Translation {
    /// Visits every key path of `other` in turn (see [`Translation::visit_key`])
    /// and stops at the first that reaches no value, which it returns in
    /// dotted form.
    pub fn visit_translation(&mut self, other: &Translation) -> (r: Result<(), String>)
        ensures
            well_formed(old(self).tree()) ==> well_formed(final(self).tree()),
            final(self).tree() == visit_all(old(self).tree(), keys(other.tree())).0,
            match visit_all(old(self).tree(), keys(other.tree())).1 {
                None => r is Ok,
                Some(p) => r matches Err(e) && e@ == join_key(p),
            },
    {
        proof {
            law_visit_all_keeps_structure(old(self).tree(), keys(other.tree()));
        }
        let ghost all = keys(other.tree());
        let ghost start = self.tree();
        let mut rest = other.get_keys();
        let n = rest.len();
        let mut done: usize = 0;
        proof {
            assert(deques_view(rest@) =~= all.skip(0));
        }
        while rest.len() > 0
            invariant
                done + rest@.len() == n,
                n == all.len(),
                deques_view(rest@) == all.skip(done as int),
                start == old(self).tree(),
                all == keys(other.tree()),
                visit_all(start, all) == visit_all(self.tree(), all.skip(done as int)),
                well_formed(start) ==> well_formed(visit_all(start, all).0),
            decreases rest@.len(),
        {
            let ghost here = all.skip(done as int);
            let deque = rest.remove(0);
            proof {
                assert(here[0] == refs_view(deque@));
                assert(here.drop_first() =~= all.skip(done + 1));
                assert(deques_view(rest@) =~= all.skip(done + 1));
            }
            let key = deque.to_key();
            let key = key.as_slice();
            let ghost cur = self.tree();
            let visited = self.visit_key(key);
            proof {
                assert(here.len() > 0);
                assert(refs_view(key@) == here[0]);
            }
            if visited.is_err() {
                proof {
                    assert(visit_all(cur, here) == (self.tree(), Some(here[0])));
                }
                let key = key.to_string();
                assert(key@ == join_key(here[0]));
                return Err(key);
            }
            done += 1;
        }
        Ok(())
    }

    /// Marks the value that the ordered path `key` leads to as visited. A
    /// name that is not at its expected position ends the walk: with failure
    /// when `CANCEL_ON_MISS` holds, with success otherwise. A walk that meets
    /// a value while names are left fails.
    pub fn visit_ordered_key<const CANCEL_ON_MISS: bool>(&mut self, key: &[(&String, usize)]) -> (r: Result<(), ()>)
        ensures
            well_formed(old(self).tree()) ==> well_formed(final(self).tree()),
            (final(self).tree(), r is Ok) == visit_ordered(
                old(self).tree(),
                key@.map_values(|e: (&String, usize)| (e.0@, e.1 as int)),
                CANCEL_ON_MISS,
            ),
    {
        proof {
            law_visit_ordered_key_keeps_structure(old(self).tree(), key@.map_values(|e: (&String, usize)| (e.0@, e.1 as int)), CANCEL_ON_MISS);
        }
        proof {
            assert(ordered_path_from(key@, 0) =~= key@.map_values(|e: (&String, usize)| (e.0@, e.1 as int)));
        }
        self.visit_ordered_key_from::<CANCEL_ON_MISS>(key, 0)
    }

    fn visit_ordered_key_from<const CANCEL_ON_MISS: bool>(&mut self, key: &[(&String, usize)], start: usize) -> (r: Result<(), ()>)
        requires
            start <= key@.len(),
        ensures
            (final(self).tree(), r is Ok) == visit_ordered(
                old(self).tree(),
                ordered_path_from(key@, start as int),
                CANCEL_ON_MISS,
            ),
        decreases *old(self),
    {
        match self {
            Translation::Value(_, visited) => {
                if start < key.len() {
                    return Err(());
                }
                *visited = true;
                Ok(())
            },
            Translation::Nested { content, order } => {
                if start >= key.len() {
                    return Err(());
                }
                proof {
                    lemma_ordered_path_from_step(key@, start as int);
                    lemma_entries_view(content@);
                }
                let (first, position) = key[start];
                let is_at_expected_position = position < order.len() && order[position] == *first;
                if !is_at_expected_position {
                    return if CANCEL_ON_MISS {
                        Err(())
                    } else {
                        Ok(())
                    };
                }
                match Self::find_entry(content, first) {
                    None => Err(()),
                    Some(i) => {
                        proof {
                            assert(decreases_to!(*old(self) => content@[i as int].1));
                        }
                        let ghost before = content@;
                        let r = content[i].1.visit_ordered_key_from::<CANCEL_ON_MISS>(key, start + 1);
                        proof {
                            assert(content@ == before.update(i as int, (before[i as int].0, content@[i as int].1)));
                            lemma_entries_view_update(before, i as int, content@[i as int]);
                        }
                        r
                    },
                }
            },
        }
    }

    /// Visits every ordered key path of `other` in turn (see
    /// [`Translation::visit_ordered_key`]) and stops at the first that
    /// fails, which it returns in dotted form.
    pub fn visit_ordered_translation<const CANCEL_ON_MISS: bool>(&mut self, other: &Translation) -> (r: Result<(), String>)
        requires
            orders_cover(other.tree()),
        ensures
            well_formed(old(self).tree()) ==> well_formed(final(self).tree()),
            final(self).tree() == visit_ordered_all(old(self).tree(), ordered_keys(other.tree()), CANCEL_ON_MISS).0,
            match visit_ordered_all(old(self).tree(), ordered_keys(other.tree()), CANCEL_ON_MISS).1 {
                None => r is Ok,
                Some(p) => r matches Err(e) && e@ == join_key(names(p)),
            },
    {
        proof {
            law_visit_ordered_keeps_structure(old(self).tree(), ordered_keys(other.tree()), CANCEL_ON_MISS);
        }
        let ghost all = ordered_keys(other.tree());
        let ghost start = self.tree();
        let mut rest = other.get_ordered_keys();
        let n = rest.len();
        let mut done: usize = 0;
        proof {
            assert(ordered_deques_view(rest@) =~= all.skip(0));
        }
        while rest.len() > 0
            invariant
                done + rest@.len() == n,
                n == all.len(),
                ordered_deques_view(rest@) == all.skip(done as int),
                start == old(self).tree(),
                all == ordered_keys(other.tree()),
                visit_ordered_all(start, all, CANCEL_ON_MISS) == visit_ordered_all(self.tree(), all.skip(done as int), CANCEL_ON_MISS),
                well_formed(start) ==> well_formed(visit_ordered_all(start, all, CANCEL_ON_MISS).0),
            decreases rest@.len(),
        {
            let ghost here = all.skip(done as int);
            let deque = rest.remove(0);
            proof {
                assert(here[0] == deque@.map_values(|e: (&String, usize)| (e.0@, e.1 as int)));
                assert(here.drop_first() =~= all.skip(done + 1));
                assert(ordered_deques_view(rest@) =~= all.skip(done + 1));
            }
            let key = Self::ordered_deque_to_vec(deque);
            let key = key.as_slice();
            let visited = self.visit_ordered_key::<CANCEL_ON_MISS>(key);
            proof {
                assert(here.len() > 0);
                assert(key@.map_values(|e: (&String, usize)| (e.0@, e.1 as int)) == here[0]);
            }
            if visited.is_err() {
                proof {
                    assert(names(here[0]) =~= key@.map_values(|e: (&String, usize)| e.0@));
                }
                let key = key.to_string();
                return Err(key);
            }
            done += 1;
        }
        Ok(())
    }

    /// The positioned names of a deque, as a list.
    fn ordered_deque_to_vec<'a>(d: VecDeque<(&'a String, usize)>) -> (r: Vec<(&'a String, usize)>)
        ensures
            r@ == d@,
    {
        let mut r: Vec<(&'a String, usize)> = Vec::new();
        let mut i: usize = 0;
        while i < d.len()
            invariant
                i <= d@.len(),
                r@ == d@.take(i as int),
            decreases d@.len() - i,
        {
            r.push(d[i]);
            proof {
                assert(r@ =~= d@.take(i + 1));
            }
            i += 1;
        }
        proof {
            assert(d@.take(d@.len() as int) =~= d@);
        }
        r
    }
}


/// Whether `k` occurs in `v`.
fn contains_name(v: &Vec<String>, k: &String) -> (r: bool)
    ensures
        r == strings_view(v@).contains(k@),
{
    let mut i: usize = 0;
    while i < v.len()
        invariant
            i <= v.len(),
            forall|j: int| 0 <= j < i ==> #[trigger] v@[j]@ != k@,
        decreases v.len() - i,
    {
        if v[i] == *k {
            proof {
                assert(strings_view(v@)[i as int] == k@);
            }
            return true;
        }
        i += 1;
    }
    proof {
        if strings_view(v@).contains(k@) {
            let j = choose|j: int| 0 <= j < strings_view(v@).len() && strings_view(v@)[j] == k@;
            assert(v@[j]@ == k@);
        }
    }
    false
}

/// The names of `from` for which `keep` says whether `other` holds them,
/// in the order of `from`.
fn filter_names(from: &Vec<String>, other: &Vec<String>, keep: bool) -> (r: Vec<String>)
    ensures
        keep ==> strings_view(r@) == strings_view(from@).filter(
            |k: Seq<char>| strings_view(other@).contains(k),
        ),
        !keep ==> strings_view(r@) == strings_view(from@).filter(
            |k: Seq<char>| !strings_view(other@).contains(k),
        ),
{
    let ghost fv = strings_view(from@);
    let ghost pred = |k: Seq<char>| strings_view(other@).contains(k) == keep;
    let mut r: Vec<String> = Vec::new();
    let mut i: usize = 0;
    proof {
        reveal(Seq::filter);
        assert(fv.take(0).filter(pred) =~= Seq::<Seq<char>>::empty());
        assert(strings_view(r@) =~= fv.take(0).filter(pred));
    }
    while i < from.len()
        invariant
            i <= from.len(),
            fv == strings_view(from@),
            pred == |k: Seq<char>| strings_view(other@).contains(k) == keep,
            strings_view(r@) == fv.take(i as int).filter(pred),
        decreases from.len() - i,
    {
        proof {
            reveal(Seq::filter);
            lemma_take_step(fv, i as int);
        }
        let ghost before = r@;
        if contains_name(other, &from[i]) == keep {
            r.push(from[i].clone());
            proof {
                assert(strings_view(r@) =~= strings_view(before).push(fv[i as int]));
            }
        }
        i += 1;
    }
    proof {
        assert(fv.take(from.len() as int) =~= fv);
        if keep {
            assert(pred =~= |k: Seq<char>| strings_view(other@).contains(k));
        } else {
            assert(pred =~= |k: Seq<char>| !strings_view(other@).contains(k));
        }
    }
    r
}

impl Translation {
    /// Sorts the names of every map after the map at the same place in
    /// `other`: the names that `other` holds come first, in its order, the
    /// others after them, in their own order. A value facing a map, or a map
    /// facing a value, is an error.
    #[verifier::spinoff_prover]
    #[verifier::rlimit(40)]
    pub fn apply_translation_order(&mut self, other: &Translation) -> (r: Result<(), String>)
        ensures
            well_formed(old(self).tree()) ==> well_formed(final(self).tree()),
            final(self).tree() == apply_order(old(self).tree(), other.tree()).0,
            match apply_order(old(self).tree(), other.tree()).1 {
                Ok(_) => r is Ok,
                Err(e) => r matches Err(m) && m@ == e,
            },
        decreases *old(self),
    {
        proof {
            law_sort_keeps_structure(old(self).tree(), other.tree());
        }
        match self {
            Translation::Value(_, _) => match other {
                Translation::Value(_, _) => Ok(()),
                Translation::Nested { .. } => Err(String::from_str("self and other diverged, self being value, other map")),
            },
            Translation::Nested { content, order: current_order } => match other {
                Translation::Value(_, _) => Err(String::from_str("self and other diverged, self being map, other value")),
                Translation::Nested { content: intended_content, order: intended_order } => {
                    let in_both = filter_names(intended_order, current_order, true);
                    let mut only_current = filter_names(current_order, intended_order, false);
                    let mut new_order = in_both;
                    let ghost first = new_order@;
                    let ghost second = only_current@;
                    new_order.append(&mut only_current);
                    proof {
                        assert(strings_view(new_order@) =~= strings_view(first) + strings_view(second));
                    }
                    *current_order = new_order;
                    proof {
                        lemma_entries_view(content@);
                        lemma_entries_view(intended_content@);
                    }
                    let ghost orig = entries_view(content@);
                    let ghost oes = entries_view(intended_content@);
                    let mut i: usize = 0;
                    proof {
                        assert(orig.skip(0) =~= orig);
                        assert(orig.take(0) + orig =~= orig);
                    }
                    #[verifier::loop_isolation(false)]
                    while i < content.len()
                        invariant
                            i <= content.len(),
                            content@.len() == old(self)->content@.len(),
                            entries_view(content@).skip(i as int) == orig.skip(i as int),
                            forall|j: int| i <= j < content@.len() ==> #[trigger] content@[j] == old(self)->content@[j],
                            ({
                                let x = apply_order_entries(entries_view(content@).skip(i as int), oes);
                                apply_order_entries(orig, oes) == (entries_view(content@).take(i as int) + x.0, x.1)
                            }),
                        decreases content.len() - i,
                    {
                        let ghost cur = entries_view(content@);
                        let ghost here = cur.skip(i as int);
                        proof {
                            lemma_entries_view(content@);
                            assert(here[0] == cur[i as int]);
                            assert(here.drop_first() =~= cur.skip(i + 1));
                        }
                        match Self::find_entry(intended_content, &content[i].0) {
                            None => {
                                proof {
                                    assert(cur.take(i as int) + (seq![here[0]] + apply_order_entries(here.drop_first(), oes).0) =~= cur.take(i + 1) + apply_order_entries(here.drop_first(), oes).0);
                                }
                            },
                            Some(j) => {
                                proof {
                                    assert(content@[i as int] == old(self)->content@[i as int]);
                                    assert(decreases_to!(*old(self) => old(self)->content@[i as int].1));
                                    assert(oes[j as int].1 == intended_content@[j as int].1.tree());
                                }
                                let ghost before = content@;
                                let r = content[i].1.apply_translation_order(&intended_content[j].1);
                                proof {
                                    assert(content@ == before.update(i as int, (before[i as int].0, content@[i as int].1)));
                                    lemma_entries_view_update(before, i as int, content@[i as int]);
                                    let cur2 = entries_view(content@);
                                    assert(cur2 == cur.update(i as int, (cur[i as int].0, content@[i as int].1.tree())));
                                    assert(cur2.skip(i + 1) =~= cur.skip(i + 1));
                                    assert(cur2.take(i as int) =~= cur.take(i as int));
                                    assert(cur2.take(i + 1) =~= cur.take(i as int) + seq![cur2[i as int]]);
                                    assert(cur2.take(i as int) + (seq![cur2[i as int]] + here.drop_first()) =~= cur2);
                                    assert(cur2.take(i as int) + (seq![cur2[i as int]] + apply_order_entries(here.drop_first(), oes).0) =~= cur2.take(i + 1) + apply_order_entries(here.drop_first(), oes).0);
                                }
                                if r.is_err() {
                                    proof {
                                        assert(find(oes, here[0].0) == Some(j as int));
                                        assert(apply_order_entries(here, oes) == (seq![entries_view(content@)[i as int]] + here.drop_first(), apply_order(here[0].1, oes[j as int].1).1));
                                    }
                                    return r;
                                }
                            },
                        }
                        i += 1;
                    }
                    proof {
                        lemma_entries_view(content@);
                        let cur = entries_view(content@);
                        assert(cur.skip(i as int) =~= Seq::empty());
                        assert(cur.take(i as int) + Seq::empty() =~= cur);
                    }
                    Ok(())
                },
            },
        }
    }
}


impl Clone for Translation {
    /// A copy of the whole document, values and orders included.
    fn clone(&self) -> (r: Self)
        ensures
            r.tree() == self.tree(),
        decreases *self,
    {
        match self {
            Translation::Value(text, visited) => Translation::Value(text.clone(), *visited),
            Translation::Nested { content, order } => {
                let mut copied: Vec<(String, Translation)> = Vec::new();
                let mut i: usize = 0;
                #[verifier::loop_isolation(false)]
                while i < content.len()
                    invariant
                        i <= content.len(),
                        copied@.len() == i,
                        forall|j: int| 0 <= j < i ==> #[trigger] copied@[j].0@ == content@[j].0@ && copied@[j].1.tree() == content@[j].1.tree(),
                    decreases content.len() - i,
                {
                    proof {
                        assert(decreases_to!(*self => content@[i as int].1));
                    }
                    let entry = (content[i].0.clone(), content[i].1.clone());
                    copied.push(entry);
                    i += 1;
                }
                let mut order_copy: Vec<String> = Vec::new();
                let mut m: usize = 0;
                #[verifier::loop_isolation(false)]
                while m < order.len()
                    invariant
                        m <= order.len(),
                        order_copy@.len() == m,
                        forall|j: int| 0 <= j < m ==> #[trigger] order_copy@[j]@ == order@[j]@,
                    decreases order.len() - m,
                {
                    order_copy.push(order[m].clone());
                    m += 1;
                }
                proof {
                    lemma_entries_view(content@);
                    lemma_entries_view(copied@);
                    assert(entries_view(copied@) =~= entries_view(content@));
                    assert(strings_view(order_copy@) =~= strings_view(order@));
                }
                Translation::Nested { content: copied, order: order_copy }
            },
        }
    }
}


impl Translation {
    /// Whether every name of every map stands in that map's order, as
    /// [`Translation::get_ordered_keys`] needs.
    pub fn orders_cover_content(&self) -> (r: bool)
        ensures
            r == orders_cover(self.tree()),
        decreases *self,
    {
        match self {
            Translation::Value(_, _) => true,
            Translation::Nested { content, order } => {
                proof {
                    lemma_entries_view(content@);
                    lemma_entries_orders_cover(entries_view(content@));
                }
                let ghost ev = entries_view(content@);
                let ghost ov = strings_view(order@);
                let mut i: usize = 0;
                #[verifier::loop_isolation(false)]
                while i < content.len()
                    invariant
                        i <= content.len(),
                        forall|j: int| 0 <= j < i ==> #[trigger] orders_cover(ev[j].1),
                        forall|j: int| 0 <= j < i ==> ov.contains(#[trigger] ev[j].0),
                    decreases content.len() - i,
                {
                    proof {
                        assert(decreases_to!(*self => content@[i as int].1));
                        assert(ev[i as int] == (content@[i as int].0@, content@[i as int].1.tree()));
                    }
                    let named = contains_name(order, &content[i].0);
                    if !named {
                        proof {
                            assert(!ov.contains(ev[i as int].0));
                            assert(!crate::tree::entries_ordered(ev, ov));
                        }
                        return false;
                    }
                    let covered = content[i].1.orders_cover_content();
                    if !covered {
                        proof {
                            assert(!orders_cover(ev[i as int].1));
                            assert(!crate::tree::entries_orders_cover(ev));
                        }
                        return false;
                    }
                    proof {
                        assert(orders_cover(ev[i as int].1));
                        assert(ov.contains(ev[i as int].0));
                    }
                    i += 1;
                }
                true
            },
        }
    }
}

/// The key paths that a list of deques of names spells.
pub open spec fn deques_view(v: Seq<VecDeque<&String>>) -> Seq<KeyPath> {
    v.map_values(|d: VecDeque<&String>| refs_view(d@))
}

/// The ordered paths that a list of deques of positioned names spells.
pub open spec fn ordered_deques_view(v: Seq<VecDeque<(&String, usize)>>) -> Seq<OrderedPath> {
    v.map_values(|d: VecDeque<(&String, usize)>| d@.map_values(|e: (&String, usize)| (e.0@, e.1 as int)))
}

} // verus!
