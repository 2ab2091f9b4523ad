//! Conversions between the forms a key path takes, and its dotted text.
use std::collections::VecDeque;

use vstd::prelude::*;
use vstd::string::StringExecFns;

use crate::tree::{KeyPath, join_key};
use crate::translation::{deques_view, refs_view};

verus! {

/// The key paths that a list of slices of names spells.
pub open spec fn slices_view(v: Seq<&[&String]>) -> Seq<KeyPath> {
    v.map_values(|s: &[&String]| refs_view(s@))
}

/// Slices made from lists made from deques spell the key paths that the
/// deques spell.
pub proof fn lemma_key_slices(
    deques: Seq<VecDeque<&String>>,
    lists: Seq<Vec<&String>>,
    slices: Seq<&[&String]>,
)
    requires
        lists.map_values(|v: Vec<&String>| v@) == deques.map_values(|d: VecDeque<&String>| d@),
        slices.map_values(|s: &[&String]| s@) == lists.map_values(|v: Vec<&String>| v@),
    ensures
        slices_view(slices) == deques_view(deques),
{
    assert(lists.map_values(|v: Vec<&String>| v@).len() == lists.len());
    assert(deques.map_values(|d: VecDeque<&String>| d@).len() == deques.len());
    assert(slices.map_values(|s: &[&String]| s@).len() == slices.len());
    assert forall|j: int| 0 <= j < slices.len() implies #[trigger] slices_view(slices)[j] == deques_view(deques)[j] by {
        assert(slices.map_values(|s: &[&String]| s@)[j] == slices[j]@);
        assert(lists.map_values(|v: Vec<&String>| v@)[j] == lists[j]@);
        assert(deques.map_values(|d: VecDeque<&String>| d@)[j] == deques[j]@);
    }
    assert(slices_view(slices) =~= deques_view(deques));
}

/// Turns a list of lists into a list of slices of them.
pub trait ToSliceArr<T> {
    spec fn rows(&self) -> Seq<Seq<T>>;

    fn to_slice(&self) -> (r: Vec<&[T]>)
        ensures
            r@.map_values(|s: &[T]| s@) == self.rows(),
    ;
}

impl<T> ToSliceArr<T> for Vec<Vec<T>> {
    open spec fn rows(&self) -> Seq<Seq<T>> {
        self@.map_values(|v: Vec<T>| v@)
    }

    fn to_slice(&self) -> (r: Vec<&[T]>) {
        let mut r: Vec<&[T]> = Vec::new();
        let mut i: usize = 0;
        while i < self.len()
            invariant
                i <= self.len(),
                r@.len() == i,
                forall|j: int| 0 <= j < i ==> #[trigger] r@[j]@ == self@[j]@,
            decreases self.len() - i,
        {
            r.push(self[i].as_slice());
            i += 1;
        }
        proof {
            assert(r@.map_values(|s: &[T]| s@) =~= self.rows());
        }
        r
    }
}

/// Turns a deque of names into a list of them.
pub trait IntoKey<'a>: Sized {
    spec fn key_refs(&self) -> Seq<&'a String>;

    fn to_key(self) -> (r: Vec<&'a String>)
        ensures
            r@ == self.key_refs(),
    ;
}

impl<'a> IntoKey<'a> for VecDeque<&'a String> {
    open spec fn key_refs(&self) -> Seq<&'a String> {
        self@
    }

    fn to_key(self) -> (r: Vec<&'a String>) {
        let mut r: Vec<&'a String> = Vec::new();
        let mut i: usize = 0;
        while i < self.len()
            invariant
                i <= self@.len(),
                r@ == self@.take(i as int),
            decreases self@.len() - i,
        {
            r.push(self[i]);
            proof {
                assert(r@ =~= self@.take(i + 1));
            }
            i += 1;
        }
        proof {
            assert(self@.take(self@.len() as int) =~= self@);
        }
        r
    }
}

/// Turns every deque of names of a list into a list of names.
pub trait ToKeyArray<'a>: Sized {
    spec fn key_lists(&self) -> Seq<Seq<&'a String>>;

    fn keys(self) -> (r: Vec<Vec<&'a String>>)
        ensures
            r@.map_values(|v: Vec<&'a String>| v@) == self.key_lists(),
    ;
}

impl<'a> ToKeyArray<'a> for Vec<VecDeque<&'a String>> {
    open spec fn key_lists(&self) -> Seq<Seq<&'a String>> {
        self@.map_values(|d: VecDeque<&'a String>| d@)
    }

    fn keys(self) -> (r: Vec<Vec<&'a String>>) {
        let ghost orig = self@;
        let mut rest = self;
        let mut r: Vec<Vec<&'a String>> = Vec::new();
        while rest.len() > 0
            invariant
                r@.len() + rest@.len() == orig.len(),
                rest@ == orig.skip(r@.len() as int),
                forall|j: int| 0 <= j < r@.len() ==> #[trigger] r@[j]@ == orig[j]@,
            decreases rest@.len(),
        {
            let d = rest.remove(0);
            proof {
                assert(rest@ =~= orig.skip(r@.len() as int + 1));
            }
            r.push(d.to_key());
        }
        proof {
            assert(r@.map_values(|v: Vec<&'a String>| v@) =~= orig.map_values(
                |d: VecDeque<&'a String>| d@,
            ));
        }
        r
    }
}

/// The dotted text of a key path.
pub trait KeyToString: Sized {
    spec fn key_path(&self) -> KeyPath;

    fn to_string(self) -> (r: String)
        ensures
            r@ == join_key(self.key_path()),
    ;
}

/// Appends `name` to the dotted text of the names before it.
fn append_name(text: &mut String, name: &String, first: bool)
    ensures
        final(text)@ == if first {
            old(text)@ + name@
        } else {
            old(text)@ + seq!['.'] + name@
        },
{
    if !first {
        proof {
            reveal_strlit(".");
        }
        text.append(".");
    }
    text.append(name.as_str());
}

proof fn lemma_join_step(p: KeyPath, i: int)
    requires
        0 <= i < p.len(),
    ensures
        join_key(p.take(i + 1)) == if i == 0 {
            p[0]
        } else {
            join_key(p.take(i)) + seq!['.'] + p[i]
        },
{
    assert(p.take(i + 1).drop_last() =~= p.take(i));
}

impl KeyToString for &[&String] {
    open spec fn key_path(&self) -> KeyPath {
        refs_view(self@)
    }

    fn to_string(self) -> (r: String) {
        let ghost p = refs_view(self@);
        let mut r = String::new();
        let mut i: usize = 0;
        proof {
            assert(p.take(0) =~= Seq::<Seq<char>>::empty());
        }
        while i < self.len()
            invariant
                i <= self@.len(),
                p == refs_view(self@),
                r@ == join_key(p.take(i as int)),
            decreases self@.len() - i,
        {
            proof {
                lemma_join_step(p, i as int);
            }
            append_name(&mut r, self[i], i == 0);
            i += 1;
        }
        proof {
            assert(p.take(self@.len() as int) =~= p);
        }
        r
    }
}

impl KeyToString for &[(&String, usize)] {
    open spec fn key_path(&self) -> KeyPath {
        self@.map_values(|e: (&String, usize)| e.0@)
    }

    fn to_string(self) -> (r: String) {
        let ghost p = self.key_path();
        let mut r = String::new();
        let mut i: usize = 0;
        proof {
            assert(p.take(0) =~= Seq::<Seq<char>>::empty());
        }
        while i < self.len()
            invariant
                i <= self@.len(),
                p == self@.map_values(|e: (&String, usize)| e.0@),
                r@ == join_key(p.take(i as int)),
            decreases self@.len() - i,
        {
            proof {
                lemma_join_step(p, i as int);
            }
            append_name(&mut r, self[i].0, i == 0);
            i += 1;
        }
        proof {
            assert(p.take(self@.len() as int) =~= p);
        }
        r
    }
}

impl KeyToString for VecDeque<&String> {
    open spec fn key_path(&self) -> KeyPath {
        refs_view(self@)
    }

    fn to_string(self) -> (r: String) {
        let ghost p = refs_view(self@);
        let mut r = String::new();
        let mut i: usize = 0;
        proof {
            assert(p.take(0) =~= Seq::<Seq<char>>::empty());
        }
        while i < self.len()
            invariant
                i <= self@.len(),
                p == refs_view(self@),
                r@ == join_key(p.take(i as int)),
            decreases self@.len() - i,
        {
            proof {
                lemma_join_step(p, i as int);
            }
            append_name(&mut r, self[i], i == 0);
            i += 1;
        }
        proof {
            assert(p.take(self@.len() as int) =~= p);
        }
        r
    }
}

} // verus!
