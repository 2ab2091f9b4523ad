//! What the JSON text of a document holds: one member per name of every
//! map's order, in that order.
use vstd::prelude::*;

use crate::json::{json_members, json_of, json_string};
use crate::report_laws::lemma_flatten_push;
use crate::tree::{TranslationTree, find, lemma_find};

verus! {

/// The name `k` has an entry among `es` whose JSON text can be written.
pub open spec fn member_ok(es: Seq<(Seq<char>, TranslationTree)>, k: Seq<char>) -> bool {
    match find(es, k) {
        Some(i) => json_of(es[i].1) is Ok,
        None => false,
    }
}

/// The JSON member for the name `k`: its string literal, a colon and the
/// JSON text of its entry.
pub open spec fn member_text(es: Seq<(Seq<char>, TranslationTree)>, k: Seq<char>) -> Seq<char> {
    match find(es, k) {
        Some(i) => match json_of(es[i].1) {
            Ok(v) => json_string(k) + seq![':'] + v,
            Err(_) => Seq::empty(),
        },
        None => Seq::empty(),
    }
}

/// The `i`-th piece of a members list: the member, after a comma unless it
/// comes first.
pub open spec fn member_piece(es: Seq<(Seq<char>, TranslationTree)>, ord: Seq<Seq<char>>, i: int) -> Seq<char> {
    if i == 0 {
        member_text(es, ord[i])
    } else {
        seq![','] + member_text(es, ord[i])
    }
}

/// The members of a JSON object hold one member for every name of the
/// order, in the order's sequence, separated by commas; they can be written
/// exactly when every name of the order has an entry that can be written.
pub proof fn law_json_members_one_per_name(es: Seq<(Seq<char>, TranslationTree)>, ord: Seq<Seq<char>>)
    ensures
        json_members(es, ord) is Ok <==> forall|i: int| 0 <= i < ord.len() ==> #[trigger] member_ok(es, ord[i]),
        json_members(es, ord) is Ok ==> json_members(es, ord) == Ok::<Seq<char>, Seq<char>>(
            Seq::new(ord.len(), |i: int| member_piece(es, ord, i)).flatten(),
        ),
    decreases ord.len(),
{
    let pieces = Seq::new(ord.len(), |i: int| member_piece(es, ord, i));
    if ord.len() == 0 {
        assert(pieces =~= Seq::<Seq<char>>::empty());
    } else {
        let d = ord.drop_last();
        law_json_members_one_per_name(es, d);
        let prev = Seq::new(d.len(), |i: int| member_piece(es, d, i));
        assert forall|i: int| 0 <= i < d.len() implies member_piece(es, d, i) == member_piece(es, ord, i) by {
            assert(d[i] == ord[i]);
        }
        assert(pieces =~= prev.push(member_piece(es, ord, ord.len() - 1)));
        lemma_flatten_push(prev, member_piece(es, ord, ord.len() - 1));
        let k = ord.last();
        assert(ord[ord.len() - 1] == k);
        if let Some(i) = find(es, k) {
            lemma_find(es, k);
        }
        if json_members(es, ord) is Ok {
            assert forall|i: int| 0 <= i < ord.len() implies #[trigger] member_ok(es, ord[i]) by {
                if i < d.len() {
                    assert(d[i] == ord[i]);
                    assert(member_ok(es, d[i]));
                }
            }
            let i = find(es, k).unwrap();
            let v = json_of(es[i].1)->Ok_0;
            let m = json_string(k) + seq![':'] + v;
            assert(member_text(es, k) == m);
            assert(json_members(es, d) is Ok);
            let before = json_members(es, d)->Ok_0;
            assert(before == prev.flatten());
            if ord.len() == 1 {
                assert(prev =~= Seq::<Seq<char>>::empty());
                assert(member_piece(es, ord, 0) == m);
                assert(Seq::<char>::empty() + m =~= m);
                assert(json_members(es, ord) == Ok::<Seq<char>, Seq<char>>(m));
            } else {
                assert(member_piece(es, ord, ord.len() - 1) == seq![','] + m);
                assert(json_members(es, ord) == Ok::<Seq<char>, Seq<char>>(before + seq![','] + m));
                assert(before + seq![','] + m =~= before + (seq![','] + m));
            }
        }
        if forall|i: int| 0 <= i < ord.len() ==> #[trigger] member_ok(es, ord[i]) {
            assert forall|i: int| 0 <= i < d.len() implies #[trigger] member_ok(es, d[i]) by {
                assert(d[i] == ord[i]);
                assert(member_ok(es, ord[i]));
            }
            assert(member_ok(es, ord[ord.len() - 1]));
        }
    }
}

/// The JSON text of a value is its string literal.
pub proof fn law_json_of_value(text: Seq<char>, visited: bool)
    ensures
        json_of(TranslationTree::Leaf { text, visited }) == Ok::<Seq<char>, Seq<char>>(json_string(text)),
{
}

/// The JSON text of a map is an object that holds one member for every
/// name of its order, in that order; it can be written exactly when every
/// name of the order has an entry that can be written.
pub proof fn law_json_of_map(es: Seq<(Seq<char>, TranslationTree)>, ord: Seq<Seq<char>>)
    ensures
        json_of(TranslationTree::Branch { entries: es, order: ord }) is Ok <==> forall|i: int|
            0 <= i < ord.len() ==> #[trigger] member_ok(es, ord[i]),
        json_of(TranslationTree::Branch { entries: es, order: ord }) is Ok ==> json_of(
            TranslationTree::Branch { entries: es, order: ord },
        ) == Ok::<Seq<char>, Seq<char>>(
            seq!['{'] + Seq::new(ord.len(), |i: int| member_piece(es, ord, i)).flatten() + seq!['}'],
        ),
{
    law_json_members_one_per_name(es, ord);
}

} // verus!
