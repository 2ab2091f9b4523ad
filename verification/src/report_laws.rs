//! What the diff reports hold: one line per reported key, one block per
//! compared file, every diff of every part that is collected.
use vstd::prelude::*;

use crate::diff::{
    DiffResult, DiffResults, concat_diffs, diff_report, entry_report, key_lines, results_report,
};
use crate::tree::{KeyPath, join_key};

verus! {

/// Flattening a sequence with one more piece at its end appends that piece.
pub proof fn lemma_flatten_push<A>(x: Seq<Seq<A>>, y: Seq<A>)
    ensures
        x.push(y).flatten() == x.flatten() + y,
{
    vstd::seq_lib::lemma_flatten_concat(x, seq![y]);
    assert(x + seq![y] =~= x.push(y));
    assert(seq![y].drop_first() =~= Seq::<Seq<A>>::empty());
    assert(seq![y].flatten() == y + Seq::<Seq<A>>::empty().flatten());
    assert(y + Seq::<A>::empty() =~= y);
}

/// The line that reports the key path at index `i` of `ks`.
pub open spec fn key_line(label: Seq<char>, ks: Seq<KeyPath>, i: usize) -> Seq<char> {
    label + join_key(ks[i as int]) + "\n"@
}

/// The report of keys holds exactly one line per index of `idxs`, in their
/// order: the `j`-th line is the label and the dotted key path at index
/// `idxs[j]` of `ks`.
pub proof fn law_key_lines_one_per_index(label: Seq<char>, idxs: Seq<usize>, ks: Seq<KeyPath>)
    ensures
        key_lines(label, idxs, ks) == Seq::new(idxs.len(), |j: int| key_line(label, ks, idxs[j])).flatten(),
    decreases idxs.len(),
{
    let lines = Seq::new(idxs.len(), |j: int| key_line(label, ks, idxs[j]));
    if idxs.len() == 0 {
        assert(lines =~= Seq::<Seq<char>>::empty());
    } else {
        let d = idxs.drop_last();
        law_key_lines_one_per_index(label, d, ks);
        let prev = Seq::new(d.len(), |j: int| key_line(label, ks, d[j]));
        assert(lines =~= prev.push(key_line(label, ks, idxs.last())));
        lemma_flatten_push(prev, key_line(label, ks, idxs.last()));
        assert(key_lines(label, idxs, ks) =~= key_lines(label, d, ks) + key_line(label, ks, idxs.last()));
    }
}

/// The block that reports one entry: its report and an empty line.
pub open spec fn entry_block(d: DiffResult, base_keys: Seq<KeyPath>) -> Seq<char> {
    entry_report(d, base_keys) + "\n"@
}

/// The combined report holds one block per entry, in order, whatever the
/// entries are: a diff or an error, no entry ends the report early.
pub proof fn law_results_report_every_entry(ds: Seq<DiffResult>, base_keys: Seq<KeyPath>)
    ensures
        results_report(ds, base_keys) == Seq::new(ds.len(), |i: int| entry_block(ds[i], base_keys)).flatten(),
    decreases ds.len(),
{
    let blocks = Seq::new(ds.len(), |i: int| entry_block(ds[i], base_keys));
    if ds.len() == 0 {
        assert(blocks =~= Seq::<Seq<char>>::empty());
    } else {
        let d = ds.drop_last();
        law_results_report_every_entry(d, base_keys);
        let prev = Seq::new(d.len(), |i: int| entry_block(d[i], base_keys));
        assert(blocks =~= prev.push(entry_block(ds.last(), base_keys)));
        lemma_flatten_push(prev, entry_block(ds.last(), base_keys));
        assert(results_report(ds, base_keys) =~= results_report(d, base_keys) + entry_block(ds.last(), base_keys));
    }
}

/// Collecting parts keeps every diff of every part, in order: the diffs of
/// the first part, then those of the second, and so on.
pub proof fn law_collect_keeps_every_diff(parts: Seq<DiffResults>)
    ensures
        concat_diffs(parts) == Seq::new(parts.len(), |i: int| parts[i].diffs@).flatten(),
    decreases parts.len(),
{
    let all = Seq::new(parts.len(), |i: int| parts[i].diffs@);
    if parts.len() == 0 {
        assert(all =~= Seq::<Seq<DiffResult>>::empty());
    } else {
        let d = parts.drop_last();
        law_collect_keeps_every_diff(d);
        let prev = Seq::new(d.len(), |i: int| d[i].diffs@);
        assert(all =~= prev.push(parts.last().diffs@));
        lemma_flatten_push(prev, parts.last().diffs@);
    }
}

/// The number of diffs collected is the sum of the numbers in the parts.
pub open spec fn diff_count(parts: Seq<DiffResults>) -> nat
    decreases parts.len(),
{
    if parts.len() == 0 {
        0
    } else {
        diff_count(parts.drop_last()) + parts.last().diffs@.len()
    }
}

/// Collecting parts loses no diff: there are as many as in all the parts
/// together, and the `j`-th diff of part `i` stands after all the diffs of
/// the parts before it.
pub proof fn law_collect_counts(parts: Seq<DiffResults>)
    ensures
        concat_diffs(parts).len() == diff_count(parts),
        forall|i: int, j: int|
            0 <= i < parts.len() && 0 <= j < parts[i].diffs@.len() ==> concat_diffs(parts)[diff_count(
                parts.take(i),
            ) + j] == #[trigger] parts[i].diffs@[j],
    decreases parts.len(),
{
    if parts.len() > 0 {
        let d = parts.drop_last();
        law_collect_counts(d);
        assert forall|i: int, j: int|
            0 <= i < parts.len() && 0 <= j < parts[i].diffs@.len() implies concat_diffs(parts)[diff_count(
                parts.take(i),
            ) + j] == #[trigger] parts[i].diffs@[j] by {
            let c = concat_diffs(parts);
            assert(c == concat_diffs(d) + parts.last().diffs@);
            if i < d.len() {
                assert(parts.take(i) =~= d.take(i));
                assert(d[i] == parts[i]);
                lemma_count_prefix(d, i);
                assert(concat_diffs(d)[diff_count(d.take(i)) + j] == d[i].diffs@[j]);
                assert(c[diff_count(d.take(i)) + j] == concat_diffs(d)[diff_count(d.take(i)) + j]);
            } else {
                assert(parts.take(i) =~= d);
                assert(c[diff_count(d) + j] == parts.last().diffs@[j]);
            }
        }
    }
}

proof fn lemma_count_prefix(parts: Seq<DiffResults>, i: int)
    requires
        0 <= i < parts.len(),
    ensures
        diff_count(parts.take(i)) + parts[i].diffs@.len() <= diff_count(parts),
    decreases parts.len(),
{
    let d = parts.drop_last();
    if i == parts.len() - 1 {
        assert(parts.take(i) =~= d);
    } else {
        assert(parts.take(i) =~= d.take(i));
        lemma_count_prefix(d, i);
    }
}


/// The `i`-th piece of a dotted key: the name, after a dot unless it comes
/// first.
pub open spec fn dotted_piece(p: KeyPath, i: int) -> Seq<char> {
    if i == 0 {
        p[i]
    } else {
        seq!['.'] + p[i]
    }
}

/// The dotted text of a key path holds every name of the path, in order,
/// with a dot between each two of them.
pub proof fn law_join_key_every_name(p: KeyPath)
    ensures
        join_key(p) == Seq::new(p.len(), |i: int| dotted_piece(p, i)).flatten(),
    decreases p.len(),
{
    let pieces = Seq::new(p.len(), |i: int| dotted_piece(p, i));
    if p.len() == 0 {
        assert(pieces =~= Seq::<Seq<char>>::empty());
    } else {
        let d = p.drop_last();
        law_join_key_every_name(d);
        let prev = Seq::new(d.len(), |i: int| dotted_piece(d, i));
        assert forall|i: int| 0 <= i < d.len() implies dotted_piece(d, i) == dotted_piece(p, i) by {
            assert(d[i] == p[i]);
        }
        assert(pieces =~= prev.push(dotted_piece(p, p.len() - 1)));
        lemma_flatten_push(prev, dotted_piece(p, p.len() - 1));
        if p.len() == 1 {
            assert(prev =~= Seq::<Seq<char>>::empty());
            assert(Seq::<char>::empty() + p[0] =~= p[0]);
        } else {
            assert(join_key(p) =~= join_key(d) + (seq!['.'] + p.last()));
        }
    }
}


/// The lines that report the key paths of `ks` at the indices `idxs`, one
/// line per index.
pub open spec fn listed_lines(label: Seq<char>, idxs: Seq<usize>, ks: Seq<KeyPath>) -> Seq<char> {
    Seq::new(idxs.len(), |j: int| key_line(label, ks, idxs[j])).flatten()
}

/// The report of one file names the file, then says "nothing." when no key
/// is missing or extra; otherwise it lists, under their headings, one line
/// for every missing key of the base and one for every extra key of the
/// file, in the order of their indices.
pub proof fn law_diff_report_lists_every_key(
    path: Seq<char>,
    missing: Seq<usize>,
    extra: Seq<usize>,
    base_keys: Seq<KeyPath>,
    own_keys: Seq<KeyPath>,
)
    ensures
        missing.len() == 0 && extra.len() == 0 ==> diff_report(path, missing, extra, base_keys, own_keys)
            == "Diff for "@ + path + "\n"@ + "nothing.\n"@,
        missing.len() > 0 && extra.len() == 0 ==> diff_report(path, missing, extra, base_keys, own_keys)
            == "Diff for "@ + path + "\n"@ + "missing keys:\n"@ + listed_lines("Missing key: "@, missing, base_keys),
        missing.len() == 0 && extra.len() > 0 ==> diff_report(path, missing, extra, base_keys, own_keys)
            == "Diff for "@ + path + "\n"@ + "extra keys:\n"@ + listed_lines("Extra key: "@, extra, own_keys),
        missing.len() > 0 && extra.len() > 0 ==> diff_report(path, missing, extra, base_keys, own_keys)
            == "Diff for "@ + path + "\n"@ + "missing keys:\n"@ + listed_lines("Missing key: "@, missing, base_keys)
            + "extra keys:\n"@ + listed_lines("Extra key: "@, extra, own_keys),
{
    law_key_lines_one_per_index("Missing key: "@, missing, base_keys);
    law_key_lines_one_per_index("Extra key: "@, extra, own_keys);
    let h = "Diff for "@ + path + "\n"@;
    let ms = "missing keys:\n"@ + listed_lines("Missing key: "@, missing, base_keys);
    let es = "extra keys:\n"@ + listed_lines("Extra key: "@, extra, own_keys);
    if missing.len() > 0 && extra.len() == 0 {
        assert(ms + Seq::<char>::empty() =~= ms);
    }
    if missing.len() == 0 && extra.len() > 0 {
        assert(Seq::<char>::empty() + es =~= es);
    }
    if missing.len() > 0 && extra.len() > 0 {
        assert(h + (ms + es) =~= h + "missing keys:\n"@ + listed_lines("Missing key: "@, missing, base_keys)
            + "extra keys:\n"@ + listed_lines("Extra key: "@, extra, own_keys));
    }
    if missing.len() > 0 && extra.len() == 0 {
        assert(h + ms =~= h + "missing keys:\n"@ + listed_lines("Missing key: "@, missing, base_keys));
    }
    if missing.len() == 0 && extra.len() > 0 {
        assert(h + es =~= h + "extra keys:\n"@ + listed_lines("Extra key: "@, extra, own_keys));
    }
}

} // verus!
