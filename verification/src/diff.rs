//! The differences between the key paths of a translation and those of a
//! base, and the report that lists them.
use std::collections::VecDeque;

use vstd::prelude::*;
use vstd::string::StringExecFns;

use crate::keys::{KeyToString, ToKeyArray, ToSliceArr, lemma_key_slices, slices_view};
use crate::translation::{Translation, refs_view};
use crate::tree::{KeyPath, TranslationTree, has_leaf, join_key, keys, lemma_take_step};

verus! {

/// The indices of the paths of `ps` that lead to no value of `t`.
pub open spec fn unmatched(ps: Seq<KeyPath>, t: TranslationTree) -> Seq<usize>
    decreases ps.len(),
{
    if ps.len() == 0 {
        Seq::empty()
    } else if has_leaf(t, ps.last()) {
        unmatched(ps.drop_last(), t)
    } else {
        unmatched(ps.drop_last(), t).push((ps.len() - 1) as usize)
    }
}

/// Every index of `idxs` is below `n`.
pub open spec fn indices_below(idxs: Seq<usize>, n: nat) -> bool {
    forall|i: int| 0 <= i < idxs.len() ==> #[trigger] idxs[i] < n
}

/// The differences of one file: the indices of the base's key paths that it
/// lacks, and of its own key paths that the base lacks.
#[derive(Debug)]
pub struct Diff {
    /// Indices into the key paths of the base.
    pub missing: Vec<usize>,
    /// Indices into the key paths of `translation`.
    pub extra: Vec<usize>,
    pub translation: Translation,
    pub file_path: String,
}

/// The differences of one file, or why they could not be found.
pub type DiffResult = Result<Diff, String>;

/// Compares `translation` with `base`, whose key paths are `base_keys`.
pub fn diff_translation(
    translation: Translation,
    file_path: String,
    base: &Translation,
    base_keys: &Vec<&[&String]>,
) -> (r: Diff)
    ensures
        r.missing@ == unmatched(slices_view(base_keys@), translation.tree()),
        r.extra@ == unmatched(keys(translation.tree()), base.tree()),
        r.translation == translation,
        r.file_path == file_path,
{
    let mut extra: Vec<usize> = Vec::new();
    let mut missing: Vec<usize> = Vec::new();
    let ghost own = keys(translation.tree());
    let deques = translation.get_keys();
    let lists = deques.keys();
    let own_keys = lists.to_slice();
    proof {
        lemma_key_slices(deques@, lists@, own_keys@);
        assert forall|j: int| 0 <= j < own_keys@.len() implies #[trigger] refs_view(own_keys@[j]@) == own[j] by {
            assert(slices_view(own_keys@)[j] == refs_view(own_keys@[j]@));
        }
        assert(own.take(0) =~= Seq::<KeyPath>::empty());
    }
    let mut i: usize = 0;
    while i < own_keys.len()
        invariant
            i <= own_keys@.len(),
            own_keys@.len() == own.len(),
            forall|j: int| 0 <= j < own_keys@.len() ==> #[trigger] refs_view(own_keys@[j]@) == own[j],
            extra@ == unmatched(own.take(i as int), base.tree()),
        decreases own_keys@.len() - i,
    {
        proof {
            lemma_take_step(own, i as int);
        }
        if !base.contains_key(own_keys[i]) {
            extra.push(i);
        }
        i += 1;
    }
    proof {
        assert(own.take(own.len() as int) =~= own);
    }
    let ghost bk = slices_view(base_keys@);
    let mut m: usize = 0;
    proof {
        assert(bk.take(0) =~= Seq::<KeyPath>::empty());
    }
    while m < base_keys.len()
        invariant
            m <= base_keys@.len(),
            bk == slices_view(base_keys@),
            missing@ == unmatched(bk.take(m as int), translation.tree()),
        decreases base_keys@.len() - m,
    {
        proof {
            lemma_take_step(bk, m as int);
        }
        if !translation.contains_key(base_keys[m]) {
            missing.push(m);
        }
        m += 1;
    }
    proof {
        assert(bk.take(bk.len() as int) =~= bk);
    }
    Diff { missing, extra, translation, file_path }
}

/// Every reported index points at a key path.
pub proof fn lemma_unmatched_below(ps: Seq<KeyPath>, t: TranslationTree)
    ensures
        indices_below(unmatched(ps, t), ps.len()),
    decreases ps.len(),
{
    if ps.len() > 0 {
        lemma_unmatched_below(ps.drop_last(), t);
    }
}

/// The report lines for the key paths of `ks` at the indices `idxs`.
pub open spec fn key_lines(label: Seq<char>, idxs: Seq<usize>, ks: Seq<KeyPath>) -> Seq<char>
    decreases idxs.len(),
{
    if idxs.len() == 0 {
        Seq::empty()
    } else {
        key_lines(label, idxs.drop_last(), ks) + label + join_key(ks[idxs.last() as int]) + "\n"@
    }
}

/// The report of one file's differences.
pub open spec fn diff_report(
    path: Seq<char>,
    missing: Seq<usize>,
    extra: Seq<usize>,
    base_keys: Seq<KeyPath>,
    own_keys: Seq<KeyPath>,
) -> Seq<char> {
    "Diff for "@ + path + "\n"@ + if missing.len() == 0 && extra.len() == 0 {
        "nothing.\n"@
    } else {
        (if missing.len() > 0 {
            "missing keys:\n"@ + key_lines("Missing key: "@, missing, base_keys)
        } else {
            Seq::empty()
        }) + (if extra.len() > 0 {
            "extra keys:\n"@ + key_lines("Extra key: "@, extra, own_keys)
        } else {
            Seq::empty()
        })
    }
}

/// Appends to `out` one line per index of `idxs`: `label`, then the dotted
/// key path at that index of `ks`.
fn push_key_lines(out: &mut String, label: &str, idxs: &Vec<usize>, ks: &Vec<&[&String]>)
    requires
        indices_below(idxs@, ks@.len()),
    ensures
        final(out)@ == old(out)@ + key_lines(label@, idxs@, slices_view(ks@)),
{
    let ghost start = out@;
    let mut i: usize = 0;
    proof {
        assert(idxs@.take(0) =~= Seq::<usize>::empty());
    }
    while i < idxs.len()
        invariant
            i <= idxs@.len(),
            indices_below(idxs@, ks@.len()),
            out@ == start + key_lines(label@, idxs@.take(i as int), slices_view(ks@)),
        decreases idxs@.len() - i,
    {
        proof {
            lemma_take_step(idxs@, i as int);
        }
        let idx = idxs[i];
        let key = ks[idx].to_string();
        out.append(label);
        out.append(key.as_str());
        out.append("\n");
        proof {
            assert(slices_view(ks@)[idx as int] == refs_view(ks@[idx as int]@));
            assert(out@ =~= start + key_lines(label@, idxs@.take(i + 1), slices_view(ks@)));
        }
        i += 1;
    }
    proof {
        assert(idxs@.take(idxs@.len() as int) =~= idxs@);
    }
}

/// Whether every index of `idxs` is below `n`.
fn indices_below_exec(idxs: &Vec<usize>, n: usize) -> (r: bool)
    ensures
        r == indices_below(idxs@, n as nat),
{
    let mut i: usize = 0;
    while i < idxs.len()
        invariant
            i <= idxs@.len(),
            forall|j: int| 0 <= j < i ==> #[trigger] idxs@[j] < n,
        decreases idxs@.len() - i,
    {
        if idxs[i] >= n {
            return false;
        }
        i += 1;
    }
    true
}

/// A file's differences together with the key paths of the base they index.
pub struct DiffWithBase<'a> {
    pub diff: &'a Diff,
    pub base_keys: &'a Vec<&'a [&'a String]>,
}

impl<'a> DiffWithBase<'a> {
    pub fn new(diff: &'a Diff, base_keys: &'a Vec<&'a [&'a String]>) -> (r: Self)
        ensures
            r.diff == diff,
            r.base_keys == base_keys,
    {
        Self { diff, base_keys }
    }

    /// The report of the differences: the file, then "nothing." or the
    /// missing and the extra key paths, one per line.
    pub fn render(&self) -> (r: String)
        requires
            indices_below(self.diff.missing@, self.base_keys@.len()),
            indices_below(self.diff.extra@, keys(self.diff.translation.tree()).len()),
        ensures
            r@ == diff_report(
                self.diff.file_path@,
                self.diff.missing@,
                self.diff.extra@,
                slices_view(self.base_keys@),
                keys(self.diff.translation.tree()),
            ),
    {
        let mut out = String::from_str("Diff for ");
        out.append(self.diff.file_path.as_str());
        out.append("\n");
        if self.diff.missing.len() == 0 && self.diff.extra.len() == 0 {
            out.append("nothing.\n");
            return out;
        }
        let ghost head = out@;
        if self.diff.missing.len() > 0 {
            out.append("missing keys:\n");
            push_key_lines(&mut out, "Missing key: ", &self.diff.missing, self.base_keys);
        }
        let ghost middle = out@;
        if self.diff.extra.len() > 0 {
            let ghost own = keys(self.diff.translation.tree());
            let deques = self.diff.translation.get_keys();
            let lists = deques.keys();
            let own_keys = lists.to_slice();
            proof {
                lemma_key_slices(deques@, lists@, own_keys@);
            }
            out.append("extra keys:\n");
            push_key_lines(&mut out, "Extra key: ", &self.diff.extra, &own_keys);
        }
        proof {
            assert(out@ =~= diff_report(
                self.diff.file_path@,
                self.diff.missing@,
                self.diff.extra@,
                slices_view(self.base_keys@),
                keys(self.diff.translation.tree()),
            ));
        }
        out
    }
}

/// The differences found for a set of files, and the base they were found
/// against.
#[derive(Debug)]
pub struct DiffResults {
    pub diffs: Vec<DiffResult>,
    pub base: Option<Translation>,
}

/// The diffs of every part, in turn.
pub open spec fn concat_diffs(parts: Seq<DiffResults>) -> Seq<DiffResult>
    decreases parts.len(),
{
    if parts.len() == 0 {
        Seq::empty()
    } else {
        concat_diffs(parts.drop_last()) + parts.last().diffs@
    }
}

/// The report of one entry of a [`DiffResults`].
pub open spec fn entry_report(d: DiffResult, base_keys: Seq<KeyPath>) -> Seq<char> {
    match d {
        Ok(d) => diff_report(
            d.file_path@,
            d.missing@,
            d.extra@,
            base_keys,
            keys(d.translation.tree()),
        ),
        Err(e) => "An error occured: "@ + e@ + "\n"@,
    }
}

/// The report of all entries, each followed by an empty line.
pub open spec fn results_report(ds: Seq<DiffResult>, base_keys: Seq<KeyPath>) -> Seq<char>
    decreases ds.len(),
{
    if ds.len() == 0 {
        Seq::empty()
    } else {
        results_report(ds.drop_last(), base_keys) + entry_report(ds.last(), base_keys) + "\n"@
    }
}

/// The indices of every diff of `ds` are below the number of key paths they
/// index.
pub open spec fn diffs_indexed(ds: Seq<DiffResult>, base_len: nat) -> bool {
    forall|i: int|
        0 <= i < ds.len() ==> (#[trigger] ds[i] matches Ok(d) ==> indices_below(d.missing@, base_len)
            && indices_below(d.extra@, keys(d.translation.tree()).len()))
}

impl DiffResults {
    pub fn new(value: DiffResult) -> (r: Self)
        ensures
            r.diffs@ == seq![value],
            r.base is None,
    {
        let mut diffs: Vec<DiffResult> = Vec::new();
        diffs.push(value);
        proof {
            assert(diffs@ =~= seq![value]);
        }
        Self { diffs, base: None }
    }

    pub fn new_err(err: String) -> (r: Self)
        ensures
            r.diffs@ == seq![Err::<Diff, String>(err)],
            r.base is None,
    {
        let mut diffs: Vec<DiffResult> = Vec::new();
        diffs.push(Err(err));
        proof {
            assert(diffs@ =~= seq![Err::<Diff, String>(err)]);
        }
        Self { diffs, base: None }
    }

    /// Attaches the base that the diffs were found against.
    pub fn base(self, base: Translation) -> (r: Self)
        ensures
            r.diffs == self.diffs,
            r.base == Some(base),
    {
        let mut this = self;
        this.base = Some(base);
        this
    }

    /// The diffs of all parts, in turn, with no base attached.
    pub fn from_iter(parts: Vec<DiffResults>) -> (r: Self)
        ensures
            r.diffs@ == concat_diffs(parts@),
            r.base is None,
    {
        let ghost all = parts@;
        let mut rest = parts;
        let mut diffs: Vec<DiffResult> = Vec::new();
        let mut done: usize = 0;
        let n = rest.len();
        proof {
            assert(all.take(0) =~= Seq::<DiffResults>::empty());
            assert(rest@ =~= all.skip(0));
        }
        while rest.len() > 0
            invariant
                done + rest@.len() == all.len(),
                n == all.len(),
                rest@ == all.skip(done as int),
                diffs@ == concat_diffs(all.take(done as int)),
            decreases rest@.len(),
        {
            let mut part = rest.remove(0);
            proof {
                lemma_take_step(all, done as int);
                assert(part == all[done as int]);
                assert(rest@ =~= all.skip(done + 1));
            }
            diffs.append(&mut part.diffs);
            done += 1;
        }
        proof {
            assert(all.take(all.len() as int) =~= all);
        }
        Self { diffs, base: None }
    }

    /// Whether a base is attached and every index of every diff points at a
    /// key path, as [`DiffResults::render`] needs.
    pub fn can_render(&self) -> (r: bool)
        ensures
            r == (self.base is Some && diffs_indexed(self.diffs@, keys(self.base.unwrap().tree()).len())),
    {
        let base = match &self.base {
            Some(base) => base,
            None => {
                return false;
            },
        };
        let base_len = base.get_keys().len();
        let mut i: usize = 0;
        while i < self.diffs.len()
            invariant
                i <= self.diffs@.len(),
                self.base == Some(*base),
                base_len == keys(base.tree()).len(),
                diffs_indexed(self.diffs@.take(i as int), base_len as nat),
            decreases self.diffs@.len() - i,
        {
            proof {
                lemma_take_step(self.diffs@, i as int);
            }
            if let Ok(diff) = &self.diffs[i] {
                if !indices_below_exec(&diff.missing, base_len) {
                    proof {
                        assert(self.diffs@.take(i + 1)[i as int] == self.diffs@[i as int]);
                        assert(!diffs_indexed(self.diffs@, base_len as nat));
                    }
                    return false;
                }
                let own_len = diff.translation.get_keys().len();
                if !indices_below_exec(&diff.extra, own_len) {
                    proof {
                        assert(!diffs_indexed(self.diffs@, base_len as nat));
                    }
                    return false;
                }
            }
            proof {
                assert forall|j: int| 0 <= j < i + 1 implies (#[trigger] self.diffs@.take(i + 1)[j] matches Ok(d) ==> indices_below(d.missing@, base_len as nat)
                    && indices_below(d.extra@, keys(d.translation.tree()).len())) by {
                    if j < i {
                        assert(self.diffs@.take(i + 1)[j] == self.diffs@.take(i as int)[j]);
                    }
                }
            }
            i += 1;
        }
        proof {
            assert(self.diffs@.take(self.diffs@.len() as int) =~= self.diffs@);
        }
        true
    }

    /// The report of every diff against the key paths of the base.
    pub fn render(&self) -> (r: String)
        requires
            self.base is Some,
            diffs_indexed(self.diffs@, keys(self.base.unwrap().tree()).len()),
        ensures
            r@ == results_report(self.diffs@, keys(self.base.unwrap().tree())),
    {
        let base = match &self.base {
            Some(base) => base,
            None => {
                return String::new();
            },
        };
        let ghost bk = keys(base.tree());
        let deques = base.get_keys();
        let lists = deques.keys();
        let base_keys = lists.to_slice();
        proof {
            lemma_key_slices(deques@, lists@, base_keys@);
        }
        let mut out = String::new();
        let mut i: usize = 0;
        proof {
            assert(self.diffs@.take(0) =~= Seq::<DiffResult>::empty());
        }
        while i < self.diffs.len()
            invariant
                i <= self.diffs@.len(),
                slices_view(base_keys@) == bk,
                diffs_indexed(self.diffs@, bk.len()),
                out@ == results_report(self.diffs@.take(i as int), bk),
            decreases self.diffs@.len() - i,
        {
            proof {
                lemma_take_step(self.diffs@, i as int);
            }
            let ghost before = out@;
            match &self.diffs[i] {
                Ok(diff) => {
                    proof {
                        assert(self.diffs@[i as int] matches Ok(d) && d == *diff);
                    }
                    let text = DiffWithBase::new(diff, &base_keys).render();
                    out.append(text.as_str());
                },
                Err(err) => {
                    out.append("An error occured: ");
                    out.append(err.as_str());
                    out.append("\n");
                },
            }
            out.append("\n");
            proof {
                assert(out@ =~= before + entry_report(self.diffs@[i as int], bk) + "\n"@);
            }
            i += 1;
        }
        proof {
            assert(self.diffs@.take(self.diffs@.len() as int) =~= self.diffs@);
        }
        out
    }
}

impl Default for DiffResults {
    fn default() -> (r: Self)
        ensures
            r.diffs@ == Seq::<DiffResult>::empty(),
            r.base is None,
    {
        Self { diffs: Vec::new(), base: None }
    }
}

} // verus!
