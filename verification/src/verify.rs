//! Whether the key paths of a translation match those of a base.
use vstd::prelude::*;
use vstd::string::StringExecFns;

use crate::keys::KeyToString;
use crate::translation::Translation;
use crate::tree::{
    KeyPath, TranslationTree, all_visited, join_key, keys, names, ordered_keys, orders_cover,
    visit_all, visit_ordered_all,
};

verus! {

/// Walks the key paths of `base` through `t`; with `strict`, every name must
/// also stand at its position in the order of `t`. Gives the tree with the
/// reached values marked and the first path that failed.
pub open spec fn base_pass(t: TranslationTree, base: TranslationTree, strict: bool) -> (
    TranslationTree,
    Option<KeyPath>,
) {
    if strict {
        let (t1, miss) = visit_ordered_all(t, ordered_keys(base), true);
        (
            t1,
            match miss {
                Some(p) => Some(names(p)),
                None => None,
            },
        )
    } else {
        visit_all(t, keys(base))
    }
}

/// The outcome of validating `t`, read from `path`, against `base`: a key
/// path of the base that `t` lacks is reported first; when some value of
/// `t` was not reached, a key path of `t` that the base lacks is reported.
pub open spec fn validation(
    t: TranslationTree,
    base: TranslationTree,
    strict: bool,
    path: Seq<char>,
) -> Result<(), Seq<char>> {
    let (t1, miss) = base_pass(t, base, strict);
    match miss {
        Some(k) => Err("Failed to find '"@ + join_key(k) + "' in '"@ + path + "'"@),
        None => if all_visited(t1) {
            Ok(())
        } else {
            match visit_all(base, keys(t1)).1 {
                Some(k) => Err("Found '"@ + join_key(k) + "' in '"@ + path
                    + "' which is not present in base"@),
                None => Ok(()),
            }
        },
    }
}

/// Validates `translation`, read from `path`, against `base`.
pub fn validate_translation(translation: Translation, base: &Translation, strict: bool, path: &str) -> (r: Result<(), String>)
    requires
        strict ==> orders_cover(base.tree()),
    ensures
        match validation(translation.tree(), base.tree(), strict, path@) {
            Ok(_) => r is Ok,
            Err(e) => r matches Err(m) && m@ == e,
        },
{
    let mut translation = translation;
    let ghost start = translation.tree();
    let visited = if strict {
        translation.visit_ordered_translation::<true>(base)
    } else {
        translation.visit_translation(base)
    };
    proof {
        assert(translation.tree() == base_pass(start, base.tree(), strict).0);
    }
    if let Err(key) = visited {
        let mut message = String::from_str("Failed to find '");
        message.append(key.as_str());
        message.append("' in '");
        message.append(path);
        message.append("'");
        return Err(message);
    }
    if !translation.everything_visited() {
        let mut base_translation: Translation = base.clone();
        if let Err(key) = base_translation.visit_translation(&translation) {
            let mut message = String::from_str("Found '");
            message.append(key.as_str());
            message.append("' in '");
            message.append(path);
            message.append("' which is not present in base");
            return Err(message);
        }
    }
    Ok(())
}

} // verus!
