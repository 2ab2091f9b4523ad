//! The decisions of the walks through directories: what to do with each
//! entry, and how deep a walk may go.
use vstd::prelude::*;

verus! {

/// How many directories deep the walk of the diff command may go.
pub const MAX_DEPTH: usize = 10;

/// What a walk does with an entry of a directory.
#[derive(Debug, Clone, Copy, PartialEq, Eq, Structural)]
pub enum EntryAction {
    /// Walk into the directory.
    Descend,
    /// Handle the file.
    Process,
    /// Leave the entry alone.
    Skip,
}

/// Whether the diff walk, at `depth` directories deep, has gone too deep.
pub fn depth_exceeded(depth: usize) -> (r: bool)
    ensures
        r == (depth >= MAX_DEPTH),
{
    depth >= MAX_DEPTH
}

/// The diff walk descends into directories when it is recursive, and
/// compares every file but the base itself.
pub fn diff_entry_action(recursive: bool, is_dir: bool, is_file: bool, is_base: bool) -> (r: EntryAction)
    ensures
        r == if recursive && is_dir {
            EntryAction::Descend
        } else if is_file && !is_base {
            EntryAction::Process
        } else {
            EntryAction::Skip
        },
{
    if recursive && is_dir {
        EntryAction::Descend
    } else if is_file && !is_base {
        EntryAction::Process
    } else {
        EntryAction::Skip
    }
}

/// The sort walk descends into directories when it is recursive, and sorts
/// every file.
pub fn sort_entry_action(recursive: bool, is_dir: bool, is_file: bool) -> (r: EntryAction)
    ensures
        r == if recursive && is_dir {
            EntryAction::Descend
        } else if is_file {
            EntryAction::Process
        } else {
            EntryAction::Skip
        },
{
    if recursive && is_dir {
        EntryAction::Descend
    } else if is_file {
        EntryAction::Process
    } else {
        EntryAction::Skip
    }
}

/// The verify walk descends into directories only when it is recursive, and
/// validates every file.
pub fn verify_entry_action(recursive: bool, is_dir: bool, is_file: bool) -> (r: EntryAction)
    ensures
        r == if recursive && is_dir {
            EntryAction::Descend
        } else if is_file {
            EntryAction::Process
        } else {
            EntryAction::Skip
        },
{
    if recursive && is_dir {
        EntryAction::Descend
    } else if is_file {
        EntryAction::Process
    } else {
        EntryAction::Skip
    }
}

/// Sorting into an output is allowed only when the source and the output
/// are both files or both directories.
pub fn sort_output_allowed(
    source_is_dir: bool,
    source_is_file: bool,
    output_is_dir: bool,
    output_is_file: bool,
) -> (r: bool)
    ensures
        r == ((source_is_file && output_is_file) || (source_is_dir && output_is_dir)),
{
    let both_dir = source_is_dir && output_is_dir;
    let both_file = source_is_file && output_is_file;
    both_file || both_dir
}

} // verus!
