//! The decisions around the passes: which crates the second pass reads,
//! what counts as a change, and what the run reports at its end.

use vstd::prelude::*;
use crate::strings::texts;
use crate::strip::StripReport;
use crate::workspace::{features_to_propagate, CrateInfo};

verus! {

/// What a run reports once both passes are done.
#[derive(Debug, PartialEq, Eq)]
pub enum Summary {
    /// Quiet mode and nothing counted: no report.
    Quiet,
    /// No change was counted.
    NoChanges,
    /// Changes were counted; in a dry run they were not written.
    Changes { count: usize, dry_run: bool },
}

/// The report at the end of a run. Quiet mode suppresses it only where no
/// change was counted.
pub fn summarize(quiet: bool, dry_run: bool, count: usize) -> (r: Summary)
    ensures
        r == (if count > 0 {
            Summary::Changes { count, dry_run }
        } else if quiet {
            Summary::Quiet
        } else {
            Summary::NoChanges
        }),
{
    if count > 0 {
        Summary::Changes { count, dry_run }
    } else if quiet {
        Summary::Quiet
    } else {
        Summary::NoChanges
    }
}

/// Whether the second pass has anything to do for a crate: it has one of
/// the features to propagate.
pub fn crate_needs_propagation(c: &CrateInfo, targets: &Vec<String>) -> (r: bool)
    ensures
        r == exists|f: Seq<char>|
            #![trigger texts(targets@).contains(f)]
            texts(targets@).contains(f) && texts(c.features@).contains(f),
{
    let shared = features_to_propagate(c, targets);
    proof {
        if shared.len() > 0 {
            assert(texts(shared@).contains(texts(shared@)[0]));
        }
        if exists|f: Seq<char>|
            #![trigger texts(targets@).contains(f)]
            texts(targets@).contains(f) && texts(c.features@).contains(f) {
            let f = choose|f: Seq<char>|
                #![trigger texts(targets@).contains(f)]
                texts(targets@).contains(f) && texts(c.features@).contains(f);
            assert(texts(shared@).contains(f));
        }
    }
    shared.len() > 0
}

impl StripReport {
    /// The changes of the first pass that the run counts: those in target
    /// tables. Changes in `[dependencies]` and `[dev-dependencies]` are
    /// written but not counted.
    pub fn counted_changes(&self) -> (r: usize)
        ensures
            r == self.targets.len(),
    {
        self.targets.len()
    }

    /// Whether the pass changed the manifest at all, so that it is to be
    /// written.
    pub fn changed(&self) -> (r: bool)
        ensures
            r == (self.dependencies.len() > 0 || self.dev_dependencies.len() > 0
                || self.targets.len() > 0),
    {
        self.dependencies.len() > 0 || self.dev_dependencies.len() > 0 || self.targets.len() > 0
    }
}

} // verus!
