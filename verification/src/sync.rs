//! Bringing the mirror directory up to date, one step at a time.
//!
//! The registry decides what is to be done; the caller does it and reports
//! what came of it. The directory is looked for first, and made where it
//! is missing. After that each entry whose path ends in a file name is
//! inspected, and copied where its copy is missing or older than the
//! file itself. The first failure ends the run.
//!
//! The entries are dealt with in the order in which their aliases were
//! first registered. Entries whose paths end in the same file name share
//! one copy: each of them in its turn overwrites it where it is older
//! than that entry's file.

use vstd::prelude::*;
use vstd::string::*;
use crate::cache::{FileCache, Registry};
use crate::path::{file_name, final_component, join, joined};

verus! {

/// One step of a synchronisation, as contracts see it.
pub ghost enum Step {
    FindDirectory { path: Seq<char> },
    CreateDirectory { path: Seq<char> },
    Inspect { entry: nat, source: Seq<char>, destination: Seq<char> },
    Copy { entry: nat, source: Seq<char>, destination: Seq<char> },
    Done,
    Failed,
}

/// What the caller is to do next.
#[derive(Debug, PartialEq, Eq)]
pub enum SyncStep {
    /// Find out whether the directory at `path` exists.
    FindDirectory { path: String },
    /// Create the directory at `path`.
    CreateDirectory { path: String },
    /// Find out whether `destination` exists and, if it does, when it and
    /// `source` were last modified.
    Inspect { entry: usize, source: String, destination: String },
    /// Copy `source` to `destination`.
    Copy { entry: usize, source: String, destination: String },
    /// Every entry has been dealt with.
    Done,
    /// A step failed: nothing more is to be done.
    Failed,
}

impl View for SyncStep {
    type V = Step;

    open spec fn view(&self) -> Step {
        match self {
            SyncStep::FindDirectory { path } => Step::FindDirectory { path: path@ },
            SyncStep::CreateDirectory { path } => Step::CreateDirectory { path: path@ },
            SyncStep::Inspect { entry, source, destination } => Step::Inspect {
                entry: *entry as nat,
                source: source@,
                destination: destination@,
            },
            SyncStep::Copy { entry, source, destination } => Step::Copy {
                entry: *entry as nat,
                source: source@,
                destination: destination@,
            },
            SyncStep::Done => Step::Done,
            SyncStep::Failed => Step::Failed,
        }
    }
}

/// What came of a step. Times are in nanoseconds since the Unix epoch,
/// negative before it.
#[derive(Clone, Copy, Debug, PartialEq, Eq, Structural)]
pub enum SyncOutcome {
    /// There is no such directory.
    DirectoryMissing,
    /// The directory exists: it was found, or has been created.
    DirectoryReady,
    /// Nothing exists at the destination.
    DestinationMissing,
    /// The destination exists: when it and the source were last modified.
    Modified { source: i128, destination: i128 },
    /// The file was copied.
    Copied,
    /// The step could not be carried out.
    Failed,
}

/// The inspection of the first entry at or behind `from` whose path ends
/// in a file name, or `Done` when there is none.
pub open spec fn task_from(registry: Registry, from: nat) -> Step
    decreases registry.entries.len() - from,
{
    if from >= registry.entries.len() {
        Step::Done
    } else {
        let source = registry.entries[from as int].source_path;
        match final_component(source) {
            Some(name) => Step::Inspect {
                entry: from,
                source,
                destination: joined(registry.cache_directory, name),
            },
            None => task_from(registry, from + 1),
        }
    }
}

/// The first step of a synchronisation.
pub open spec fn first_step(registry: Registry) -> Step {
    Step::FindDirectory { path: registry.cache_directory }
}

/// The step that follows `step`, once it came to `outcome`.
///
/// The directory is created when it is missing. A file is copied when its
/// copy is missing, or was last modified strictly before the file itself.
/// A failure, or an outcome that does not belong to the step, ends the run.
pub open spec fn next_step(registry: Registry, step: Step, outcome: SyncOutcome) -> Step {
    match (step, outcome) {
        (Step::FindDirectory { path }, SyncOutcome::DirectoryMissing) => Step::CreateDirectory {
            path,
        },
        (Step::FindDirectory { .. }, SyncOutcome::DirectoryReady) => task_from(registry, 0),
        (Step::CreateDirectory { .. }, SyncOutcome::DirectoryReady) => task_from(registry, 0),
        (Step::Inspect { entry, source, destination }, SyncOutcome::DestinationMissing) => {
            Step::Copy { entry, source, destination }
        },
        (
            Step::Inspect { entry, source, destination },
            SyncOutcome::Modified { source: source_time, destination: destination_time },
        ) => {
            if destination_time < source_time {
                Step::Copy { entry, source, destination }
            } else {
                task_from(registry, entry + 1)
            }
        },
        (Step::Copy { entry, .. }, SyncOutcome::Copied) => task_from(registry, entry + 1),
        (Step::Done, _) => Step::Done,
        _ => Step::Failed,
    }
}

/// A bound on the number of steps that can still follow `step`.
pub open spec fn steps_left(registry: Registry, step: Step) -> nat {
    let count = registry.entries.len() as int;
    match step {
        Step::FindDirectory { .. } => (2 * count + 4) as nat,
        Step::CreateDirectory { .. } => (2 * count + 3) as nat,
        Step::Inspect { entry, .. } => if entry < count {
            (2 * (count - entry) + 2) as nat
        } else {
            2
        },
        Step::Copy { entry, .. } => if entry < count {
            (2 * (count - entry) + 1) as nat
        } else {
            1
        },
        Step::Done => 0,
        Step::Failed => 0,
    }
}

/// `task_from` passes over exactly the entries whose paths end in no file
/// name: it inspects the first of the others, and is done only when none
/// is left.
pub proof fn lemma_task_from(registry: Registry, from: nat)
    ensures
        match task_from(registry, from) {
            Step::Inspect { entry, source, destination } => {
                &&& from <= entry < registry.entries.len()
                &&& source == registry.entries[entry as int].source_path
                &&& final_component(source) matches Some(name) && destination == joined(
                    registry.cache_directory,
                    name,
                )
                &&& forall|k: int|
                    from <= k < entry ==> final_component(
                        (#[trigger] registry.entries[k]).source_path,
                    ) is None
            },
            Step::Done => forall|k: int|
                from <= k < registry.entries.len() ==> final_component(
                    (#[trigger] registry.entries[k]).source_path,
                ) is None,
            _ => false,
        },
    decreases registry.entries.len() - from,
{
    if from < registry.entries.len() {
        if final_component(registry.entries[from as int].source_path) is None {
            lemma_task_from(registry, from + 1);
        }
    }
}

/// Every step but the last brings the end nearer: a run takes at most
/// `steps_left(registry, first_step(registry))` steps.
pub proof fn lemma_steps_run_out(registry: Registry, step: Step, outcome: SyncOutcome)
    requires
        !(step is Done),
        !(step is Failed),
    ensures
        steps_left(registry, next_step(registry, step, outcome)) < steps_left(registry, step),
{
    lemma_task_from(registry, 0);
    match step {
        Step::Inspect { entry, .. } => {
            lemma_task_from(registry, entry + 1);
        },
        Step::Copy { entry, .. } => {
            lemma_task_from(registry, entry + 1);
        },
        _ => {},
    }
}

/// A copy that is not older than its file is left alone: after an
/// inspection the file is copied exactly when its copy is missing or was
/// last modified strictly before it.
pub proof fn lemma_copied_only_when_stale(
    registry: Registry,
    entry: nat,
    source: Seq<char>,
    destination: Seq<char>,
    outcome: SyncOutcome,
)
    ensures
        next_step(registry, Step::Inspect { entry, source, destination }, outcome) is Copy <==> (
        outcome is DestinationMissing || (outcome matches SyncOutcome::Modified {
            source: source_time,
            destination: destination_time,
        } && destination_time < source_time)),
{
    lemma_task_from(registry, entry + 1);
}

impl FileCache {
    /// The inspection of the first entry at or behind `from` whose path
    /// ends in a file name.
    fn task(&self, from: usize) -> (step: SyncStep)
        ensures
            step@ == task_from(self@, from as nat),
    {
        let mut i: usize = from;
        while i < self.len()
            invariant
                task_from(self@, from as nat) == task_from(self@, i as nat),
            decreases self@.entries.len() - i,
        {
            let source = self.source_path(i);
            match file_name(source) {
                Some(name) => {
                    let destination = join(self.output_dir(), name.as_str());
                    return SyncStep::Inspect { entry: i, source: source.to_owned(), destination };
                },
                None => {},
            }
            i += 1;
        }
        SyncStep::Done
    }

    /// Begins a synchronisation: the first step is to look for the mirror
    /// directory.
    pub fn copy_files(&self) -> (step: SyncStep)
        ensures
            step@ == first_step(self@),
    {
        SyncStep::FindDirectory { path: self.output_dir().to_owned() }
    }

    /// The step that follows `step`, which came to `outcome`.
    pub fn copy_files_next(&self, step: &SyncStep, outcome: SyncOutcome) -> (next: SyncStep)
        ensures
            next@ == next_step(self@, step@, outcome),
    {
        match step {
            SyncStep::FindDirectory { path } => match outcome {
                SyncOutcome::DirectoryMissing => SyncStep::CreateDirectory { path: path.clone() },
                SyncOutcome::DirectoryReady => self.task(0),
                _ => SyncStep::Failed,
            },
            SyncStep::CreateDirectory { .. } => match outcome {
                SyncOutcome::DirectoryReady => self.task(0),
                _ => SyncStep::Failed,
            },
            SyncStep::Inspect { entry, source, destination } => match outcome {
                SyncOutcome::DestinationMissing => SyncStep::Copy {
                    entry: *entry,
                    source: source.clone(),
                    destination: destination.clone(),
                },
                SyncOutcome::Modified { source: source_time, destination: destination_time } => {
                    if destination_time < source_time {
                        SyncStep::Copy {
                            entry: *entry,
                            source: source.clone(),
                            destination: destination.clone(),
                        }
                    } else {
                        self.task_after(*entry)
                    }
                },
                _ => SyncStep::Failed,
            },
            SyncStep::Copy { entry, .. } => match outcome {
                SyncOutcome::Copied => self.task_after(*entry),
                _ => SyncStep::Failed,
            },
            SyncStep::Done => SyncStep::Done,
            SyncStep::Failed => SyncStep::Failed,
        }
    }

    /// The inspection that follows the entry at `entry`.
    fn task_after(&self, entry: usize) -> (step: SyncStep)
        ensures
            step@ == task_from(self@, (entry + 1) as nat),
    {
        if entry < self.len() {
            self.task(entry + 1)
        } else {
            SyncStep::Done
        }
    }
}

} // verus!
