//! What a synchronisation does to the files on a disk, shown on a model
//! of the disk on which every step succeeds that can succeed.

use vstd::prelude::*;
use crate::cache::Registry;
use crate::path::{
    final_component, joined, lemma_final_component_is_file_name, lemma_joined_ends_in_file_name,
};
use crate::sync::{
    first_step, lemma_steps_run_out, lemma_task_from, next_step, steps_left, task_from, Step,
    SyncOutcome,
};

verus! {

/// A file, as far as synchronisation looks at it.
pub ghost struct FileState {
    pub content: Seq<u8>,
    pub modified: i128,
}

/// The files on a disk by their paths, and whether the mirror directory
/// exists on it.
pub ghost struct Disk {
    pub files: Map<Seq<char>, FileState>,
    pub has_directory: bool,
}

/// The disk after the file at `source` was copied to `to` at time `now`.
pub open spec fn with_copy(disk: Disk, source: Seq<char>, to: Seq<char>, now: i128) -> Disk {
    Disk {
        files: disk.files.insert(
            to,
            FileState { content: disk.files[source].content, modified: now },
        ),
        ..disk
    }
}

/// The disk after `step` was carried out at time `now`, and what the step
/// came to.
pub open spec fn carried_out(disk: Disk, step: Step, now: i128) -> (Disk, SyncOutcome) {
    match step {
        Step::FindDirectory { .. } => (
            disk,
            if disk.has_directory {
                SyncOutcome::DirectoryReady
            } else {
                SyncOutcome::DirectoryMissing
            },
        ),
        Step::CreateDirectory { .. } => if disk.has_directory {
            (disk, SyncOutcome::Failed)
        } else {
            (Disk { has_directory: true, ..disk }, SyncOutcome::DirectoryReady)
        },
        Step::Inspect { source, destination, .. } => if !disk.files.contains_key(destination) {
            (disk, SyncOutcome::DestinationMissing)
        } else if disk.files.contains_key(source) {
            (
                disk,
                SyncOutcome::Modified {
                    source: disk.files[source].modified,
                    destination: disk.files[destination].modified,
                },
            )
        } else {
            (disk, SyncOutcome::Failed)
        },
        Step::Copy { source, destination, .. } => if disk.files.contains_key(source) {
            (with_copy(disk, source, destination, now), SyncOutcome::Copied)
        } else {
            (disk, SyncOutcome::Failed)
        },
        Step::Done => (disk, SyncOutcome::Failed),
        Step::Failed => (disk, SyncOutcome::Failed),
    }
}

/// The disk after the run that begins with `step`, and the step at which
/// the run ends.
pub open spec fn run_from(registry: Registry, disk: Disk, step: Step, now: i128) -> (Disk, Step)
    decreases steps_left(registry, step),
{
    if step is Done || step is Failed {
        (disk, step)
    } else {
        let (next_disk, outcome) = carried_out(disk, step, now);
        proof {
            lemma_steps_run_out(registry, step, outcome);
        }
        run_from(registry, next_disk, next_step(registry, step, outcome), now)
    }
}

/// The disk after a whole synchronisation, and the step at which it ends.
pub open spec fn synchronised(registry: Registry, disk: Disk, now: i128) -> (Disk, Step) {
    run_from(registry, disk, first_step(registry), now)
}

/// Where the copy of the file registered at position `i` goes, if its path
/// ends in a file name.
pub open spec fn destination(registry: Registry, i: int) -> Option<Seq<char>> {
    match final_component(registry.entries[i].source_path) {
        Some(name) => Some(joined(registry.cache_directory, name)),
        None => None,
    }
}

/// The copy of a file lies in the mirror directory, under the name of the
/// file.
pub proof fn lemma_copy_is_named_as_its_file(registry: Registry, i: int)
    requires
        0 <= i < registry.entries.len(),
    ensures
        destination(registry, i) matches Some(to) ==> final_component(to) == final_component(
            registry.entries[i].source_path,
        ) && to == joined(registry.cache_directory, final_component(to)->0),
{
    let source = registry.entries[i].source_path;
    if let Some(name) = final_component(source) {
        lemma_final_component_is_file_name(source);
        lemma_joined_ends_in_file_name(registry.cache_directory, name);
    }
}

/// The copy of one of the first `upto` entries goes to `path`.
pub open spec fn is_destination(registry: Registry, path: Seq<char>, upto: int) -> bool {
    exists|i: int|
        0 <= i < upto && i < registry.entries.len() && #[trigger] destination(registry, i)
            == Some(path)
}

/// No registered file lies where a copy goes.
pub open spec fn files_are_apart(registry: Registry) -> bool {
    forall|i: int|
        0 <= i < registry.entries.len() ==> !is_destination(
            registry,
            (#[trigger] registry.entries[i]).source_path,
            registry.entries.len() as int,
        )
}

/// No two entries have their copies in the same place.
pub open spec fn destinations_are_distinct(registry: Registry) -> bool {
    forall|i: int, j: int|
        0 <= i < j < registry.entries.len() && destination(registry, i) is Some
            ==> #[trigger] destination(registry, i) != #[trigger] destination(registry, j)
}

/// No file on the disk was modified after `now`.
pub open spec fn none_later_than(disk: Disk, now: i128) -> bool {
    forall|path: Seq<char>| #[trigger]
        disk.files.contains_key(path) ==> disk.files[path].modified <= now
}

/// The copy at `destination` is missing, or older than the file at `source`.
pub open spec fn is_stale(disk: Disk, source: Seq<char>, destination: Seq<char>) -> bool {
    !disk.files.contains_key(destination) || disk.files[destination].modified
        < disk.files[source].modified
}

/// The copy of the entry at `i` is missing or older than its file.
pub open spec fn entry_is_stale(registry: Registry, disk: Disk, i: int) -> bool {
    destination(registry, i) matches Some(to) && is_stale(
        disk,
        registry.entries[i].source_path,
        to,
    )
}

/// The file at `path` is on both disks or on neither, and the same on both.
pub open spec fn same_file(before: Disk, after: Disk, path: Seq<char>) -> bool {
    before.files.contains_key(path) == after.files.contains_key(path) && before.files[path]
        == after.files[path]
}

/// On `after`, the entry at `i` has a copy that is not older than its file
/// was on `before`.
pub open spec fn is_mirrored(registry: Registry, before: Disk, after: Disk, i: int) -> bool {
    destination(registry, i) matches Some(to) ==> {
        let source = registry.entries[i].source_path;
        &&& before.files.contains_key(source)
        &&& after.files.contains_key(to)
        &&& after.files[to].modified >= before.files[source].modified
    }
}

/// What the copy of the entry at `i` is after a synchronisation at time
/// `now`: a fresh copy of the file where the copy was missing or older,
/// and the copy that was there otherwise.
pub open spec fn expected_copy(registry: Registry, before: Disk, i: int, now: i128) -> FileState {
    let source = registry.entries[i].source_path;
    let to = destination(registry, i)->0;
    if is_stale(before, source, to) {
        FileState { content: before.files[source].content, modified: now }
    } else {
        before.files[to]
    }
}

/// The entry at `i` has the copy that a synchronisation at time `now`
/// leaves for it.
pub open spec fn has_expected_copy(
    registry: Registry,
    before: Disk,
    disk: Disk,
    i: int,
    now: i128,
) -> bool {
    destination(registry, i) matches Some(to) ==> disk.files[to] == expected_copy(
        registry,
        before,
        i,
        now,
    )
}

/// None of the first `upto` entries has a copy that is missing or older
/// than its file.
pub open spec fn none_is_stale(registry: Registry, disk: Disk, upto: int) -> bool {
    forall|i: int| 0 <= i < upto ==> !#[trigger] entry_is_stale(registry, disk, i)
}

/// What holds of the disk once the first `upto` entries are dealt with:
/// only their copies have changed, each of them is mirrored, and nothing
/// has changed at all where none of them was stale.
spec fn dealt_with(registry: Registry, before: Disk, disk: Disk, upto: int, now: i128) -> bool {
    &&& none_later_than(disk, now)
    &&& forall|path: Seq<char>|
        !is_destination(registry, path, upto) ==> #[trigger] same_file(before, disk, path)
    &&& forall|i: int| 0 <= i < upto ==> #[trigger] is_mirrored(registry, before, disk, i)
    &&& destinations_are_distinct(registry) ==> forall|i: int|
        0 <= i < upto ==> #[trigger] has_expected_copy(registry, before, disk, i, now)
    &&& none_is_stale(registry, before, upto) ==> disk.files == before.files
}

/// A registered file is not among the copies, so it is as it was.
proof fn lemma_file_is_untouched(
    registry: Registry,
    before: Disk,
    disk: Disk,
    upto: int,
    now: i128,
    i: int,
)
    requires
        files_are_apart(registry),
        0 <= i < registry.entries.len(),
        upto <= registry.entries.len(),
        dealt_with(registry, before, disk, upto, now),
    ensures
        same_file(before, disk, registry.entries[i].source_path),
{
    let source = registry.entries[i].source_path;
    let count = registry.entries.len() as int;
    assert(!is_destination(registry, source, count));
    if is_destination(registry, source, upto) {
        let j = choose|j: int|
            0 <= j < upto && j < count && #[trigger] destination(registry, j) == Some(source);
        assert(is_destination(registry, source, count));
    }
}

/// Entries without a file name are dealt with by passing them over.
proof fn lemma_passed_over(
    registry: Registry,
    before: Disk,
    disk: Disk,
    from: int,
    upto: int,
    now: i128,
)
    requires
        0 <= from <= upto <= registry.entries.len(),
        dealt_with(registry, before, disk, from, now),
        forall|i: int| from <= i < upto ==> (#[trigger] destination(registry, i)) is None,
    ensures
        dealt_with(registry, before, disk, upto, now),
{
    assert forall|path: Seq<char>| !is_destination(registry, path, upto) implies #[trigger]
        same_file(before, disk, path) by {
        assert(!is_destination(registry, path, from));
    }
    assert forall|i: int| 0 <= i < upto implies #[trigger] is_mirrored(
        registry,
        before,
        disk,
        i,
    ) by {
        if i < from {
            assert(is_mirrored(registry, before, disk, i));
        }
    }
    if destinations_are_distinct(registry) {
        assert forall|i: int| 0 <= i < upto implies #[trigger] has_expected_copy(
            registry,
            before,
            disk,
            i,
            now,
        ) by {
            if i < from {
                assert(has_expected_copy(registry, before, disk, i, now));
            }
        }
    }
    if none_is_stale(registry, before, upto) {
        assert forall|i: int| 0 <= i < from implies !#[trigger] entry_is_stale(
            registry,
            before,
            i,
        ) by {}
    }
}

/// With distinct destinations, the copy of an entry that is yet to be
/// dealt with is as it was.
proof fn lemma_copy_is_untouched(
    registry: Registry,
    before: Disk,
    disk: Disk,
    entry: int,
    now: i128,
)
    requires
        0 <= entry < registry.entries.len(),
        destinations_are_distinct(registry),
        dealt_with(registry, before, disk, entry, now),
        destination(registry, entry) is Some,
    ensures
        same_file(before, disk, destination(registry, entry)->0),
{
    let to = destination(registry, entry)->0;
    if is_destination(registry, to, entry) {
        let i = choose|i: int|
            0 <= i < entry && i < registry.entries.len() && #[trigger] destination(registry, i)
                == Some(to);
        assert(destination(registry, i) != destination(registry, entry));
    }
}

/// An entry whose copy is not stale is dealt with by leaving the copy.
proof fn lemma_left_alone(registry: Registry, before: Disk, disk: Disk, entry: int, now: i128)
    requires
        files_are_apart(registry),
        0 <= entry < registry.entries.len(),
        dealt_with(registry, before, disk, entry, now),
        destination(registry, entry) is Some,
        disk.files.contains_key(registry.entries[entry].source_path),
        !entry_is_stale(registry, disk, entry),
    ensures
        dealt_with(registry, before, disk, entry + 1, now),
{
    let upto = entry + 1;
    lemma_file_is_untouched(registry, before, disk, entry, now, entry);
    assert forall|path: Seq<char>| !is_destination(registry, path, upto) implies #[trigger]
        same_file(before, disk, path) by {
        assert(!is_destination(registry, path, entry));
    }
    assert forall|i: int| 0 <= i < upto implies #[trigger] is_mirrored(
        registry,
        before,
        disk,
        i,
    ) by {
        if i < entry {
            assert(is_mirrored(registry, before, disk, i));
        }
    }
    if destinations_are_distinct(registry) {
        lemma_copy_is_untouched(registry, before, disk, entry, now);
        assert forall|i: int| 0 <= i < upto implies #[trigger] has_expected_copy(
            registry,
            before,
            disk,
            i,
            now,
        ) by {
            if i < entry {
                assert(has_expected_copy(registry, before, disk, i, now));
            }
        }
    }
    if none_is_stale(registry, before, upto) {
        assert forall|i: int| 0 <= i < entry implies !#[trigger] entry_is_stale(
            registry,
            before,
            i,
        ) by {}
    }
}

/// An entry whose copy is stale is dealt with by copying its file.
proof fn lemma_copied(registry: Registry, before: Disk, disk: Disk, entry: int, now: i128)
    requires
        files_are_apart(registry),
        0 <= entry < registry.entries.len(),
        dealt_with(registry, before, disk, entry, now),
        destination(registry, entry) is Some,
        disk.files.contains_key(registry.entries[entry].source_path),
        entry_is_stale(registry, disk, entry),
    ensures
        dealt_with(
            registry,
            before,
            with_copy(
                disk,
                registry.entries[entry].source_path,
                destination(registry, entry)->0,
                now,
            ),
            entry + 1,
            now,
        ),
{
    let upto = entry + 1;
    let source = registry.entries[entry].source_path;
    let to = destination(registry, entry)->0;
    let after = with_copy(disk, source, to, now);
    lemma_file_is_untouched(registry, before, disk, entry, now, entry);
    assert forall|path: Seq<char>| !is_destination(registry, path, upto) implies #[trigger]
        same_file(before, after, path) by {
        assert(!is_destination(registry, path, entry));
        assert(same_file(before, disk, path));
        assert(path != to);
    }
    assert forall|i: int| 0 <= i < upto implies #[trigger] is_mirrored(
        registry,
        before,
        after,
        i,
    ) by {
        if i < entry {
            assert(is_mirrored(registry, before, disk, i));
            lemma_file_is_untouched(registry, before, disk, entry, now, i);
        }
    }
    if destinations_are_distinct(registry) {
        lemma_copy_is_untouched(registry, before, disk, entry, now);
        assert forall|i: int| 0 <= i < upto implies #[trigger] has_expected_copy(
            registry,
            before,
            after,
            i,
            now,
        ) by {
            if i < entry {
                assert(has_expected_copy(registry, before, disk, i, now));
                if destination(registry, i) is Some {
                    assert(destination(registry, i) != destination(registry, entry));
                }
            }
        }
    }
    if none_is_stale(registry, before, upto) {
        assert forall|i: int| 0 <= i < entry implies !#[trigger] entry_is_stale(
            registry,
            before,
            i,
        ) by {}
        assert(!entry_is_stale(registry, before, entry));
        assert(false);
    }
}

/// The run that begins with the inspection of the next entry deals with
/// every entry that is left, if it comes to its end.
proof fn lemma_run_from_task(registry: Registry, before: Disk, disk: Disk, from: nat, now: i128)
    requires
        files_are_apart(registry),
        from <= registry.entries.len(),
        dealt_with(registry, before, disk, from as int, now),
    ensures
        ({
            let (after, end) = run_from(registry, disk, task_from(registry, from), now);
            end is Done ==> after.has_directory == disk.has_directory && dealt_with(
                registry,
                before,
                after,
                registry.entries.len() as int,
                now,
            )
        }),
    decreases registry.entries.len() - from,
{
    let count = registry.entries.len() as int;
    let step = task_from(registry, from);
    lemma_task_from(registry, from);
    match step {
        Step::Inspect { entry, source, destination: to } => {
            assert(registry.entries[entry as int].source_path == source);
            assert(destination(registry, entry as int) == Some(to));
            assert forall|i: int| from <= i < entry implies (#[trigger] destination(
                registry,
                i,
            )) is None by {
                assert(final_component(registry.entries[i].source_path) is None);
            }
            lemma_passed_over(registry, before, disk, from as int, entry as int, now);
            lemma_task_from(registry, entry + 1);
            let outcome = carried_out(disk, step, now).1;
            let step2 = next_step(registry, step, outcome);
            assert(carried_out(disk, step, now).0 == disk);
            assert(run_from(registry, disk, step, now) == run_from(registry, disk, step2, now));
            if step2 is Copy {
                assert(step2 == Step::Copy { entry, source, destination: to });
                assert(entry_is_stale(registry, disk, entry as int));
                let disk2 = carried_out(disk, step2, now).0;
                let outcome2 = carried_out(disk, step2, now).1;
                let step3 = next_step(registry, step2, outcome2);
                assert(run_from(registry, disk, step2, now) == run_from(
                    registry,
                    disk2,
                    step3,
                    now,
                ));
                if disk.files.contains_key(source) {
                    assert(disk2 == with_copy(disk, source, to, now));
                    assert(step3 == task_from(registry, entry + 1));
                    lemma_copied(registry, before, disk, entry as int, now);
                    lemma_run_from_task(registry, before, disk2, entry + 1, now);
                }
            } else if !(step2 is Failed) {
                assert(step2 == task_from(registry, entry + 1));
                assert(!entry_is_stale(registry, disk, entry as int));
                lemma_left_alone(registry, before, disk, entry as int, now);
                lemma_run_from_task(registry, before, disk, entry + 1, now);
            }
        },
        Step::Done => {
            assert forall|i: int| from <= i < count implies (#[trigger] destination(
                registry,
                i,
            )) is None by {
                assert(final_component(registry.entries[i].source_path) is None);
            }
            lemma_passed_over(registry, before, disk, from as int, count, now);
        },
        _ => {},
    }
}

proof fn lemma_synchronised(registry: Registry, disk: Disk, now: i128)
    requires
        files_are_apart(registry),
        none_later_than(disk, now),
    ensures
        ({
            let (after, end) = synchronised(registry, disk, now);
            end is Done ==> after.has_directory && dealt_with(
                registry,
                disk,
                after,
                registry.entries.len() as int,
                now,
            )
        }),
{
    let first = first_step(registry);
    let disk1 = carried_out(disk, first, now).0;
    let outcome = carried_out(disk, first, now).1;
    let second = next_step(registry, first, outcome);
    assert(run_from(registry, disk, first, now) == run_from(registry, disk1, second, now));
    assert forall|path: Seq<char>| !is_destination(registry, path, 0) implies #[trigger]
        same_file(disk, disk, path) by {}
    if disk.has_directory {
        assert(dealt_with(registry, disk, disk1, 0, now));
        lemma_run_from_task(registry, disk, disk1, 0, now);
    } else {
        let disk2 = carried_out(disk1, second, now).0;
        let outcome2 = carried_out(disk1, second, now).1;
        let third = next_step(registry, second, outcome2);
        assert(run_from(registry, disk1, second, now) == run_from(registry, disk2, third, now));
        assert forall|path: Seq<char>| !is_destination(registry, path, 0) implies #[trigger]
            same_file(disk, disk2, path) by {}
        assert(dealt_with(registry, disk, disk2, 0, now));
        lemma_run_from_task(registry, disk, disk2, 0, now);
    }
}

/// The entry at `i` needs no copy: it has no file name, or its file is
/// there and its copy is not older.
spec fn is_up_to_date(registry: Registry, disk: Disk, i: int) -> bool {
    destination(registry, i) is Some ==> disk.files.contains_key(
        registry.entries[i].source_path,
    ) && !entry_is_stale(registry, disk, i)
}

proof fn lemma_run_without_stale_copies(registry: Registry, disk: Disk, from: nat, now: i128)
    requires
        forall|i: int|
            from <= i < registry.entries.len() ==> #[trigger] is_up_to_date(registry, disk, i),
    ensures
        run_from(registry, disk, task_from(registry, from), now) == (disk, Step::Done),
    decreases registry.entries.len() - from,
{
    let step = task_from(registry, from);
    lemma_task_from(registry, from);
    match step {
        Step::Inspect { entry, source, destination: to } => {
            assert(destination(registry, entry as int) == Some(to));
            assert(is_up_to_date(registry, disk, entry as int));
            let outcome = carried_out(disk, step, now).1;
            assert(carried_out(disk, step, now).0 == disk);
            lemma_task_from(registry, entry + 1);
            assert(next_step(registry, step, outcome) == task_from(registry, entry + 1));
            lemma_run_without_stale_copies(registry, disk, entry + 1, now);
        },
        _ => {},
    }
}

/// After a synchronisation that came to its end, every entry whose path
/// ends in a file name has a copy in the mirror directory, and the copy is
/// not older than the file. No file is touched but the copies.
pub proof fn lemma_synchronisation_mirrors_every_file(registry: Registry, disk: Disk, now: i128)
    requires
        files_are_apart(registry),
        none_later_than(disk, now),
        synchronised(registry, disk, now).1 is Done,
    ensures
        forall|i: int|
            0 <= i < registry.entries.len() ==> #[trigger] is_mirrored(
                registry,
                disk,
                synchronised(registry, disk, now).0,
                i,
            ),
        forall|path: Seq<char>|
            !is_destination(registry, path, registry.entries.len() as int) ==> #[trigger] same_file(
                disk,
                synchronised(registry, disk, now).0,
                path,
            ),
{
    lemma_synchronised(registry, disk, now);
}

/// Where no two entries share a copy, a synchronisation that came to its
/// end leaves for each entry a copy with the content of its file, made at
/// the time of the run, where the copy was missing or older than the file,
/// and the copy as it was where it was not.
pub proof fn lemma_synchronisation_copies_what_is_stale(
    registry: Registry,
    disk: Disk,
    now: i128,
    i: int,
)
    requires
        files_are_apart(registry),
        destinations_are_distinct(registry),
        none_later_than(disk, now),
        synchronised(registry, disk, now).1 is Done,
        0 <= i < registry.entries.len(),
        destination(registry, i) is Some,
    ensures
        synchronised(registry, disk, now).0.files[destination(registry, i)->0] == expected_copy(
            registry,
            disk,
            i,
            now,
        ),
{
    lemma_synchronised(registry, disk, now);
    assert(has_expected_copy(registry, disk, synchronised(registry, disk, now).0, i, now));
}

/// A second synchronisation, with the files unchanged since the first,
/// comes to its end and changes nothing: no copy is made again.
pub proof fn lemma_second_synchronisation_changes_nothing(
    registry: Registry,
    disk: Disk,
    now: i128,
    later: i128,
)
    requires
        files_are_apart(registry),
        none_later_than(disk, now),
        synchronised(registry, disk, now).1 is Done,
    ensures
        synchronised(registry, synchronised(registry, disk, now).0, later) == (
            synchronised(registry, disk, now).0,
            Step::Done,
        ),
{
    lemma_synchronised(registry, disk, now);
    let after = synchronised(registry, disk, now).0;
    let count = registry.entries.len() as int;
    assert forall|i: int| 0 <= i < count implies #[trigger] is_up_to_date(registry, after, i) by {
        let source = registry.entries[i].source_path;
        assert(is_mirrored(registry, disk, after, i));
        assert(!is_destination(registry, source, count));
        assert(same_file(disk, after, source));
    }
    lemma_run_without_stale_copies(registry, after, 0, later);
    let first = first_step(registry);
    assert(carried_out(after, first, later) == (after, SyncOutcome::DirectoryReady));
    assert(run_from(registry, after, first, later) == run_from(
        registry,
        after,
        task_from(registry, 0),
        later,
    ));
}

} // verus!
