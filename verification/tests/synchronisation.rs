use file_search::cache::FileCache;
use file_search::sync::{SyncOutcome, SyncStep};
use std::collections::HashMap;

fn registry() -> FileCache {
    let mut cache = FileCache::new("/book").unwrap();
    cache.add_file("guide", "/external/doc.pdf", "link").unwrap();
    cache.add_file("nameless", "/external/..", "link").unwrap();
    cache.add_file("logo", "/assets/logo.png", "image").unwrap();
    cache
}

fn inspect(entry: usize, source: &str, destination: &str) -> SyncStep {
    SyncStep::Inspect { entry, source: source.to_string(), destination: destination.to_string() }
}

fn copy(entry: usize, source: &str, destination: &str) -> SyncStep {
    SyncStep::Copy { entry, source: source.to_string(), destination: destination.to_string() }
}

fn modified(source: i128, destination: i128) -> SyncOutcome {
    SyncOutcome::Modified { source, destination }
}

#[test]
fn first_step_looks_for_the_directory() {
    assert_eq!(
        registry().copy_files(),
        SyncStep::FindDirectory { path: "/book/src/_files".to_string() }
    );
}

#[test]
fn missing_directory_is_created() {
    let cache = registry();
    let first = cache.copy_files();
    let second = cache.copy_files_next(&first, SyncOutcome::DirectoryMissing);
    assert_eq!(second, SyncStep::CreateDirectory { path: "/book/src/_files".to_string() });
    assert_eq!(
        cache.copy_files_next(&second, SyncOutcome::DirectoryReady),
        inspect(0, "/external/doc.pdf", "/book/src/_files/doc.pdf")
    );
}

#[test]
fn directory_is_not_created_twice() {
    let cache = registry();
    let create = SyncStep::CreateDirectory { path: "/book/src/_files".to_string() };
    assert_eq!(cache.copy_files_next(&create, SyncOutcome::DirectoryMissing), SyncStep::Failed);
}

#[test]
fn first_entry_is_inspected_once_the_directory_is_there() {
    let cache = registry();
    let first = cache.copy_files();
    assert_eq!(
        cache.copy_files_next(&first, SyncOutcome::DirectoryReady),
        inspect(0, "/external/doc.pdf", "/book/src/_files/doc.pdf")
    );
}

#[test]
fn missing_copy_is_made() {
    let cache = registry();
    let step = inspect(0, "/external/doc.pdf", "/book/src/_files/doc.pdf");
    assert_eq!(
        cache.copy_files_next(&step, SyncOutcome::DestinationMissing),
        copy(0, "/external/doc.pdf", "/book/src/_files/doc.pdf")
    );
}

#[test]
fn older_copy_is_made_again() {
    let cache = registry();
    let step = inspect(0, "/external/doc.pdf", "/book/src/_files/doc.pdf");
    assert_eq!(
        cache.copy_files_next(&step, modified(1_000_000_001, 1_000_000_000)),
        copy(0, "/external/doc.pdf", "/book/src/_files/doc.pdf")
    );
    assert_eq!(
        cache.copy_files_next(&step, modified(0, -1)),
        copy(0, "/external/doc.pdf", "/book/src/_files/doc.pdf")
    );
}

#[test]
fn copy_of_the_same_age_is_left_alone() {
    let cache = registry();
    let step = inspect(0, "/external/doc.pdf", "/book/src/_files/doc.pdf");
    assert_eq!(
        cache.copy_files_next(&step, modified(1_000_000_000, 1_000_000_000)),
        inspect(2, "/assets/logo.png", "/book/src/_files/logo.png")
    );
}

#[test]
fn newer_copy_is_left_alone() {
    let cache = registry();
    let step = inspect(0, "/external/doc.pdf", "/book/src/_files/doc.pdf");
    assert_eq!(
        cache.copy_files_next(&step, modified(5, 6)),
        inspect(2, "/assets/logo.png", "/book/src/_files/logo.png")
    );
}

#[test]
fn entry_without_a_file_name_is_passed_over() {
    let cache = registry();
    let step = copy(0, "/external/doc.pdf", "/book/src/_files/doc.pdf");
    assert_eq!(
        cache.copy_files_next(&step, SyncOutcome::Copied),
        inspect(2, "/assets/logo.png", "/book/src/_files/logo.png")
    );
}

#[test]
fn run_is_done_after_the_last_entry() {
    let cache = registry();
    let last = copy(2, "/assets/logo.png", "/book/src/_files/logo.png");
    assert_eq!(cache.copy_files_next(&last, SyncOutcome::Copied), SyncStep::Done);
    let last = inspect(2, "/assets/logo.png", "/book/src/_files/logo.png");
    assert_eq!(cache.copy_files_next(&last, modified(3, 3)), SyncStep::Done);
}

#[test]
fn empty_registry_only_makes_the_directory() {
    let cache = FileCache::new("/book").unwrap();
    let first = cache.copy_files();
    assert_eq!(first, SyncStep::FindDirectory { path: "/book/src/_files".to_string() });
    assert_eq!(cache.copy_files_next(&first, SyncOutcome::DirectoryReady), SyncStep::Done);
}

#[test]
fn registry_of_nameless_entries_only_makes_the_directory() {
    let mut cache = FileCache::new("/book").unwrap();
    cache.add_file("a", "", "link").unwrap();
    cache.add_file("b", "/", "image").unwrap();
    let first = cache.copy_files();
    assert_eq!(cache.copy_files_next(&first, SyncOutcome::DirectoryReady), SyncStep::Done);
}

#[test]
fn failure_ends_the_run() {
    let cache = registry();
    let steps = [
        cache.copy_files(),
        inspect(0, "/external/doc.pdf", "/book/src/_files/doc.pdf"),
        copy(0, "/external/doc.pdf", "/book/src/_files/doc.pdf"),
        SyncStep::Failed,
    ];
    for step in &steps {
        assert_eq!(cache.copy_files_next(step, SyncOutcome::Failed), SyncStep::Failed);
    }
}

#[test]
fn nothing_follows_the_end() {
    let cache = registry();
    let outcomes = [
        SyncOutcome::DirectoryMissing,
        SyncOutcome::DirectoryReady,
        SyncOutcome::DestinationMissing,
        modified(2, 1),
        SyncOutcome::Copied,
        SyncOutcome::Failed,
    ];
    for outcome in outcomes {
        assert_eq!(cache.copy_files_next(&SyncStep::Done, outcome), SyncStep::Done);
        assert_eq!(cache.copy_files_next(&SyncStep::Failed, outcome), SyncStep::Failed);
    }
}

#[test]
fn outcome_of_another_step_ends_the_run() {
    let cache = registry();
    let first = cache.copy_files();
    assert_eq!(cache.copy_files_next(&first, SyncOutcome::Copied), SyncStep::Failed);
    assert_eq!(cache.copy_files_next(&first, SyncOutcome::DestinationMissing), SyncStep::Failed);
    let look = inspect(0, "/external/doc.pdf", "/book/src/_files/doc.pdf");
    assert_eq!(cache.copy_files_next(&look, SyncOutcome::Copied), SyncStep::Failed);
    assert_eq!(cache.copy_files_next(&look, SyncOutcome::DirectoryReady), SyncStep::Failed);
    let write = copy(0, "/external/doc.pdf", "/book/src/_files/doc.pdf");
    assert_eq!(cache.copy_files_next(&write, SyncOutcome::DestinationMissing), SyncStep::Failed);
    assert_eq!(cache.copy_files_next(&write, modified(2, 1)), SyncStep::Failed);
}

#[test]
fn destination_is_joined_onto_the_mirror_directory() {
    let mut cache = FileCache::new("root/").unwrap();
    cache.add_file("a", "deep/er/name.txt/", "link").unwrap();
    let first = cache.copy_files();
    assert_eq!(first, SyncStep::FindDirectory { path: "root/src/_files".to_string() });
    assert_eq!(
        cache.copy_files_next(&first, SyncOutcome::DirectoryReady),
        inspect(0, "deep/er/name.txt/", "root/src/_files/name.txt")
    );
}

/// A file system in memory: for each path the content and the time of the
/// last change. Carries the steps out as a caller would.
struct Files {
    files: HashMap<String, (String, i128)>,
    directory: bool,
    clock: i128,
    copies: usize,
}

impl Files {
    fn perform(&mut self, step: &SyncStep) -> SyncOutcome {
        match step {
            SyncStep::FindDirectory { .. } => {
                if self.directory {
                    SyncOutcome::DirectoryReady
                } else {
                    SyncOutcome::DirectoryMissing
                }
            }
            SyncStep::CreateDirectory { .. } => {
                self.directory = true;
                SyncOutcome::DirectoryReady
            }
            SyncStep::Inspect { source, destination, .. } => match self.files.get(destination) {
                None => SyncOutcome::DestinationMissing,
                Some((_, destination_time)) => match self.files.get(source) {
                    Some((_, source_time)) => SyncOutcome::Modified {
                        source: *source_time,
                        destination: *destination_time,
                    },
                    None => SyncOutcome::Failed,
                },
            },
            SyncStep::Copy { source, destination, .. } => match self.files.get(source) {
                Some((content, _)) => {
                    let content = content.clone();
                    self.clock += 1;
                    self.copies += 1;
                    self.files.insert(destination.clone(), (content, self.clock));
                    SyncOutcome::Copied
                }
                None => SyncOutcome::Failed,
            },
            SyncStep::Done | SyncStep::Failed => SyncOutcome::Failed,
        }
    }

    fn synchronise(&mut self, cache: &FileCache) -> (SyncStep, usize) {
        let mut step = cache.copy_files();
        let mut taken = 0;
        while step != SyncStep::Done && step != SyncStep::Failed {
            let outcome = self.perform(&step);
            step = cache.copy_files_next(&step, outcome);
            taken += 1;
            assert!(taken <= 2 * cache.len() + 4);
        }
        (step, taken)
    }
}

fn outside_files() -> Files {
    let mut files = HashMap::new();
    files.insert("/external/doc.pdf".to_string(), ("pdf bytes".to_string(), 10));
    files.insert("/assets/logo.png".to_string(), ("png bytes".to_string(), 20));
    Files { files, directory: false, clock: 100, copies: 0 }
}

#[test]
fn synchronised_files_are_copied_with_their_content() {
    let cache = registry();
    let mut files = outside_files();
    let (end, taken) = files.synchronise(&cache);
    assert_eq!(end, SyncStep::Done);
    assert_eq!(taken, 6);
    assert!(files.directory);
    assert_eq!(files.copies, 2);
    assert_eq!(files.files["/book/src/_files/doc.pdf"].0, "pdf bytes");
    assert_eq!(files.files["/book/src/_files/logo.png"].0, "png bytes");
}

#[test]
fn second_synchronisation_copies_nothing() {
    let cache = registry();
    let mut files = outside_files();
    files.synchronise(&cache);
    let after_first = files.files.clone();
    let (end, taken) = files.synchronise(&cache);
    assert_eq!(end, SyncStep::Done);
    assert_eq!(taken, 3);
    assert_eq!(files.copies, 2);
    assert_eq!(files.files, after_first);
}

#[test]
fn changed_file_is_copied_again() {
    let cache = registry();
    let mut files = outside_files();
    files.synchronise(&cache);
    files.files.insert("/external/doc.pdf".to_string(), ("new pdf".to_string(), 500));
    let (end, _) = files.synchronise(&cache);
    assert_eq!(end, SyncStep::Done);
    assert_eq!(files.copies, 3);
    assert_eq!(files.files["/book/src/_files/doc.pdf"].0, "new pdf");
    assert_eq!(files.files["/book/src/_files/logo.png"].0, "png bytes");
}

#[test]
fn entries_with_the_same_file_name_share_one_copy() {
    let mut cache = FileCache::new("/book").unwrap();
    cache.add_file("one", "/a/same.txt", "link").unwrap();
    cache.add_file("two", "/b/same.txt", "link").unwrap();
    let mut files = HashMap::new();
    files.insert("/a/same.txt".to_string(), ("first".to_string(), 10));
    files.insert("/b/same.txt".to_string(), ("second".to_string(), 20));
    let mut files = Files { files, directory: true, clock: 100, copies: 0 };
    let (end, _) = files.synchronise(&cache);
    assert_eq!(end, SyncStep::Done);
    assert_eq!(files.copies, 1);
    assert_eq!(files.files["/book/src/_files/same.txt"], ("first".to_string(), 101));
}

#[test]
fn later_entry_overwrites_a_shared_copy_that_is_older() {
    let mut cache = FileCache::new("/book").unwrap();
    cache.add_file("one", "/a/same.txt", "link").unwrap();
    cache.add_file("two", "/b/same.txt", "link").unwrap();
    let mut files = HashMap::new();
    files.insert("/a/same.txt".to_string(), ("first".to_string(), 10));
    files.insert("/b/same.txt".to_string(), ("second".to_string(), 200));
    let mut files = Files { files, directory: true, clock: 100, copies: 0 };
    let (end, _) = files.synchronise(&cache);
    assert_eq!(end, SyncStep::Done);
    assert_eq!(files.copies, 2);
    assert_eq!(files.files["/book/src/_files/same.txt"], ("second".to_string(), 102));
}

#[test]
fn existing_directory_is_not_created() {
    let cache = registry();
    let mut files = outside_files();
    files.directory = true;
    let (end, taken) = files.synchronise(&cache);
    assert_eq!(end, SyncStep::Done);
    assert_eq!(taken, 5);
}

#[test]
fn missing_file_fails_the_synchronisation() {
    let mut cache = FileCache::new("/book").unwrap();
    cache.add_file("guide", "/external/doc.pdf", "link").unwrap();
    cache.add_file("gone", "/no/such.file", "link").unwrap();
    cache.add_file("logo", "/assets/logo.png", "image").unwrap();
    let mut files = outside_files();
    let (end, _) = files.synchronise(&cache);
    assert_eq!(end, SyncStep::Failed);
    assert_eq!(files.copies, 1);
    assert!(!files.files.contains_key("/book/src/_files/logo.png"));
}
