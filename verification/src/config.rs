//! Filling the registry from configuration records.

use vstd::prelude::*;
use vstd::string::*;
use crate::cache::{
    distinct_aliases, lemma_registered_stays_distinct, registered, Entry, FileCache, Registry,
};
use crate::file_type::{FileSearchProcessorError, FileType};
use crate::text::text_of;

verus! {

/// One record of the configuration, as it was read: each of its fields may
/// be missing.
#[derive(Debug)]
pub struct AliasRecord {
    pub alias: Option<String>,
    pub path: Option<String>,
    pub file_type: Option<String>,
}

/// What an `AliasRecord` stands for.
pub ghost struct Record {
    pub alias: Option<Seq<char>>,
    pub path: Option<Seq<char>>,
    pub file_type: Option<Seq<char>>,
}

impl View for AliasRecord {
    type V = Record;

    open spec fn view(&self) -> Record {
        Record {
            alias: text_of(self.alias),
            path: text_of(self.path),
            file_type: text_of(self.file_type),
        }
    }
}

/// The views of a list of records.
pub open spec fn records_of(records: Seq<AliasRecord>) -> Seq<Record> {
    records.map_values(|r: AliasRecord| r@)
}

/// The record names an alias, a path and a kind.
pub open spec fn is_complete(record: Record) -> bool {
    record.alias is Some && record.path is Some && record.file_type is Some
}

/// `entries` after one more record: a complete record is registered, and
/// is an error where its kind is not known; any other record is passed
/// over.
pub open spec fn with_record(entries: Seq<Entry>, record: Record) -> Result<
    Seq<Entry>,
    FileSearchProcessorError,
> {
    if is_complete(record) {
        match FileType::parsed(record.file_type->0) {
            Ok(kind) => Ok(
                registered(
                    entries,
                    Entry { alias: record.alias->0, source_path: record.path->0, kind },
                ),
            ),
            Err(e) => Err(e),
        }
    } else {
        Ok(entries)
    }
}

/// `entries` after the records were taken in, one after the other, up to
/// the first error.
pub open spec fn loaded(entries: Seq<Entry>, records: Seq<Record>) -> Result<
    Seq<Entry>,
    FileSearchProcessorError,
>
    decreases records.len(),
{
    if records.len() == 0 {
        Ok(entries)
    } else {
        match loaded(entries, records.drop_last()) {
            Ok(so_far) => with_record(so_far, records.last()),
            Err(e) => Err(e),
        }
    }
}

/// Taking in records one list after another is taking in the two lists as
/// one.
pub proof fn lemma_loaded_in_two_parts(entries: Seq<Entry>, first: Seq<Record>, second: Seq<Record>)
    ensures
        loaded(entries, first + second) == match loaded(entries, first) {
            Ok(so_far) => loaded(so_far, second),
            Err(e) => Err(e),
        },
    decreases second.len(),
{
    if second.len() == 0 {
        assert(first + second =~= first);
    } else {
        lemma_loaded_in_two_parts(entries, first, second.drop_last());
        assert((first + second).drop_last() =~= first + second.drop_last());
    }
}

/// A record that lacks its alias, its path or its kind registers nothing:
/// the records give the same registry with it among them as without it.
pub proof fn lemma_incomplete_record_is_skipped(
    entries: Seq<Entry>,
    before: Seq<Record>,
    record: Record,
    after: Seq<Record>,
)
    requires
        !is_complete(record),
    ensures
        loaded(entries, before + seq![record] + after) == loaded(entries, before + after),
{
    let one = seq![record];
    lemma_loaded_in_two_parts(entries, before + one, after);
    lemma_loaded_in_two_parts(entries, before, after);
    assert((before + one).drop_last() =~= before);
}

/// Taking in records keeps every alias unique.
pub proof fn lemma_loaded_stays_distinct(entries: Seq<Entry>, records: Seq<Record>)
    requires
        distinct_aliases(entries),
    ensures
        loaded(entries, records) matches Ok(all) ==> distinct_aliases(all),
    decreases records.len(),
{
    if records.len() > 0 {
        lemma_loaded_stays_distinct(entries, records.drop_last());
        if let Ok(so_far) = loaded(entries, records.drop_last()) {
            let record = records.last();
            if is_complete(record) {
                if let Ok(kind) = FileType::parsed(record.file_type->0) {
                    lemma_registered_stays_distinct(
                        so_far,
                        Entry { alias: record.alias->0, source_path: record.path->0, kind },
                    );
                }
            }
        }
    }
}

impl FileCache {
    /// The registry for the document tree at `root`, filled from `records`
    /// in their order.
    ///
    /// A record that lacks a field is passed over. The first complete
    /// record whose kind is neither `link` nor `image` is an error, and no
    /// registry is made.
    pub fn from_records(root: &str, records: &Vec<AliasRecord>) -> (cache: Result<
        FileCache,
        FileSearchProcessorError,
    >)
        ensures
            match loaded(Seq::empty(), records_of(records@)) {
                Ok(entries) => cache matches Ok(c) && c@ == (Registry {
                    cache_directory: FileCache::directory_under(root@),
                    entries,
                }) && c.wf(),
                Err(e) => cache matches Err(f) && f == e,
            },
    {
        let mut cache = match FileCache::new(root) {
            Ok(cache) => cache,
            Err(e) => {
                return Err(e);
            },
        };
        let ghost all = records_of(records@);
        let mut i: usize = 0;
        while i < records.len()
            invariant
                i <= records.len(),
                all == records_of(records@),
                cache.wf(),
                cache@.cache_directory == FileCache::directory_under(root@),
                loaded(Seq::empty(), all.take(i as int)) == Ok::<
                    Seq<Entry>,
                    FileSearchProcessorError,
                >(cache@.entries),
            decreases records.len() - i,
        {
            let record = &records[i];
            proof {
                assert(all.take(i + 1).drop_last() =~= all.take(i as int));
                assert(all.take(i + 1).last() == record@);
                assert(all.take(i + 1) + all.skip(i + 1) =~= all);
                lemma_loaded_in_two_parts(Seq::empty(), all.take(i + 1), all.skip(i + 1));
            }
            match (&record.alias, &record.path, &record.file_type) {
                (Some(alias), Some(path), Some(file_type)) => {
                    match cache.add_file(alias.as_str(), path.as_str(), file_type.as_str()) {
                        Ok(()) => {},
                        Err(e) => {
                            return Err(e);
                        },
                    }
                },
                _ => {},
            }
            i += 1;
        }
        assert(all.take(i as int) =~= all);
        Ok(cache)
    }
}

} // verus!
