//! The alias registry: which alias stands for which outside file, and the
//! text that a document gets in place of a reference to it.

use vstd::prelude::*;
use vstd::string::*;
use crate::file_type::{FileSearchProcessorError, FileType};
use crate::path::{
    file_name, final_component, join, joined, lemma_component_start,
    lemma_final_component_is_file_name,
};
use crate::text::text_of;

verus! {

/// What is registered under one alias.
pub ghost struct Entry {
    pub alias: Seq<char>,
    pub source_path: Seq<char>,
    pub kind: FileType,
}

/// What a `FileCache` stands for: the directory that mirrors the outside
/// files, and the entries in the order in which their aliases were first
/// registered.
pub ghost struct Registry {
    pub cache_directory: Seq<char>,
    pub entries: Seq<Entry>,
}

/// The position of the first entry registered under `alias`.
pub open spec fn index_of(entries: Seq<Entry>, alias: Seq<char>) -> Option<int>
    decreases entries.len(),
{
    if entries.len() == 0 {
        None
    } else {
        match index_of(entries.drop_last(), alias) {
            Some(i) => Some(i),
            None => if entries.last().alias == alias {
                Some(entries.len() - 1)
            } else {
                None
            },
        }
    }
}

/// The entry registered under `alias`.
pub open spec fn lookup(entries: Seq<Entry>, alias: Seq<char>) -> Option<Entry> {
    match index_of(entries, alias) {
        Some(i) => Some(entries[i]),
        None => None,
    }
}

/// `entries` after `entry` was registered: it takes the place of the entry
/// that had its alias, or comes last when the alias is new.
pub open spec fn registered(entries: Seq<Entry>, entry: Entry) -> Seq<Entry> {
    match index_of(entries, entry.alias) {
        Some(i) => entries.update(i, entry),
        None => entries.push(entry),
    }
}

/// The entries as a map from each registered alias to its entry.
pub open spec fn mapping(entries: Seq<Entry>) -> Map<Seq<char>, Entry> {
    Map::new(
        |alias: Seq<char>| lookup(entries, alias) is Some,
        |alias: Seq<char>| lookup(entries, alias)->0,
    )
}

/// No alias is registered twice.
pub open spec fn distinct_aliases(entries: Seq<Entry>) -> bool {
    forall|i: int, j: int|
        0 <= i < j < entries.len() ==> (#[trigger] entries[i]).alias != (
        #[trigger] entries[j]).alias
}

/// The directory, as documents see it, that holds the mirrored files.
pub open spec fn link_directory() -> Seq<char> {
    "./_files/"@
}

/// The path by which a document reaches the file registered under `alias`.
pub open spec fn link_path(entries: Seq<Entry>, alias: Seq<char>) -> Option<Seq<char>> {
    match lookup(entries, alias) {
        Some(entry) => match final_component(entry.source_path) {
            Some(name) => Some(link_directory() + name),
            None => None,
        },
        None => None,
    }
}

/// A reference of the given kind to `link`, labelled with `alias`.
pub open spec fn rendered(kind: FileType, alias: Seq<char>, link: Seq<char>) -> Seq<char> {
    match kind {
        FileType::Link => "["@ + alias + "]("@ + link + ")"@,
        FileType::Image => "![Image not found]("@ + link + ")"@,
    }
}

/// The text that stands in a document for a reference to `alias`.
pub open spec fn insert_text(entries: Seq<Entry>, alias: Seq<char>) -> Option<Seq<char>> {
    match (lookup(entries, alias), link_path(entries, alias)) {
        (Some(entry), Some(link)) => Some(rendered(entry.kind, alias, link)),
        _ => None,
    }
}

/// `index_of` finds the first position that holds the alias, and finds
/// nothing only when no position holds it.
pub proof fn lemma_index_of(entries: Seq<Entry>, alias: Seq<char>)
    ensures
        match index_of(entries, alias) {
            Some(i) => 0 <= i < entries.len() && entries[i].alias == alias && forall|k: int|
                0 <= k < i ==> (#[trigger] entries[k]).alias != alias,
            None => forall|k: int|
                0 <= k < entries.len() ==> (#[trigger] entries[k]).alias != alias,
        },
    decreases entries.len(),
{
    if entries.len() > 0 {
        let front = entries.drop_last();
        lemma_index_of(front, alias);
        assert forall|k: int| 0 <= k < front.len() implies front[k] == entries[k] by {}
        match index_of(front, alias) {
            Some(i) => {
                assert(front[i] == entries[i]);
                assert forall|k: int| 0 <= k < i implies (#[trigger] entries[k]).alias != alias by {
                    assert(front[k] == entries[k]);
                }
            },
            None => {
                assert forall|k: int| 0 <= k < front.len() implies (#[trigger] entries[k]).alias
                    != alias by {
                    assert(front[k] == entries[k]);
                }
            },
        }
    }
}

/// The position that holds the alias, with no earlier one, is what
/// `index_of` finds.
pub proof fn lemma_index_of_first(entries: Seq<Entry>, alias: Seq<char>, i: int)
    requires
        0 <= i <= entries.len(),
        forall|k: int| 0 <= k < i ==> (#[trigger] entries[k]).alias != alias,
        i < entries.len() ==> entries[i].alias == alias,
    ensures
        index_of(entries, alias) == if i < entries.len() {
            Some(i)
        } else {
            None
        },
{
    lemma_index_of(entries, alias);
}

/// An alias that has just been registered is found with what was given
/// for it, whatever it stood for before.
pub proof fn lemma_registered_is_found(entries: Seq<Entry>, entry: Entry)
    ensures
        lookup(registered(entries, entry), entry.alias) == Some(entry),
{
    lemma_index_of(entries, entry.alias);
    let after = registered(entries, entry);
    match index_of(entries, entry.alias) {
        Some(i) => {
            assert forall|k: int| 0 <= k < i implies (#[trigger] after[k]).alias != entry.alias by {
                assert(after[k] == entries[k]);
            }
            lemma_index_of_first(after, entry.alias, i);
        },
        None => {
            assert forall|k: int| 0 <= k < entries.len() implies (#[trigger] after[k]).alias
                != entry.alias by {
                assert(after[k] == entries[k]);
            }
            lemma_index_of_first(after, entry.alias, entries.len() as int);
        },
    }
}

/// Registering one alias leaves every other alias as it was.
pub proof fn lemma_registered_keeps_others(entries: Seq<Entry>, entry: Entry, other: Seq<char>)
    requires
        other != entry.alias,
    ensures
        lookup(registered(entries, entry), other) == lookup(entries, other),
{
    lemma_index_of(entries, entry.alias);
    lemma_index_of(entries, other);
    let after = registered(entries, entry);
    assert forall|k: int| 0 <= k < entries.len() implies ((#[trigger] after[k]).alias == other
        <==> entries[k].alias == other) by {}
    match index_of(entries, other) {
        Some(i) => {
            assert forall|k: int| 0 <= k < i implies (#[trigger] after[k]).alias != other by {
                assert(entries[k].alias != other);
            }
            assert(after[i] == entries[i]);
            lemma_index_of_first(after, other, i);
        },
        None => {
            assert forall|k: int| 0 <= k < after.len() implies (#[trigger] after[k]).alias
                != other by {
                if k < entries.len() {
                    assert(entries[k].alias != other);
                }
            }
            lemma_index_of_first(after, other, after.len() as int);
        },
    }
}

/// Registering an entry is inserting it into the map under its alias: the
/// last registration of an alias wins.
pub proof fn lemma_registering_is_inserting(entries: Seq<Entry>, entry: Entry)
    ensures
        mapping(registered(entries, entry)) == mapping(entries).insert(entry.alias, entry),
{
    let after = mapping(registered(entries, entry));
    let inserted = mapping(entries).insert(entry.alias, entry);
    lemma_registered_is_found(entries, entry);
    assert forall|alias: Seq<char>| #[trigger]
        after.dom().contains(alias) == inserted.dom().contains(alias) && (after.dom().contains(
            alias,
        ) ==> after[alias] == inserted[alias]) by {
        if alias != entry.alias {
            lemma_registered_keeps_others(entries, entry, alias);
        }
    }
    assert(after =~= inserted);
}

/// Registering keeps every alias unique.
pub proof fn lemma_registered_stays_distinct(entries: Seq<Entry>, entry: Entry)
    requires
        distinct_aliases(entries),
    ensures
        distinct_aliases(registered(entries, entry)),
{
    lemma_index_of(entries, entry.alias);
    let after = registered(entries, entry);
    assert forall|i: int, j: int| 0 <= i < j < after.len() implies (#[trigger] after[i]).alias != (
    #[trigger] after[j]).alias by {
        match index_of(entries, entry.alias) {
            Some(at) => {
                assert(entries[i].alias != entries[j].alias);
                if i != at && j != at {
                } else if i == at {
                    assert(entries[at].alias != entries[j].alias);
                } else {
                    assert(entries[i].alias != entries[at].alias);
                }
            },
            None => {
                if j < entries.len() {
                    assert(entries[i].alias != entries[j].alias);
                } else {
                    assert(entries[i].alias != entry.alias);
                }
            },
        }
    }
}

/// The path by which a document reaches a file ends in the name of that
/// file, as the path of its copy in the mirror directory does.
pub proof fn lemma_link_path_ends_in_file_name(entries: Seq<Entry>, alias: Seq<char>)
    ensures
        link_path(entries, alias) matches Some(link) ==> final_component(link) == final_component(
            lookup(entries, alias)->0.source_path,
        ),
{
    if let Some(link) = link_path(entries, alias) {
        let name = final_component(lookup(entries, alias)->0.source_path)->0;
        lemma_final_component_is_file_name(lookup(entries, alias)->0.source_path);
        reveal_strlit("./_files/");
        let start = link.len() - name.len();
        assert(link.subrange(start, link.len() as int) =~= name);
        assert(link[start - 1] == "./_files/"@[8]);
        assert forall|k: int| start <= k < link.len() implies link[k] != '/' by {
            assert(link[k] == name[k - start]);
        }
        lemma_component_start(link, start);
    }
}

/// One registered alias, as the registry holds it.
#[derive(Debug)]
pub struct AliasEntry {
    pub alias: String,
    pub source_path: String,
    pub kind: FileType,
}

impl View for AliasEntry {
    type V = Entry;

    open spec fn view(&self) -> Entry {
        Entry { alias: self.alias@, source_path: self.source_path@, kind: self.kind }
    }
}

/// The registry of aliases, with the directory that mirrors their files.
#[derive(Debug)]
pub struct FileCache {
    output_dir: String,
    entries: Vec<AliasEntry>,
}

impl View for FileCache {
    type V = Registry;

    closed spec fn view(&self) -> Registry {
        Registry {
            cache_directory: self.output_dir@,
            entries: self.entries@.map_values(|e: AliasEntry| e@),
        }
    }
}

impl FileCache {
    /// The directory under the document root that mirrors the outside files.
    pub open spec fn directory_under(root: Seq<char>) -> Seq<char> {
        joined(joined(root, "src"@), "_files"@)
    }

    /// No alias is registered twice.
    pub open spec fn wf(&self) -> bool {
        distinct_aliases(self@.entries)
    }

    /// An empty registry for the document tree at `root`.
    pub fn new(root: &str) -> (cache: Result<FileCache, FileSearchProcessorError>)
        ensures
            cache matches Ok(c) && c@ == (Registry {
                cache_directory: Self::directory_under(root@),
                entries: Seq::empty(),
            }) && c.wf(),
    {
        let src = join(root, "src");
        let output_dir = join(src.as_str(), "_files");
        let cache = FileCache { output_dir, entries: Vec::new() };
        assert(cache@.entries =~= Seq::empty());
        Ok(cache)
    }

    /// The directory that mirrors the outside files.
    pub fn output_dir(&self) -> (dir: &str)
        ensures
            dir@ == self@.cache_directory,
    {
        self.output_dir.as_str()
    }

    /// The number of registered aliases.
    pub fn len(&self) -> (count: usize)
        ensures
            count == self@.entries.len(),
    {
        self.entries.len()
    }

    /// The path registered at position `i`.
    pub(crate) fn source_path(&self, i: usize) -> (path: &str)
        requires
            i < self@.entries.len(),
        ensures
            path@ == self@.entries[i as int].source_path,
    {
        self.entries[i].source_path.as_str()
    }

    /// The position of the entry registered under `alias`.
    fn find(&self, alias: &str) -> (found: Option<usize>)
        ensures
            match found {
                Some(i) => index_of(self@.entries, alias@) == Some(i as int) && i
                    < self.entries.len(),
                None => index_of(self@.entries, alias@) is None,
            },
    {
        let mut i: usize = 0;
        while i < self.entries.len()
            invariant
                i <= self.entries.len(),
                forall|k: int| 0 <= k < i ==> (#[trigger] self@.entries[k]).alias != alias@,
            decreases self.entries.len() - i,
        {
            if *self.entries[i].alias.as_str() == *alias {
                proof {
                    lemma_index_of_first(self@.entries, alias@, i as int);
                }
                return Some(i);
            }
            i += 1;
        }
        proof {
            lemma_index_of_first(self@.entries, alias@, i as int);
        }
        None
    }

    /// Registers `path` under `alias`, to be shown as `file_type` says.
    ///
    /// An alias that was registered before gets the new path and kind. A
    /// `file_type` other than `link` or `image` is an error, and the
    /// registry stays as it was.
    pub fn add_file(&mut self, alias: &str, path: &str, file_type: &str) -> (outcome: Result<
        (),
        FileSearchProcessorError,
    >)
        ensures
            match FileType::parsed(file_type@) {
                Ok(kind) => outcome is Ok && final(self)@ == (Registry {
                    entries: registered(
                        old(self)@.entries,
                        Entry { alias: alias@, source_path: path@, kind },
                    ),
                    ..old(self)@
                }),
                Err(e) => outcome == Err::<(), FileSearchProcessorError>(e) && final(self)@ == old(
                    self,
                )@,
            },
            old(self).wf() ==> final(self).wf(),
    {
        let kind = match FileType::try_from(file_type) {
            Ok(kind) => kind,
            Err(e) => {
                return Err(e);
            },
        };
        let entry = AliasEntry { alias: alias.to_owned(), source_path: path.to_owned(), kind };
        proof {
            if self.wf() {
                lemma_registered_stays_distinct(self@.entries, entry@);
            }
        }
        match self.find(alias) {
            Some(i) => {
                self.entries.set(i, entry);
                assert(self@.entries =~= registered(old(self)@.entries, entry@));
            },
            None => {
                self.entries.push(entry);
                assert(self@.entries =~= registered(old(self)@.entries, entry@));
            },
        }
        Ok(())
    }

    /// The path by which a document reaches the file registered under
    /// `alias`: `None` for an alias that is not registered, and for a path
    /// that ends in no file name.
    pub fn get_link_path(&self, alias: &str) -> (link: Option<String>)
        ensures
            text_of(link) == link_path(self@.entries, alias@),
    {
        match self.find(alias) {
            Some(i) => {
                match file_name(self.entries[i].source_path.as_str()) {
                    Some(name) => {
                        let mut link = "./_files/".to_owned();
                        link.append(name.as_str());
                        Some(link)
                    },
                    None => None,
                }
            },
            None => None,
        }
    }

    /// The text that stands in a document for a reference to `alias`: a
    /// link or an image, as the alias was registered, or `None` where
    /// `get_link_path` gives none.
    pub fn get_insert_text(&self, alias: &str) -> (text: Option<String>)
        ensures
            text_of(text) == insert_text(self@.entries, alias@),
    {
        let link = match self.get_link_path(alias) {
            Some(link) => link,
            None => {
                return None;
            },
        };
        match self.find(alias) {
            Some(i) => {
                let mut text: String;
                match self.entries[i].kind {
                    FileType::Link => {
                        text = "[".to_owned();
                        text.append(alias);
                        text.append("](");
                    },
                    FileType::Image => {
                        text = "![Image not found](".to_owned();
                    },
                }
                text.append(link.as_str());
                text.append(")");
                Some(text)
            },
            None => None,
        }
    }
}

} // verus!
