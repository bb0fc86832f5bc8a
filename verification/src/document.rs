//! The units of a document tree, and the pass that rewrites the
//! placeholders in those that hold text.

use vstd::prelude::*;
use vstd::string::*;
use crate::cache::{Entry, FileCache};
use crate::rewrite::{rewritten, Rewriter};

verus! {

/// One unit of a document tree.
#[derive(Debug, PartialEq, Eq)]
pub enum DocumentUnit {
    /// A chapter, with the text that it holds.
    Chapter { content: String },
    /// A line that sets parts of the tree apart.
    Separator,
    /// The heading of a part: a title without a body.
    PartTitle { title: String },
}

/// What a `DocumentUnit` stands for.
pub ghost enum Unit {
    Chapter { content: Seq<char> },
    Separator,
    PartTitle { title: Seq<char> },
}

impl View for DocumentUnit {
    type V = Unit;

    open spec fn view(&self) -> Unit {
        match self {
            DocumentUnit::Chapter { content } => Unit::Chapter { content: content@ },
            DocumentUnit::Separator => Unit::Separator,
            DocumentUnit::PartTitle { title } => Unit::PartTitle { title: title@ },
        }
    }
}

/// The views of the units of a document tree, in the order of the tree.
pub open spec fn units_of(units: Seq<DocumentUnit>) -> Seq<Unit> {
    units.map_values(|u: DocumentUnit| u@)
}

/// A unit after the pass: a chapter has its text rewritten, and a unit
/// without text is as it was.
pub open spec fn rewritten_unit(entries: Seq<Entry>, unit: Unit) -> Unit {
    match unit {
        Unit::Chapter { content } => Unit::Chapter { content: rewritten(entries, content) },
        other => other,
    }
}

/// The preprocessor that puts references to registered files in the place
/// of their placeholders.
#[derive(Clone, Copy, Debug, Default)]
pub struct FileSearch;

impl FileSearch {
    /// The name by which the preprocessor is configured.
    pub fn name(&self) -> (name: &'static str)
        ensures
            name@ == "file-search"@,
    {
        "file-search"
    }

    /// Every renderer is supported.
    pub fn supports_renderer(&self, renderer: &str) -> (supported: bool)
        ensures
            supported,
    {
        true
    }

    /// The document tree with the placeholders of every chapter replaced
    /// by what `cache` holds for their aliases. The units keep their
    /// order, and `cache` is only read.
    pub fn run(&self, cache: &FileCache, book: Vec<DocumentUnit>) -> (out: Vec<DocumentUnit>)
        ensures
            units_of(out@) == units_of(book@).map_values(
                |unit: Unit| rewritten_unit(cache@.entries, unit),
            ),
    {
        let rewriter = Rewriter::new();
        let mut out = book;
        let mut i: usize = 0;
        while i < out.len()
            invariant
                i <= out.len(),
                out.len() == book.len(),
                forall|k: int|
                    0 <= k < i ==> (#[trigger] out@[k])@ == rewritten_unit(
                        cache@.entries,
                        book@[k]@,
                    ),
                forall|k: int| i <= k < out.len() ==> (#[trigger] out@[k]) == book@[k],
            decreases out.len() - i,
        {
            let text = match &out[i] {
                DocumentUnit::Chapter { content } => Some(
                    rewriter.rewrite(cache, content.as_str()),
                ),
                _ => None,
            };
            match text {
                Some(content) => {
                    out.set(i, DocumentUnit::Chapter { content });
                },
                None => {},
            }
            i += 1;
        }
        assert(units_of(out@) =~= units_of(book@).map_values(
            |unit: Unit| rewritten_unit(cache@.entries, unit),
        ));
        out
    }
}

} // verus!
