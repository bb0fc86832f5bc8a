//! Placeholders in document text, and the text with each of them replaced
//! by what the registry holds for its alias.
//!
//! A placeholder is `{{#find `, then an alias of one or more ASCII letters,
//! digits and underscores, then `}}`.

use vstd::prelude::*;
use vstd::string::*;
use crate::cache::{insert_text, Entry, FileCache};
use crate::text::{from_chars, to_chars};

verus! {

/// The characters that an alias is made of.
pub open spec fn is_alias_char(c: char) -> bool {
    ('a' <= c && c <= 'z') || ('A' <= c && c <= 'Z') || ('0' <= c && c <= '9') || c == '_'
}

/// What a placeholder begins with.
pub open spec fn opening() -> Seq<char> {
    "{{#find "@
}

/// What a placeholder ends with.
pub open spec fn closing() -> Seq<char> {
    "}}"@
}

/// What a placeholder becomes when nothing is registered for its alias.
pub open spec fn fallback() -> Seq<char> {
    "unknown"@
}

/// `part` stands in `text` at position `at`.
pub open spec fn stands_at(text: Seq<char>, at: int, part: Seq<char>) -> bool {
    0 <= at && at + part.len() <= text.len() && text.subrange(at, at + part.len()) == part
}

/// Where the longest run of alias characters that begins at `from` ends.
pub open spec fn alias_end(text: Seq<char>, from: int) -> int
    decreases text.len() - from,
{
    if 0 <= from < text.len() && is_alias_char(text[from]) {
        alias_end(text, from + 1)
    } else {
        from
    }
}

/// Where the placeholder that begins at `at` ends, if one begins there.
pub open spec fn placeholder_end(text: Seq<char>, at: int) -> Option<int> {
    let from = at + opening().len();
    let to = alias_end(text, from);
    if stands_at(text, at, opening()) && from < to && stands_at(text, to, closing()) {
        Some(to + closing().len())
    } else {
        None
    }
}

/// The alias of the placeholder that begins at `at`.
pub open spec fn alias_at(text: Seq<char>, at: int) -> Seq<char> {
    text.subrange(at + opening().len(), alias_end(text, at + opening().len()))
}

/// What a placeholder for `alias` becomes: the registry's text for the
/// alias, or the fallback when it has none.
pub open spec fn replacement(entries: Seq<Entry>, alias: Seq<char>) -> Seq<char> {
    match insert_text(entries, alias) {
        Some(text) => text,
        None => fallback(),
    }
}

/// `text` from position `at` on, with the placeholders replaced: they are
/// taken from left to right, none overlaps another, and what was put in
/// is not searched again.
pub open spec fn rewritten_from(entries: Seq<Entry>, text: Seq<char>, at: int) -> Seq<char>
    decreases text.len() - at,
{
    if at < 0 || at >= text.len() {
        Seq::empty()
    } else {
        match placeholder_end(text, at) {
            Some(end) => replacement(entries, alias_at(text, at)) + rewritten_from(
                entries,
                text,
                end,
            ),
            None => seq![text[at]] + rewritten_from(entries, text, at + 1),
        }
    }
}

/// `text` with every placeholder replaced.
pub open spec fn rewritten(entries: Seq<Entry>, text: Seq<char>) -> Seq<char> {
    rewritten_from(entries, text, 0)
}

/// The run of alias characters from `from` on ends inside the text, and
/// at a character that is none of them.
pub proof fn lemma_alias_end(text: Seq<char>, from: int)
    requires
        0 <= from <= text.len(),
    ensures
        from <= alias_end(text, from) <= text.len(),
        forall|k: int| from <= k < alias_end(text, from) ==> is_alias_char(text[k]),
        alias_end(text, from) < text.len() ==> !is_alias_char(text[alias_end(text, from)]),
    decreases text.len() - from,
{
    if from < text.len() && is_alias_char(text[from]) {
        lemma_alias_end(text, from + 1);
    }
}

/// A stretch of alias characters that stops at the end of the text, or at
/// a character that is none of them, is the whole run.
pub proof fn lemma_alias_run(text: Seq<char>, from: int, to: int)
    requires
        0 <= from <= to <= text.len(),
        forall|k: int| from <= k < to ==> is_alias_char(text[k]),
        to < text.len() ==> !is_alias_char(text[to]),
    ensures
        alias_end(text, from) == to,
    decreases to - from,
{
    if from < to {
        lemma_alias_run(text, from + 1, to);
    }
}

/// Whether `c` can stand in an alias.
fn is_alias_character(c: char) -> (yes: bool)
    ensures
        yes == is_alias_char(c),
{
    ('a' <= c && c <= 'z') || ('A' <= c && c <= 'Z') || ('0' <= c && c <= '9') || c == '_'
}

/// Whether `part` stands in `text` at position `at`.
fn part_stands_at(text: &Vec<char>, at: usize, part: &Vec<char>) -> (yes: bool)
    requires
        at <= text.len(),
    ensures
        yes == stands_at(text@, at as int, part@),
{
    if text.len() - at < part.len() {
        return false;
    }
    let mut k: usize = 0;
    while k < part.len()
        invariant
            at + part.len() <= text.len(),
            k <= part.len(),
            forall|j: int| 0 <= j < k ==> text@[at + j] == part@[j],
        decreases part.len() - k,
    {
        if text[at + k] != part[k] {
            assert(text@.subrange(at as int, at + part.len())[k as int] == text@[at + k]);
            return false;
        }
        k += 1;
    }
    assert(text@.subrange(at as int, at + part.len()) =~= part@);
    true
}

/// The end of the alias and of the placeholder that begins at `at`.
fn find_placeholder(text: &Vec<char>, at: usize, open: &Vec<char>, close: &Vec<char>) -> (found:
    Option<(usize, usize)>)
    requires
        at <= text.len(),
        open@ == opening(),
        close@ == closing(),
    ensures
        match found {
            Some((to, end)) => placeholder_end(text@, at as int) == Some(end as int) && to
                == alias_end(text@, at + opening().len()) && at + opening().len() < to && end
                == to + closing().len() && end <= text.len(),
            None => placeholder_end(text@, at as int) is None,
        },
{
    if !part_stands_at(text, at, open) {
        return None;
    }
    let from: usize = at + open.len();
    let mut to: usize = from;
    while to < text.len() && is_alias_character(text[to])
        invariant
            from <= to <= text.len(),
            forall|k: int| from <= k < to ==> is_alias_char(text@[k]),
        decreases text.len() - to,
    {
        to += 1;
    }
    proof {
        lemma_alias_run(text@, from as int, to as int);
    }
    if from < to && part_stands_at(text, to, close) {
        Some((to, to + close.len()))
    } else {
        None
    }
}

/// What a placeholder for `alias` becomes.
pub fn replacement_for(cache: &FileCache, alias: &str) -> (text: String)
    ensures
        text@ == replacement(cache@.entries, alias@),
{
    match cache.get_insert_text(alias) {
        Some(text) => text,
        None => "unknown".to_owned(),
    }
}

/// Finds the placeholders of a text and replaces them. It holds the marks
/// of a placeholder ready, so that one `Rewriter` serves for every text of
/// a document tree.
pub struct Rewriter {
    opening: Vec<char>,
    closing: Vec<char>,
}

impl Rewriter {
    #[verifier::type_invariant]
    spec fn holds_the_marks(self) -> bool {
        self.opening@ == opening() && self.closing@ == closing()
    }

    /// The marks that the rewriter looks for: what a placeholder begins
    /// with, and what it ends with.
    pub closed spec fn marks(&self) -> (Seq<char>, Seq<char>) {
        (self.opening@, self.closing@)
    }

    /// A rewriter for the placeholders `{{#find alias}}`.
    pub fn new() -> (rewriter: Rewriter)
        ensures
            rewriter.marks() == (opening(), closing()),
    {
        Rewriter { opening: to_chars("{{#find "), closing: to_chars("}}") }
    }

    /// `text` with every placeholder replaced by what `cache` holds for
    /// its alias, or by `unknown` where it holds nothing. `cache` is only
    /// read.
    pub fn rewrite(&self, cache: &FileCache, text: &str) -> (out: String)
        ensures
            out@ == rewritten(cache@.entries, text@),
    {
        proof {
            use_type_invariant(self);
        }
        let chars = to_chars(text);
        let mut out = String::new();
        let mut at: usize = 0;
        while at < chars.len()
            invariant
                at <= chars.len(),
                chars@ == text@,
                self.opening@ == opening(),
                self.closing@ == closing(),
                out@ + rewritten_from(cache@.entries, chars@, at as int) == rewritten(
                    cache@.entries,
                    chars@,
                ),
            decreases chars.len() - at,
        {
            let ghost before = out@;
            let ghost rest = rewritten_from(cache@.entries, chars@, at as int);
            match find_placeholder(&chars, at, &self.opening, &self.closing) {
                Some((to, end)) => {
                    let alias = from_chars(&chars, at + self.opening.len(), to);
                    let text = replacement_for(cache, alias.as_str());
                    out.append(text.as_str());
                    proof {
                        let tail = rewritten_from(cache@.entries, chars@, end as int);
                        assert(alias@ == alias_at(chars@, at as int));
                        assert(rest == text@ + tail);
                        assert((before + text@) + tail =~= before + (text@ + tail));
                    }
                    at = end;
                },
                None => {
                    out.push(chars[at]);
                    proof {
                        let tail = rewritten_from(cache@.entries, chars@, at + 1);
                        assert(rest == seq![chars@[at as int]] + tail);
                        assert(before.push(chars@[at as int]) + tail =~= before + (seq![
                            chars@[at as int],
                        ] + tail));
                    }
                    at += 1;
                },
            }
        }
        assert(out@ + Seq::<char>::empty() =~= out@);
        out
    }
}

/// `text` with every placeholder replaced by what `cache` holds for its
/// alias, or by `unknown` where it holds nothing.
pub fn rewrite(cache: &FileCache, text: &str) -> (out: String)
    ensures
        out@ == rewritten(cache@.entries, text@),
{
    Rewriter::new().rewrite(cache, text)
}

} // verus!
