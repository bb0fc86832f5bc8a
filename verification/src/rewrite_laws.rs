//! What holds of rewriting, for every registry and every text.

use vstd::prelude::*;
use crate::cache::{insert_text, link_path, lookup, rendered, Entry};
use crate::file_type::FileType;
use crate::rewrite::{
    alias_at, alias_end, closing, fallback, is_alias_char, lemma_alias_end, lemma_alias_run,
    opening, placeholder_end, replacement, rewritten, rewritten_from, stands_at,
};

verus! {

/// A placeholder begins somewhere in `text`.
pub open spec fn has_placeholder(text: Seq<char>) -> bool {
    exists|at: int| (#[trigger] placeholder_end(text, at)) is Some
}

/// `alias` can stand in a placeholder: it is not empty, and made of alias
/// characters only.
pub open spec fn is_alias(alias: Seq<char>) -> bool {
    alias.len() > 0 && forall|k: int| 0 <= k < alias.len() ==> is_alias_char(#[trigger] alias[k])
}

/// The placeholder for `alias`.
pub open spec fn placeholder(alias: Seq<char>) -> Seq<char> {
    opening() + alias + closing()
}

/// The characters of the marks that enclose an alias, and of the fallback.
pub proof fn lemma_marks()
    ensures
        opening() =~= seq!['{', '{', '#', 'f', 'i', 'n', 'd', ' '],
        closing() =~= seq!['}', '}'],
        fallback() =~= seq!['u', 'n', 'k', 'n', 'o', 'w', 'n'],
{
    reveal_strlit("{{#find ");
    reveal_strlit("}}");
    reveal_strlit("unknown");
}

/// What a placeholder becomes is never empty and never begins as a
/// placeholder does.
pub proof fn lemma_replacement_begins_otherwise(entries: Seq<Entry>, alias: Seq<char>)
    ensures
        replacement(entries, alias).len() > 0,
        replacement(entries, alias)[0] != '{',
{
    lemma_marks();
    reveal_strlit("[");
    reveal_strlit("![Image not found](");
    match insert_text(entries, alias) {
        Some(text) => {
            let entry = lookup(entries, alias)->0;
            let link = link_path(entries, alias)->0;
            assert(text == rendered(entry.kind, alias, link));
            match entry.kind {
                FileType::Link => {
                    assert(text[0] == "["@[0]);
                },
                FileType::Image => {
                    assert(text[0] == "![Image not found]("@[0]);
                },
            }
        },
        None => {},
    }
}

proof fn lemma_kept_from(entries: Seq<Entry>, text: Seq<char>, at: int)
    requires
        0 <= at <= text.len(),
        !has_placeholder(text),
    ensures
        rewritten_from(entries, text, at) == text.skip(at),
    decreases text.len() - at,
{
    if at < text.len() {
        assert(placeholder_end(text, at) is None);
        lemma_kept_from(entries, text, at + 1);
        assert(seq![text[at]] + text.skip(at + 1) =~= text.skip(at));
    } else {
        assert(text.skip(at) =~= Seq::<char>::empty());
    }
}

proof fn lemma_changed_from(entries: Seq<Entry>, text: Seq<char>, from: int, at: int)
    requires
        0 <= from <= at,
        placeholder_end(text, at) is Some,
    ensures
        rewritten_from(entries, text, from) != text.skip(from),
    decreases at - from,
{
    lemma_marks();
    assert(at + 8 <= text.len());
    let out = rewritten_from(entries, text, from);
    match placeholder_end(text, from) {
        Some(end) => {
            let put = replacement(entries, alias_at(text, from));
            lemma_replacement_begins_otherwise(entries, alias_at(text, from));
            assert(out[0] == put[0]);
            assert(text.subrange(from, from + 8)[0] == '{');
            assert(text.skip(from)[0] == '{');
        },
        None => {
            lemma_changed_from(entries, text, from + 1, at);
            let tail = rewritten_from(entries, text, from + 1);
            assert(out == seq![text[from]] + tail);
            if out == text.skip(from) {
                assert(out.skip(1) =~= tail);
                assert(text.skip(from).skip(1) =~= text.skip(from + 1));
            }
        },
    }
}

/// Rewriting leaves a text as it is exactly when no placeholder begins
/// in it.
pub proof fn lemma_rewriting_keeps_exactly_plain_text(entries: Seq<Entry>, text: Seq<char>)
    ensures
        rewritten(entries, text) == text <==> !has_placeholder(text),
{
    if has_placeholder(text) {
        let at = choose|at: int| (#[trigger] placeholder_end(text, at)) is Some;
        lemma_changed_from(entries, text, 0, at);
    } else {
        lemma_kept_from(entries, text, 0);
    }
    assert(text.skip(0) =~= text);
}

/// Rewriting is idempotent: where no placeholder begins in what it gave,
/// rewriting that once more changes nothing.
pub proof fn lemma_rewriting_is_idempotent(entries: Seq<Entry>, text: Seq<char>)
    requires
        !has_placeholder(rewritten(entries, text)),
    ensures
        rewritten(entries, rewritten(entries, text)) == rewritten(entries, text),
{
    lemma_rewriting_keeps_exactly_plain_text(entries, rewritten(entries, text));
}

} // verus!

verus! {

proof fn lemma_alias_end_shift(text: Seq<char>, from: int, by: int)
    requires
        0 <= by <= from <= text.len(),
    ensures
        alias_end(text, from) == alias_end(text.skip(by), from - by) + by,
    decreases text.len() - from,
{
    if from < text.len() && is_alias_char(text[from]) {
        lemma_alias_end_shift(text, from + 1, by);
    }
}

proof fn lemma_stands_at_shift(text: Seq<char>, at: int, by: int, part: Seq<char>)
    requires
        0 <= by <= at,
        by <= text.len(),
    ensures
        stands_at(text, at, part) == stands_at(text.skip(by), at - by, part),
{
    if at + part.len() <= text.len() {
        assert(text.subrange(at, at + part.len()) =~= text.skip(by).subrange(
            at - by,
            at - by + part.len(),
        ));
    }
}

proof fn lemma_placeholder_shift(text: Seq<char>, at: int, by: int)
    requires
        0 <= by <= at <= text.len(),
    ensures
        placeholder_end(text, at) == match placeholder_end(text.skip(by), at - by) {
            Some(end) => Some(end + by),
            None => None,
        },
        placeholder_end(text, at) is Some ==> alias_at(text, at) == alias_at(
            text.skip(by),
            at - by,
        ),
{
    let from = at + opening().len();
    lemma_stands_at_shift(text, at, by, opening());
    if stands_at(text, at, opening()) {
        lemma_alias_end_shift(text, from, by);
        lemma_alias_end(text, from);
        let to = alias_end(text, from);
        lemma_stands_at_shift(text, to, by, closing());
        assert(text.subrange(from, to) =~= text.skip(by).subrange(from - by, to - by));
    }
}

/// What rewriting gives from a position on depends on the text from that
/// position on, and on nothing before it.
pub proof fn lemma_rewritten_from_is_rewritten_rest(entries: Seq<Entry>, text: Seq<char>, at: int)
    requires
        0 <= at <= text.len(),
    ensures
        rewritten_from(entries, text, at) == rewritten(entries, text.skip(at)),
{
    lemma_rewritten_shift(entries, text, at, at);
}

proof fn lemma_rewritten_shift(entries: Seq<Entry>, text: Seq<char>, at: int, by: int)
    requires
        0 <= by <= at <= text.len(),
    ensures
        rewritten_from(entries, text, at) == rewritten_from(entries, text.skip(by), at - by),
    decreases text.len() - at,
{
    if at < text.len() {
        lemma_placeholder_shift(text, at, by);
        match placeholder_end(text, at) {
            Some(end) => {
                lemma_alias_end(text, at + opening().len());
                lemma_rewritten_shift(entries, text, end, by);
            },
            None => {
                lemma_rewritten_shift(entries, text, at + 1, by);
            },
        }
    }
}

proof fn lemma_alias_end_prefix(head: Seq<char>, tail: Seq<char>, from: int)
    requires
        0 <= from <= head.len(),
    ensures
        alias_end(head, from) < head.len() ==> alias_end(head + tail, from) == alias_end(
            head,
            from,
        ),
        alias_end(head + tail, from) < head.len() ==> alias_end(head, from) == alias_end(
            head + tail,
            from,
        ),
{
    let text = head + tail;
    lemma_alias_end(head, from);
    lemma_alias_end(text, from);
    let short = alias_end(head, from);
    let long = alias_end(text, from);
    if short < head.len() {
        assert forall|k: int| from <= k < short implies is_alias_char(text[k]) by {
            assert(text[k] == head[k]);
        }
        assert(text[short] == head[short]);
        lemma_alias_run(text, from, short);
    }
    if long < head.len() {
        assert forall|k: int| from <= k < long implies is_alias_char(head[k]) by {
            assert(text[k] == head[k]);
        }
        assert(text[long] == head[long]);
        lemma_alias_run(head, from, long);
    }
}

/// A text that begins as a placeholder does.
spec fn begins_as_placeholder(text: Seq<char>) -> bool {
    text.len() >= 2 && text[0] == '{' && text[1] == '{'
}

proof fn lemma_placeholder_prefix(head: Seq<char>, tail: Seq<char>, at: int)
    requires
        0 <= at < head.len(),
        begins_as_placeholder(tail),
    ensures
        placeholder_end(head + tail, at) == placeholder_end(head, at),
        placeholder_end(head, at) is Some ==> alias_at(head + tail, at) == alias_at(head, at),
        placeholder_end(head, at) matches Some(end) ==> end <= head.len(),
{
    lemma_marks();
    let text = head + tail;
    let from = at + 8;
    if placeholder_end(head, at) is Some {
        lemma_alias_end(head, from);
        let to = alias_end(head, from);
        lemma_alias_end_prefix(head, tail, from);
        assert(text.subrange(at, from) =~= head.subrange(at, from));
        assert(text.subrange(to, to + 2) =~= head.subrange(to, to + 2));
        assert(text.subrange(from, to) =~= head.subrange(from, to));
    } else if placeholder_end(text, at) is Some {
        lemma_alias_end(text, from);
        let to = alias_end(text, from);
        let mid = head.len() as int;
        let begin = text.subrange(at, from);
        let close = text.subrange(to, to + 2);
        assert(text[mid] == tail[0]);
        assert(text[mid + 1] == tail[1]);
        if to + 2 > mid {
            if mid < from {
                assert(begin[mid - at] == text[mid]);
                assert(begin[mid - at + 1] == text[mid + 1]);
                assert(false);
            } else if mid < to {
                assert(is_alias_char(text[mid]));
                assert(false);
            } else {
                assert(close[mid - to] == text[mid]);
                assert(false);
            }
        }
        lemma_alias_end_prefix(head, tail, from);
        assert(text.subrange(at, from) =~= head.subrange(at, from));
        assert(text.subrange(to, to + 2) =~= head.subrange(to, to + 2));
        assert(false);
    }
}

proof fn lemma_rewritten_prefix(entries: Seq<Entry>, head: Seq<char>, tail: Seq<char>, at: int)
    requires
        0 <= at <= head.len(),
        begins_as_placeholder(tail),
    ensures
        rewritten_from(entries, head + tail, at) == rewritten_from(entries, head, at) + rewritten(
            entries,
            tail,
        ),
    decreases head.len() - at,
{
    let text = head + tail;
    if at == head.len() {
        lemma_rewritten_from_is_rewritten_rest(entries, text, at);
        assert(text.skip(at) =~= tail);
        assert(Seq::<char>::empty() + rewritten(entries, tail) =~= rewritten(entries, tail));
    } else {
        lemma_placeholder_prefix(head, tail, at);
        assert(text[at] == head[at]);
        match placeholder_end(head, at) {
            Some(end) => {
                lemma_alias_end(head, at + opening().len());
                lemma_rewritten_prefix(entries, head, tail, end);
                let put = replacement(entries, alias_at(head, at));
                assert(put + (rewritten_from(entries, head, end) + rewritten(entries, tail)) =~= (
                put + rewritten_from(entries, head, end)) + rewritten(entries, tail));
            },
            None => {
                lemma_rewritten_prefix(entries, head, tail, at + 1);
                let one = seq![head[at]];
                assert(one + (rewritten_from(entries, head, at + 1) + rewritten(entries, tail))
                    =~= (one + rewritten_from(entries, head, at + 1)) + rewritten(entries, tail));
            },
        }
    }
}

proof fn lemma_rewritten_placeholder(entries: Seq<Entry>, alias: Seq<char>, after: Seq<char>)
    requires
        is_alias(alias),
    ensures
        rewritten(entries, placeholder(alias) + after) == replacement(entries, alias) + rewritten(
            entries,
            after,
        ),
        begins_as_placeholder(placeholder(alias) + after),
{
    lemma_marks();
    let text = placeholder(alias) + after;
    let to = 8 + alias.len() as int;
    assert(text.subrange(0, 8) =~= opening());
    assert forall|k: int| 8 <= k < to implies is_alias_char(text[k]) by {
        assert(text[k] == alias[k - 8]);
    }
    assert(text[to] == '}');
    lemma_alias_run(text, 8, to);
    assert(text.subrange(to, to + 2) =~= closing());
    assert(text.subrange(8, to) =~= alias);
    assert(placeholder_end(text, 0) == Some(to + 2));
    lemma_rewritten_from_is_rewritten_rest(entries, text, to + 2);
    assert(text.skip(to + 2) =~= after);
}

/// A placeholder is replaced by what the registry holds for its alias,
/// whatever stands before and behind it, and the text before and the
/// text behind are rewritten as if each stood alone.
pub proof fn lemma_rewriting_around_placeholder(
    entries: Seq<Entry>,
    before: Seq<char>,
    alias: Seq<char>,
    after: Seq<char>,
)
    requires
        is_alias(alias),
    ensures
        rewritten(entries, before + placeholder(alias) + after) == rewritten(entries, before)
            + replacement(entries, alias) + rewritten(entries, after),
{
    let tail = placeholder(alias) + after;
    lemma_rewritten_placeholder(entries, alias, after);
    lemma_rewritten_prefix(entries, before, tail, 0);
    assert(before + placeholder(alias) + after =~= before + tail);
    assert(rewritten(entries, before) + (replacement(entries, alias) + rewritten(entries, after))
        =~= rewritten(entries, before) + replacement(entries, alias) + rewritten(entries, after));
}

/// Two placeholders for one alias in one text are replaced by the same
/// text, each where it stands.
pub proof fn lemma_rewriting_same_alias_twice(
    entries: Seq<Entry>,
    before: Seq<char>,
    alias: Seq<char>,
    between: Seq<char>,
    after: Seq<char>,
)
    requires
        is_alias(alias),
    ensures
        rewritten(
            entries,
            before + placeholder(alias) + between + placeholder(alias) + after,
        ) == rewritten(entries, before) + replacement(entries, alias) + rewritten(
            entries,
            between,
        ) + replacement(entries, alias) + rewritten(entries, after),
{
    let rest = between + placeholder(alias) + after;
    lemma_rewriting_around_placeholder(entries, before, alias, rest);
    lemma_rewriting_around_placeholder(entries, between, alias, after);
    let put = replacement(entries, alias);
    assert(before + placeholder(alias) + between + placeholder(alias) + after =~= before
        + placeholder(alias) + rest);
    assert(rewritten(entries, before) + put + (rewritten(entries, between) + put + rewritten(
        entries,
        after,
    )) =~= rewritten(entries, before) + put + rewritten(entries, between) + put + rewritten(
        entries,
        after,
    ));
}

/// An alias that is not registered has no text of its own, and its
/// placeholder becomes the fallback.
pub proof fn lemma_unregistered_alias_becomes_fallback(entries: Seq<Entry>, alias: Seq<char>)
    requires
        lookup(entries, alias) is None,
    ensures
        link_path(entries, alias) is None,
        insert_text(entries, alias) is None,
        replacement(entries, alias) == fallback(),
{
}

} // verus!
