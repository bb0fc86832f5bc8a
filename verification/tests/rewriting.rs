use file_search::cache::FileCache;
use file_search::rewrite::{replacement_for, rewrite, Rewriter};
use regex::{Captures, Regex};

fn registry() -> FileCache {
    let mut cache = FileCache::new("/book").unwrap();
    cache.add_file("guide", "/external/doc.pdf", "link").unwrap();
    cache.add_file("logo", "/assets/logo.png", "image").unwrap();
    cache.add_file("file_2", "data/table_2.csv", "link").unwrap();
    cache.add_file("nameless", "/", "link").unwrap();
    cache
}

#[test]
fn placeholder_becomes_a_link() {
    assert_eq!(
        rewrite(&registry(), "See {{#find guide}} for details."),
        "See [guide](./_files/doc.pdf) for details."
    );
}

#[test]
fn placeholder_becomes_an_image() {
    assert_eq!(
        rewrite(&registry(), "Our logo: {{#find logo}}"),
        "Our logo: ![Image not found](./_files/logo.png)"
    );
}

#[test]
fn unregistered_alias_becomes_unknown() {
    assert_eq!(rewrite(&registry(), "See {{#find nothing}}."), "See unknown.");
    assert_eq!(rewrite(&FileCache::new("/book").unwrap(), "{{#find guide}}"), "unknown");
}

#[test]
fn alias_without_a_file_name_becomes_unknown() {
    assert_eq!(rewrite(&registry(), "a {{#find nameless}} b"), "a unknown b");
}

#[test]
fn replacement_for_each_kind_of_alias() {
    let cache = registry();
    assert_eq!(replacement_for(&cache, "guide"), "[guide](./_files/doc.pdf)");
    assert_eq!(replacement_for(&cache, "logo"), "![Image not found](./_files/logo.png)");
    assert_eq!(replacement_for(&cache, "nothing"), "unknown");
    assert_eq!(replacement_for(&cache, "nameless"), "unknown");
}

#[test]
fn same_alias_twice_resolves_the_same_way() {
    assert_eq!(
        rewrite(&registry(), "{{#find guide}} and again {{#find guide}}"),
        "[guide](./_files/doc.pdf) and again [guide](./_files/doc.pdf)"
    );
}

#[test]
fn several_aliases_in_one_text() {
    assert_eq!(
        rewrite(&registry(), "{{#find logo}}\n{{#find guide}}, {{#find file_2}}; {{#find x}}"),
        "![Image not found](./_files/logo.png)\n[guide](./_files/doc.pdf), [file_2](./_files/table_2.csv); unknown"
    );
}

#[test]
fn adjacent_placeholders() {
    assert_eq!(
        rewrite(&registry(), "{{#find guide}}{{#find guide}}"),
        "[guide](./_files/doc.pdf)[guide](./_files/doc.pdf)"
    );
}

#[test]
fn text_without_placeholders_is_kept() {
    let cache = registry();
    for text in ["", "plain", "{{ }}", "a {{#include file.rs}} b", "guide", "{", "}}", "{{#find"] {
        assert_eq!(rewrite(&cache, text), text);
    }
}

#[test]
fn alias_must_not_be_empty() {
    assert_eq!(rewrite(&registry(), "{{#find }}"), "{{#find }}");
}

#[test]
fn alias_holds_letters_digits_and_underscores_only() {
    let cache = registry();
    for text in [
        "{{#find a b}}",
        "{{#find a-b}}",
        "{{#find a.b}}",
        "{{#find guide }}",
        "{{#find  guide}}",
        "{{#find r\u{e9}sum\u{e9}}}",
        "{{#find \u{3b1}}}",
        "{{#find \u{665}}}",
    ] {
        assert_eq!(rewrite(&cache, text), text, "text {:?}", text);
    }
}

#[test]
fn alias_may_hold_digits_and_underscores() {
    assert_eq!(rewrite(&registry(), "{{#find file_2}}"), "[file_2](./_files/table_2.csv)");
    assert_eq!(rewrite(&registry(), "{{#find _}} {{#find 0}} {{#find A_z9}}"), "unknown unknown unknown");
}

#[test]
fn marks_must_stand_exactly() {
    let cache = registry();
    for text in [
        "{{#find guide}",
        "{#find guide}}",
        "{{#findguide}}",
        "{{ #find guide}}",
        "{{#Find guide}}",
        "{{#find\tguide}}",
        "{{#find\nguide}}",
        "{{find guide}}",
        "{{#find guide} }",
    ] {
        assert_eq!(rewrite(&cache, text), text, "text {:?}", text);
    }
}

#[test]
fn aliases_are_case_sensitive() {
    assert_eq!(rewrite(&registry(), "{{#find Guide}} {{#find GUIDE}}"), "unknown unknown");
}

#[test]
fn braces_around_a_placeholder_stay() {
    assert_eq!(rewrite(&registry(), "{{{#find guide}}}"), "{[guide](./_files/doc.pdf)}");
}

#[test]
fn unfinished_placeholder_before_a_placeholder_stays() {
    assert_eq!(
        rewrite(&registry(), "{{#find {{#find guide}}"),
        "{{#find [guide](./_files/doc.pdf)"
    );
    assert_eq!(
        rewrite(&registry(), "{{#find guide{{#find logo}}"),
        "{{#find guide![Image not found](./_files/logo.png)"
    );
}

#[test]
fn placeholder_at_both_ends() {
    assert_eq!(
        rewrite(&registry(), "{{#find guide}} mid {{#find logo}}"),
        "[guide](./_files/doc.pdf) mid ![Image not found](./_files/logo.png)"
    );
}

#[test]
fn other_characters_are_kept() {
    assert_eq!(
        rewrite(&registry(), "h\u{e9}llo \u{1f600} {{#find guide}} w\u{f6}rld\r\n\t"),
        "h\u{e9}llo \u{1f600} [guide](./_files/doc.pdf) w\u{f6}rld\r\n\t"
    );
}

#[test]
fn what_was_put_in_is_not_searched_again() {
    let mut cache = FileCache::new("/book").unwrap();
    cache.add_file("odd", "/x/{{#find odd}}", "link").unwrap();
    assert_eq!(rewrite(&cache, "{{#find odd}}"), "[odd](./_files/{{#find odd}})");
}

#[test]
fn rewriting_twice_changes_nothing_more() {
    let cache = registry();
    for text in [
        "See {{#find guide}} for details.",
        "{{#find logo}}{{#find nothing}}",
        "plain text",
        "{{#find guide}} and again {{#find guide}}",
        "{{{#find file_2}}}",
    ] {
        let once = rewrite(&cache, text);
        let twice = rewrite(&cache, once.as_str());
        assert_eq!(twice, once);
    }
}

#[test]
fn rewriting_twice_differs_where_a_placeholder_is_left() {
    let cache = registry();
    let once = rewrite(&cache, "{{#find {{#find nothing}}}}");
    assert_eq!(once, "{{#find unknown}}");
    assert_eq!(rewrite(&cache, once.as_str()), "unknown");
}

#[test]
fn one_rewriter_serves_many_texts() {
    let cache = registry();
    let rewriter = Rewriter::new();
    assert_eq!(rewriter.rewrite(&cache, "{{#find guide}}"), "[guide](./_files/doc.pdf)");
    assert_eq!(rewriter.rewrite(&cache, "no alias here"), "no alias here");
    assert_eq!(
        rewriter.rewrite(&cache, "{{#find logo}} {{#find gone}}"),
        "![Image not found](./_files/logo.png) unknown"
    );
    assert_eq!(rewriter.rewrite(&FileCache::new("/other").unwrap(), "{{#find guide}}"), "unknown");
}

#[test]
fn rewriting_agrees_with_a_regular_expression() {
    let cache = registry();
    let pattern = Regex::new(r"\{\{#find ([A-Za-z0-9_]+)\}\}").unwrap();
    let texts = [
        "",
        "See {{#find guide}} for details.",
        "{{#find logo}}{{#find guide}}{{#find none}}",
        "{{#find {{#find guide}}}}",
        "{{{{#find guide}}}}",
        "{{#find guide}} {{#find guide",
        "{{#find a b}} {{#find logo}} {{#find }}",
        "{{#find\tguide}} {{#find r\u{e9}}} {{#find file_2}}",
        "a{{#find nameless}}b{{#find _x1}}c",
        "{{#find guide}}}}{{#find {{#find logo}}",
        "}}{{#find guide}}{{",
        "{{#find guide}{{#find logo}}",
        "\u{1f600}{{#find guide}}\u{1f600}",
    ];
    for text in texts {
        let expected = pattern
            .replace_all(text, |found: &Captures| replacement_for(&cache, &found[1]))
            .to_string();
        assert_eq!(rewrite(&cache, text), expected, "text {:?}", text);
    }
}
