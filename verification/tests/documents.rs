use file_search::cache::FileCache;
use file_search::document::{DocumentUnit, FileSearch};

fn registry() -> FileCache {
    let mut cache = FileCache::new("/book").unwrap();
    cache.add_file("guide", "/external/doc.pdf", "link").unwrap();
    cache.add_file("logo", "/assets/logo.png", "image").unwrap();
    cache
}

fn chapter(content: &str) -> DocumentUnit {
    DocumentUnit::Chapter { content: content.to_string() }
}

fn title(text: &str) -> DocumentUnit {
    DocumentUnit::PartTitle { title: text.to_string() }
}

#[test]
fn preprocessor_name() {
    assert_eq!(FileSearch.name(), "file-search");
}

#[test]
fn every_renderer_is_supported() {
    assert!(FileSearch.supports_renderer("html"));
    assert!(FileSearch.supports_renderer("markdown"));
    assert!(FileSearch.supports_renderer(""));
}

#[test]
fn chapters_are_rewritten() {
    let book = vec![chapter("See {{#find guide}} for details."), chapter("{{#find logo}}")];
    assert_eq!(
        FileSearch.run(&registry(), book),
        vec![
            chapter("See [guide](./_files/doc.pdf) for details."),
            chapter("![Image not found](./_files/logo.png)"),
        ]
    );
}

#[test]
fn units_without_text_are_untouched() {
    let book = vec![
        title("{{#find guide}}"),
        DocumentUnit::Separator,
        chapter("{{#find guide}}"),
        DocumentUnit::Separator,
        title("Part II"),
    ];
    assert_eq!(
        FileSearch.run(&registry(), book),
        vec![
            title("{{#find guide}}"),
            DocumentUnit::Separator,
            chapter("[guide](./_files/doc.pdf)"),
            DocumentUnit::Separator,
            title("Part II"),
        ]
    );
}

#[test]
fn empty_tree_stays_empty() {
    assert_eq!(FileSearch.run(&registry(), Vec::new()), Vec::new());
}

#[test]
fn unknown_alias_does_not_fail_the_pass() {
    let book = vec![chapter("a {{#find typo}} b"), chapter("{{#find guide}}")];
    assert_eq!(
        FileSearch.run(&registry(), book),
        vec![chapter("a unknown b"), chapter("[guide](./_files/doc.pdf)")]
    );
}

#[test]
fn second_pass_changes_nothing() {
    let book = vec![chapter("{{#find guide}} {{#find typo}}"), DocumentUnit::Separator];
    let once = FileSearch.run(&registry(), book);
    let expected = vec![chapter("[guide](./_files/doc.pdf) unknown"), DocumentUnit::Separator];
    assert_eq!(once, expected);
    assert_eq!(FileSearch.run(&registry(), once), expected);
}

#[test]
fn registry_is_only_read() {
    let cache = registry();
    let _ = FileSearch.run(&cache, vec![chapter("{{#find guide}}{{#find other}}")]);
    assert_eq!(cache.len(), 2);
    assert_eq!(cache.get_insert_text("other"), None);
}
