use sitegen::errors::BuildError;
use sitegen::translations::{LocaleFile, TranslationTree};

fn file(path: &str, content: &str) -> LocaleFile {
    LocaleFile { path: String::from(path), content: String::from(content) }
}

fn doc_of<'a>(tree: &'a TranslationTree, name: &str) -> &'a sitegen::translations::TransDoc {
    for e in tree.locales.iter() {
        if e.name == name {
            return &e.doc;
        }
    }
    panic!("locale {} missing", name);
}

fn has_locale(tree: &TranslationTree, name: &str) -> bool {
    tree.locales.iter().any(|e| e.name == name)
}

#[test]
fn default_present_and_empty_without_default_marked_file() {
    let files = vec![
        file("src/intl/en.json", r#"{"layout": {"shared": {"title": "Hi"}}}"#),
        file("src/intl/fi.json", r#"{"layout": {"shared": {"title": "Moi"}}}"#),
    ];
    let tree = sitegen::translations::resolve_translations(&files).unwrap();
    assert!(has_locale(&tree, "default"));
    assert!(doc_of(&tree, "default").entries.is_empty());
    assert!(has_locale(&tree, "en"));
    assert!(has_locale(&tree, "fi"));
}

#[test]
fn default_present_with_no_files_at_all() {
    let tree = sitegen::translations::resolve_translations(&vec![]).unwrap();
    assert_eq!(tree.locales.len(), 1);
    assert_eq!(tree.locales[0].name, "default");
    assert!(tree.locales[0].doc.entries.is_empty());
}

#[test]
fn default_marked_file_registers_under_both_names() {
    let files = vec![file("src/intl/fi_default.json", r#"{"index": {"greet": "Moi"}}"#)];
    let tree = sitegen::translations::resolve_translations(&files).unwrap();
    assert!(has_locale(&tree, "default"));
    assert!(has_locale(&tree, "fi"));
    let d = doc_of(&tree, "default");
    assert_eq!(d.entries.len(), 1);
    assert_eq!(d.entries[0].path, vec![String::from("index"), String::from("greet")]);
    assert_eq!(d.entries[0].text, "Moi");
}

#[test]
fn last_loaded_file_for_a_locale_wins() {
    let files = vec![
        file("src/intl/a/en.json", r#"{"index": {"k": "first"}}"#),
        file("src/intl/b/en.json", r#"{"index": {"k": "second"}}"#),
    ];
    let tree = sitegen::translations::resolve_translations(&files).unwrap();
    let d = doc_of(&tree, "en");
    assert_eq!(d.entries.len(), 1);
    assert_eq!(d.entries[0].text, "second");
}

#[test]
fn malformed_translation_names_the_file() {
    let files = vec![
        file("src/intl/en.json", r#"{"ok": "yes"}"#),
        file("src/intl/broken.json", "{not json"),
    ];
    let err = sitegen::translations::resolve_translations(&files).unwrap_err();
    match err {
        BuildError::MalformedTranslation { path } => {
            assert_eq!(path, "src/intl/broken.json");
        }
        other => panic!("wrong error: {:?}", other),
    }
}

#[test]
fn non_object_document_is_malformed() {
    let files = vec![file("src/intl/en.json", "42")];
    let err = sitegen::translations::resolve_translations(&files).unwrap_err();
    assert!(matches!(err, BuildError::MalformedTranslation { .. }));
}

#[test]
fn non_string_leaves_keep_their_json_text() {
    let files = vec![file("src/intl/en.json", r#"{"index": {"n": 5, "b": true}}"#)];
    let tree = sitegen::translations::resolve_translations(&files).unwrap();
    let d = doc_of(&tree, "en");
    let mut texts: Vec<(String, String)> = d
        .entries
        .iter()
        .map(|e| (e.path.last().unwrap().clone(), e.text.clone()))
        .collect();
    texts.sort();
    assert_eq!(
        texts,
        vec![
            (String::from("b"), String::from("true")),
            (String::from("n"), String::from("5")),
        ]
    );
}

#[test]
fn doc_subtree_reads_the_whole_tree_under_a_prefix() {
    let files = vec![file(
        "src/intl/en.json",
        r#"{"layout": {"shared": {"a": "1", "deep": {"x": "2"}}, "index": {"b": "3"}}}"#,
    )];
    let tree = sitegen::translations::resolve_translations(&files).unwrap();
    let d = doc_of(&tree, "en");
    let prefix = vec![String::from("layout"), String::from("shared")];
    let sub = sitegen::translations::doc_subtree(d, &prefix);
    let mut got: Vec<(Vec<String>, String)> =
        sub.iter().map(|e| (e.path.clone(), e.text.clone())).collect();
    got.sort();
    assert_eq!(
        got,
        vec![
            (vec![String::from("a")], String::from("1")),
            (vec![String::from("deep"), String::from("x")], String::from("2")),
        ]
    );
}
