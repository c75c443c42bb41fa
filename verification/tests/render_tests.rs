use sitegen::errors::{BuildError, TemplateOwner};
use sitegen::render::{add_reload_script, render_page, RELOAD_SCRIPT};
use sitegen::translations::{resolve_translations, LocaleFile, TransDoc};

fn doc_from(json: &str) -> TransDoc {
    let files = vec![LocaleFile {
        path: String::from("src/intl/en.json"),
        content: String::from(json),
    }];
    let mut tree = resolve_translations(&files).unwrap();
    let pos = tree.locales.iter().position(|e| e.name == "en").unwrap();
    tree.locales.swap_remove(pos).doc
}

fn empty_doc() -> TransDoc {
    TransDoc { entries: Vec::new() }
}

#[test]
fn renders_content_into_layout() {
    let doc = empty_doc();
    let html = render_page(
        "<html><body>{{{content}}}</body></html>",
        "index",
        "<h1>Welcome</h1>",
        &doc,
        "default",
        false,
    )
    .unwrap();
    assert_eq!(html, "<html><body><h1>Welcome</h1></body></html>");
}

#[test]
fn page_placeholders_survive_into_stage_two() {
    let doc = doc_from(r#"{"index": {"greet": "Moi"}}"#);
    let html = render_page(
        "<body>{{{content}}}</body>",
        "index",
        "<p>{{greet}}</p>",
        &doc,
        "en",
        false,
    )
    .unwrap();
    assert_eq!(html, "<body><p>Moi</p></body>");
}

#[test]
fn rendering_twice_is_byte_identical() {
    let doc = doc_from(r#"{"layout": {"shared": {"title": "T"}}, "index": {"greet": "Hello"}}"#);
    let layout = "<head><title>{{title}}</title></head><body>{{{content}}}</body>";
    let first = render_page(layout, "index", "<p>{{greet}}</p>", &doc, "en", true).unwrap();
    let second = render_page(layout, "index", "<p>{{greet}}</p>", &doc, "en", true).unwrap();
    assert_eq!(first, second);
}

#[test]
fn page_scoped_key_shadows_shared_key() {
    let doc = doc_from(r#"{"layout": {"shared": {"k": "a"}, "index": {"k": "b"}}}"#);
    let html = render_page("<p>{{k}}</p>", "index", "", &doc, "en", false).unwrap();
    assert_eq!(html, "<p>b</p>");
}

#[test]
fn shared_key_applies_where_page_gives_none() {
    let doc = doc_from(r#"{"layout": {"shared": {"k": "a"}, "other": {"k": "b"}}}"#);
    let html = render_page("<p>{{k}}</p>", "index", "", &doc, "en", false).unwrap();
    assert_eq!(html, "<p>a</p>");
}

#[test]
fn dev_mode_injects_reload_script_before_body_close_exactly_once() {
    let doc = empty_doc();
    let html = render_page(
        "<html><body>{{{content}}}</body></html>",
        "index",
        "<h1>Hi</h1>",
        &doc,
        "default",
        true,
    )
    .unwrap();
    assert_eq!(html.matches(RELOAD_SCRIPT).count(), 1);
    let expected_tail = format!("{}</body></html>", RELOAD_SCRIPT);
    assert!(html.ends_with(&expected_tail));
}

#[test]
fn non_dev_mode_injects_nothing() {
    let doc = empty_doc();
    let html = render_page(
        "<html><body>{{{content}}}</body></html>",
        "index",
        "<h1>Hi</h1>",
        &doc,
        "default",
        false,
    )
    .unwrap();
    assert!(!html.contains("<script>"));
}

#[test]
fn add_reload_script_without_body_tag_leaves_text_unchanged() {
    assert_eq!(add_reload_script("<p>no body tag</p>"), "<p>no body tag</p>");
}

#[test]
fn add_reload_script_inserts_before_first_body_close() {
    let out = add_reload_script("a</body>b</body>c");
    let expected = format!("a{}</body>b</body>c", RELOAD_SCRIPT);
    assert_eq!(out, expected);
}

#[test]
fn bad_layout_fails_with_layout_owner_and_locale() {
    let doc = empty_doc();
    let err = render_page("{{#unclosed", "index", "x", &doc, "fi", false).unwrap_err();
    match err {
        BuildError::TemplateCompileError { owner, locale } => {
            assert_eq!(owner, TemplateOwner::Layout);
            assert_eq!(locale, "fi");
        }
        other => panic!("wrong error: {:?}", other),
    }
}

#[test]
fn bad_page_content_fails_with_page_owner() {
    let doc = empty_doc();
    let err =
        render_page("<body>{{{content}}}</body>", "index", "{{#unclosed", &doc, "en", false)
            .unwrap_err();
    match err {
        BuildError::TemplateCompileError { owner, locale } => {
            assert_eq!(owner, TemplateOwner::Page);
            assert_eq!(locale, "en");
        }
        other => panic!("wrong error: {:?}", other),
    }
}

#[test]
fn nested_page_entries_render_through_sections() {
    let doc = doc_from(r#"{"index": {"deep": {"x": "DEEPVAL"}}}"#);
    let html = render_page(
        "<body>{{{content}}}</body>",
        "index",
        "{{#deep}}{{x}}{{/deep}}",
        &doc,
        "en",
        false,
    )
    .unwrap();
    assert_eq!(html, "<body>DEEPVAL</body>");
}

#[test]
fn nested_shared_entries_render_in_the_layout() {
    let doc = doc_from(r#"{"layout": {"shared": {"nav": {"home": "Home"}}}}"#);
    let html = render_page(
        "<nav>{{#nav}}{{home}}{{/nav}}</nav>{{{content}}}",
        "index",
        "",
        &doc,
        "en",
        false,
    )
    .unwrap();
    assert_eq!(html, "<nav>Home</nav>");
}

#[test]
fn page_scoped_subtree_replaces_shared_subtree_wholesale() {
    let doc = doc_from(r#"{"layout": {"shared": {"k": {"a": "1"}}, "index": {"k": {"b": "2"}}}}"#);
    let html = render_page("{{#k}}[{{a}}{{b}}]{{/k}}", "index", "", &doc, "en", false).unwrap();
    assert_eq!(html, "[2]");
}

#[test]
fn template_self_containment_is_detectable() {
    assert!(sitegen::render::template_is_self_contained("<p>{{k}}</p>"));
    assert!(sitegen::render::template_is_self_contained("<body>{{{content}}}</body>"));
    assert!(!sitegen::render::template_is_self_contained("<p>{{> header}}</p>"));
    assert!(!sitegen::render::template_is_self_contained("{{=<% %>=}}<p><%k%></p>"));
}

#[test]
fn implicit_tag_is_refused_not_rendered() {
    let doc = empty_doc();
    let err = render_page("<p>{{.}}</p>", "index", "x", &doc, "en", false).unwrap_err();
    match err {
        BuildError::TemplateCompileError { owner, locale } => {
            assert_eq!(owner, TemplateOwner::Layout);
            assert_eq!(locale, "en");
        }
        other => panic!("wrong error: {:?}", other),
    }
}

#[test]
fn variable_tag_naming_a_nested_group_is_refused() {
    // "nav" names a whole subtree; the engine aborts on such a lookup,
    // so the unit must fail cleanly instead.
    let doc = doc_from(r#"{"layout": {"shared": {"nav": {"home": "Home"}}}}"#);
    let err = render_page("<p>{{nav}}</p>", "index", "", &doc, "en", false).unwrap_err();
    assert!(matches!(
        err,
        BuildError::TemplateCompileError { owner: TemplateOwner::Layout, .. }
    ));
}

#[test]
fn page_content_naming_a_nested_group_fails_the_page_stage() {
    let doc = doc_from(r#"{"index": {"deep": {"x": "v"}}}"#);
    let err = render_page("<body>{{{content}}}</body>", "index", "{{deep}}", &doc, "en", false)
        .unwrap_err();
    assert!(matches!(
        err,
        BuildError::TemplateCompileError { owner: TemplateOwner::Page, .. }
    ));
}

#[test]
fn partial_tag_is_refused() {
    let doc = empty_doc();
    let err = render_page("<p>{{> header}}</p>", "index", "x", &doc, "en", false).unwrap_err();
    assert!(matches!(
        err,
        BuildError::TemplateCompileError { owner: TemplateOwner::Layout, .. }
    ));
}

#[test]
fn whitespace_inside_a_variable_tag_is_refused() {
    let doc = doc_from(r#"{"layout": {"shared": {"k": "a"}}}"#);
    let err = render_page("<p>{{ k }}</p>", "index", "", &doc, "en", false).unwrap_err();
    assert!(matches!(err, BuildError::TemplateCompileError { .. }));
}
