use sitegen::pipeline::{
    build_outputs, esbuild_args, output_path, page_name_of, src_path_to_dist_path,
    style_copy_plan, tailwind_args, BuildOutcome, PageDescriptor,
};
use sitegen::translations::{resolve_translations, LocaleFile};

fn page(name: &str, content: &str) -> PageDescriptor {
    PageDescriptor { name: String::from(name), content: String::from(content) }
}

fn locale_file(path: &str, content: &str) -> LocaleFile {
    LocaleFile { path: String::from(path), content: String::from(content) }
}

fn content_at<'a>(outcome: &'a BuildOutcome, path: &str) -> &'a str {
    for f in outcome.files.iter() {
        if f.path == path {
            return &f.content;
        }
    }
    panic!("no output at {}", path);
}

#[test]
fn src_path_maps_to_dist_path() {
    assert_eq!(src_path_to_dist_path("src/styles/site.css"), "dist/styles/site.css");
    assert_eq!(src_path_to_dist_path("src/favicon.ico"), "dist/favicon.ico");
    assert_eq!(src_path_to_dist_path("other/file.txt"), "other/file.txt");
}

#[test]
fn only_the_leading_source_prefix_is_mapped() {
    assert_eq!(src_path_to_dist_path("src/src/x.css"), "dist/src/x.css");
    assert_eq!(src_path_to_dist_path("a/src/b.css"), "a/src/b.css");
    assert_eq!(src_path_to_dist_path("src/styles/src/deep.css"), "dist/styles/src/deep.css");
}

#[test]
fn duplicate_page_names_are_detected() {
    let distinct = vec![page("index", ""), page("about", "")];
    assert!(sitegen::pipeline::page_names_distinct(&distinct));
    let clashing = vec![page("index", ""), page("about", ""), page("index", "other")];
    assert!(!sitegen::pipeline::page_names_distinct(&clashing));
    let empty: Vec<PageDescriptor> = Vec::new();
    assert!(sitegen::pipeline::page_names_distinct(&empty));
}

#[test]
fn page_names_strip_directories_and_extension() {
    assert_eq!(page_name_of("src/pages/index.html"), "index");
    assert_eq!(page_name_of("src/pages/deep/about.html"), "about");
}

#[test]
fn output_paths_follow_the_locale() {
    assert_eq!(output_path("default", "index"), "dist/index.html");
    assert_eq!(output_path("en", "index"), "dist/en/index.html");
    assert_eq!(output_path("fi", "about"), "dist/fi/about.html");
}

#[test]
fn two_pages_three_locales_with_fi_as_default() {
    let layout = "<html><body>[{{sitename}}]{{{content}}}</body></html>";
    let pages = vec![page("index", "INDEXCONTENT"), page("about", "ABOUTCONTENT")];
    let files = vec![
        locale_file("src/intl/en.json", r#"{"layout": {"shared": {"sitename": "EN"}}}"#),
        locale_file("src/intl/fi_default.json", r#"{"layout": {"shared": {"sitename": "FI"}}}"#),
    ];
    let tree = resolve_translations(&files).unwrap();
    let outcome = build_outputs(layout, &pages, &tree, false);
    assert!(outcome.failures.is_empty());
    assert_eq!(outcome.files.len(), 6);
    let expected = [
        "dist/index.html",
        "dist/about.html",
        "dist/en/index.html",
        "dist/en/about.html",
        "dist/fi/index.html",
        "dist/fi/about.html",
    ];
    for path in expected.iter() {
        assert_eq!(
            outcome.files.iter().filter(|f| &f.path == path).count(),
            1,
            "exactly one output at {}",
            path
        );
    }
    // The root files are rendered with fi's translations, fi being marked
    // default, and carry the page content.
    let root_index = content_at(&outcome, "dist/index.html");
    assert!(root_index.contains("[FI]"));
    assert!(root_index.contains("INDEXCONTENT"));
    assert!(!root_index.is_empty());
    assert!(content_at(&outcome, "dist/about.html").contains("ABOUTCONTENT"));
    assert!(content_at(&outcome, "dist/en/index.html").contains("[EN]"));
    assert!(content_at(&outcome, "dist/fi/about.html").contains("[FI]"));
}

#[test]
fn failed_unit_is_skipped_and_the_rest_still_builds() {
    let layout = "<body>{{{content}}}</body>";
    let pages = vec![page("good", "fine"), page("bad", "{{#unclosed")];
    let tree = resolve_translations(&vec![]).unwrap();
    let outcome = build_outputs(layout, &pages, &tree, false);
    assert_eq!(outcome.files.len(), 1);
    assert_eq!(outcome.files[0].path, "dist/good.html");
    assert_eq!(outcome.failures.len(), 1);
    assert_eq!(outcome.failures[0].page, "bad");
    assert_eq!(outcome.failures[0].locale, "default");
    assert!(!outcome.is_success());
}

#[test]
fn empty_page_content_gives_an_output_file() {
    let layout = "<body>{{{content}}}</body>";
    let pages = vec![page("index", "")];
    let tree = resolve_translations(&vec![]).unwrap();
    let outcome = build_outputs(layout, &pages, &tree, false);
    assert_eq!(outcome.files.len(), 1);
    assert!(outcome.is_success());
}

#[test]
fn style_plan_skips_the_tool_entry_file() {
    let paths = vec![
        String::from("src/styles/tailwind.css"),
        String::from("src/styles/site.css"),
        String::from("src/styles/extra/print.css"),
    ];
    let plan = style_copy_plan(&paths);
    assert_eq!(
        plan,
        vec![
            (String::from("src/styles/site.css"), String::from("dist/styles/site.css")),
            (
                String::from("src/styles/extra/print.css"),
                String::from("dist/styles/extra/print.css")
            ),
        ]
    );
}

#[test]
fn tool_argument_shapes_are_fixed() {
    assert_eq!(
        tailwind_args(),
        vec![
            String::from("tailwindcss"),
            String::from("-i"),
            String::from("./src/styles/tailwind.css"),
            String::from("-o"),
            String::from("./dist/styles/tailwind.css"),
        ]
    );
    let scripts = vec![String::from("src/scripts/a.js"), String::from("src/scripts/b.js")];
    let args = esbuild_args(&scripts);
    assert_eq!(args[0], "esbuild");
    assert_eq!(args[1], "src/scripts/a.js");
    assert_eq!(args[2], "src/scripts/b.js");
    assert_eq!(
        &args[3..],
        &[
            String::from("--outdir=dist/scripts"),
            String::from("--bundle"),
            String::from("--minify"),
            String::from("--target=chrome58,firefox57,safari11,edge16"),
            String::from("--external:../node_modules/*"),
        ]
    );
}
