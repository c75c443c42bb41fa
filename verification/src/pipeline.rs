//! The build pipeline's logic: output paths, the external tools' fixed
//! argument shapes, the style copy plan, and the page-by-locale render
//! plan that materializes the output tree.
use vstd::prelude::*;
use vstd::string::StringExecFns;

use crate::errors::TemplateOwner;
use crate::render::render_page;
use crate::render::spec_render_page;
use crate::text::after_last_char;
use crate::text::after_last;
use crate::text::append_strings;
use crate::text::ends_with;
use crate::text::replace_all;
use crate::text::spec_replace;
use crate::text::str_eq;
use crate::text::str_ends_with;
use crate::translations::locale_models;
use crate::translations::pairs_view;
use crate::translations::LocaleModel;
use crate::translations::TranslationTree;

verus! {

/// Where a path under the source tree goes: the leading source prefix
/// swapped for the output prefix; the rest of the path, and any path
/// without that prefix, stays as it is.
pub open spec fn spec_src_to_dist(p: Seq<char>) -> Seq<char> {
    if p.len() >= 4 && p.subrange(0, 4) == "src/"@ {
        "dist/"@ + p.skip(4)
    } else {
        p
    }
}

/// Rewrite a path under the source tree to the same path under the
/// output tree: only the leading prefix is mapped.
pub fn src_path_to_dist_path(p: &str) -> (r: String)
    ensures
        r@ == spec_src_to_dist(p@),
{
    proof {
        reveal_strlit("src/");
    }
    let len = p.unicode_len();
    if len >= 4 && str_eq(p.substring_char(0, 4), "src/") {
        let mut out = String::from_str("dist/");
        out.append(p.substring_char(4, len));
        proof {
            assert(p@.subrange(0, 4) == "src/"@);
            assert(p@.subrange(4, len as int) =~= p@.skip(4));
            assert(out@ =~= "dist/"@ + p@.skip(4));
        }
        out
    } else {
        String::from_str(p)
    }
}

/// One discovered page: its name (file name, extension stripped) and its
/// raw content.
pub struct PageDescriptor {
    pub name: String,
    pub content: String,
}

/// Spec model of a page.
pub struct PageModel {
    pub name: Seq<char>,
    pub content: Seq<char>,
}

impl View for PageDescriptor {
    type V = PageModel;

    open spec fn view(&self) -> PageModel {
        PageModel { name: self.name@, content: self.content@ }
    }
}

/// The models of a sequence of pages.
pub open spec fn page_models(pages: Seq<PageDescriptor>) -> Seq<PageModel> {
    pages.map_values(|p: PageDescriptor| p@)
}

/// The page name a page file carries: its base name with the extension
/// stripped.
pub open spec fn spec_page_name(path: Seq<char>) -> Seq<char> {
    spec_replace(after_last_char(path, '/'), ".html"@, Seq::empty())
}

/// Exec computation of `spec_page_name`.
pub fn page_name_of(path: &str) -> (r: String)
    ensures
        r@ == spec_page_name(path@),
{
    proof {
        reveal_strlit(".html");
        reveal_strlit("");
        assert(""@ =~= Seq::<char>::empty());
    }
    let base = after_last(path, '/');
    replace_all(base, ".html", "")
}

/// Where the rendered page of one locale goes: at the output root for the
/// default locale, under a locale directory otherwise.
pub open spec fn spec_out_path(locale: Seq<char>, page: Seq<char>) -> Seq<char> {
    if locale == "default"@ {
        "dist/"@ + page + ".html"@
    } else {
        "dist/"@ + locale + "/"@ + page + ".html"@
    }
}

/// Exec computation of `spec_out_path`.
pub fn output_path(locale: &str, page: &str) -> (r: String)
    ensures
        r@ == spec_out_path(locale@, page@),
{
    let mut out = String::new();
    out.append("dist/");
    if !str_eq(locale, "default") {
        out.append(locale);
        out.append("/");
    }
    out.append(page);
    out.append(".html");
    proof {
        if locale@ == "default"@ {
            assert(out@ =~= "dist/"@ + page@ + ".html"@);
        } else {
            assert(out@ =~= "dist/"@ + locale@ + "/"@ + page@ + ".html"@);
        }
    }
    out
}

/// The copy plan for the style files: every discovered style file except
/// the tool-owned entry file, copied verbatim from the source tree to the
/// same place under the output tree.
pub open spec fn spec_style_plan(paths: Seq<Seq<char>>) -> Seq<(Seq<char>, Seq<char>)>
    decreases paths.len(),
{
    if paths.len() == 0 {
        Seq::empty()
    } else {
        let rest = spec_style_plan(paths.drop_last());
        let p = paths.last();
        if ends_with(p, "tailwind.css"@) {
            rest
        } else {
            rest.push((p, spec_src_to_dist(p)))
        }
    }
}

/// Exec computation of `spec_style_plan`: source and destination of every
/// style file to copy.
pub fn style_copy_plan(paths: &Vec<String>) -> (r: Vec<(String, String)>)
    ensures
        pairs_view(r@) == spec_style_plan(paths.deep_view()),
{
    let mut r: Vec<(String, String)> = Vec::new();
    let n = paths.len();
    proof {
        assert(paths.deep_view().take(0) =~= Seq::<Seq<char>>::empty());
        assert(pairs_view(r@) =~= spec_style_plan(paths.deep_view().take(0)));
    }
    let mut i: usize = 0;
    while i < n
        invariant
            n == paths@.len(),
            0 <= i <= n,
            pairs_view(r@) == spec_style_plan(paths.deep_view().take(i as int)),
        decreases n - i,
    {
        let p = &paths[i];
        proof {
            assert(paths.deep_view()[i as int] == paths@[i as int]@);
        }
        if !str_ends_with(p.as_str(), "tailwind.css") {
            let ghost rprev = pairs_view(r@);
            let dest = src_path_to_dist_path(p.as_str());
            r.push((p.clone(), dest));
            proof {
                assert(pairs_view(r@) =~= rprev.push(
                    (paths.deep_view()[i as int], spec_src_to_dist(paths.deep_view()[i as int])),
                ));
            }
        }
        proof {
            assert(paths.deep_view().take(i + 1).drop_last() =~= paths.deep_view().take(i as int));
            assert(paths.deep_view().take(i + 1).last() == paths.deep_view()[i as int]);
            assert(pairs_view(r@) =~= spec_style_plan(paths.deep_view().take(i + 1)));
        }
        i = i + 1;
    }
    proof {
        assert(paths.deep_view().take(n as int) =~= paths.deep_view());
    }
    r
}

/// The fixed argument shape of the style tool's invocation: compile the
/// designated entry file into the output tree.
pub fn tailwind_args() -> (r: Vec<String>)
    ensures
        r.deep_view() =~= seq![
            "tailwindcss"@,
            "-i"@,
            "./src/styles/tailwind.css"@,
            "-o"@,
            "./dist/styles/tailwind.css"@,
        ],
{
    let r: Vec<String> = vec![
        String::from_str("tailwindcss"),
        String::from_str("-i"),
        String::from_str("./src/styles/tailwind.css"),
        String::from_str("-o"),
        String::from_str("./dist/styles/tailwind.css"),
    ];
    r
}

/// The fixed argument shape of the script bundler's invocation: every
/// discovered script file, then the fixed bundling flags.
pub fn esbuild_args(scripts: &Vec<String>) -> (r: Vec<String>)
    ensures
        r.deep_view() =~= seq!["esbuild"@] + scripts.deep_view() + seq![
            "--outdir=dist/scripts"@,
            "--bundle"@,
            "--minify"@,
            "--target=chrome58,firefox57,safari11,edge16"@,
            "--external:../node_modules/*"@,
        ],
{
    let mut r: Vec<String> = vec![String::from_str("esbuild")];
    proof {
        assert(r.deep_view() =~= seq!["esbuild"@]);
    }
    append_strings(&mut r, scripts);
    let ghost mid = r.deep_view();
    let tail: Vec<String> = vec![
        String::from_str("--outdir=dist/scripts"),
        String::from_str("--bundle"),
        String::from_str("--minify"),
        String::from_str("--target=chrome58,firefox57,safari11,edge16"),
        String::from_str("--external:../node_modules/*"),
    ];
    proof {
        assert(tail.deep_view() =~= seq![
            "--outdir=dist/scripts"@,
            "--bundle"@,
            "--minify"@,
            "--target=chrome58,firefox57,safari11,edge16"@,
            "--external:../node_modules/*"@,
        ]);
    }
    append_strings(&mut r, &tail);
    r
}

/// One file of the output tree: its path and its content.
pub struct OutputFile {
    pub path: String,
    pub content: String,
}

/// Spec model of one output file.
pub struct OutputModel {
    pub path: Seq<char>,
    pub content: Seq<char>,
}

impl View for OutputFile {
    type V = OutputModel;

    open spec fn view(&self) -> OutputModel {
        OutputModel { path: self.path@, content: self.content@ }
    }
}

/// The models of a sequence of output files.
pub open spec fn output_models(s: Seq<OutputFile>) -> Seq<OutputModel> {
    s.map_values(|o: OutputFile| o@)
}

/// One (page, locale) unit whose template failed to compile. The build
/// skips the unit and goes on.
pub struct UnitFailure {
    pub page: String,
    pub locale: String,
    pub owner: TemplateOwner,
}

/// Spec model of one failed unit.
pub struct UnitFailureModel {
    pub page: Seq<char>,
    pub locale: Seq<char>,
    pub owner: TemplateOwner,
}

impl View for UnitFailure {
    type V = UnitFailureModel;

    open spec fn view(&self) -> UnitFailureModel {
        UnitFailureModel { page: self.page@, locale: self.locale@, owner: self.owner }
    }
}

/// The models of a sequence of failed units.
pub open spec fn failure_models(s: Seq<UnitFailure>) -> Seq<UnitFailureModel> {
    s.map_values(|f: UnitFailure| f@)
}

/// What rendering one (page, locale) unit yields.
pub open spec fn spec_unit(
    layout: Seq<char>,
    page: PageModel,
    loc: LocaleModel,
    dev: bool,
) -> Option<Seq<char>> {
    spec_render_page(layout, page.name, page.content, loc.doc, dev)
}

/// Which template owner a failed unit blames: the layout when the first
/// stage failed, the page otherwise.
pub open spec fn spec_unit_owner(
    layout: Seq<char>,
    page: PageModel,
    loc: LocaleModel,
) -> TemplateOwner {
    if crate::render::stage_renders(
        layout,
        crate::render::layout_entries(loc.doc, page.name, page.content),
    ) is None {
        TemplateOwner::Layout
    } else {
        TemplateOwner::Page
    }
}

/// The output files of one page across the listed locales, in order:
/// one file per locale whose unit renders, at the locale-correct path.
pub open spec fn page_outputs(
    layout: Seq<char>,
    page: PageModel,
    locs: Seq<LocaleModel>,
    dev: bool,
) -> Seq<OutputModel>
    decreases locs.len(),
{
    if locs.len() == 0 {
        Seq::empty()
    } else {
        let rest = page_outputs(layout, page, locs.drop_last(), dev);
        match spec_unit(layout, page, locs.last(), dev) {
            None => rest,
            Some(text) => rest.push(
                OutputModel { path: spec_out_path(locs.last().name, page.name), content: text },
            ),
        }
    }
}

/// The failed units of one page across the listed locales, in order.
pub open spec fn page_failures(
    layout: Seq<char>,
    page: PageModel,
    locs: Seq<LocaleModel>,
    dev: bool,
) -> Seq<UnitFailureModel>
    decreases locs.len(),
{
    if locs.len() == 0 {
        Seq::empty()
    } else {
        let rest = page_failures(layout, page, locs.drop_last(), dev);
        match spec_unit(layout, page, locs.last(), dev) {
            None => rest.push(
                UnitFailureModel {
                    page: page.name,
                    locale: locs.last().name,
                    owner: spec_unit_owner(layout, page, locs.last()),
                },
            ),
            Some(_) => rest,
        }
    }
}

/// The output files of a whole build: every page, each across every
/// locale.
pub open spec fn all_outputs(
    layout: Seq<char>,
    pages: Seq<PageModel>,
    locs: Seq<LocaleModel>,
    dev: bool,
) -> Seq<OutputModel>
    decreases pages.len(),
{
    if pages.len() == 0 {
        Seq::empty()
    } else {
        all_outputs(layout, pages.drop_last(), locs, dev) + page_outputs(
            layout,
            pages.last(),
            locs,
            dev,
        )
    }
}

/// The failed units of a whole build.
pub open spec fn all_failures(
    layout: Seq<char>,
    pages: Seq<PageModel>,
    locs: Seq<LocaleModel>,
    dev: bool,
) -> Seq<UnitFailureModel>
    decreases pages.len(),
{
    if pages.len() == 0 {
        Seq::empty()
    } else {
        all_failures(layout, pages.drop_last(), locs, dev) + page_failures(
            layout,
            pages.last(),
            locs,
            dev,
        )
    }
}

/// What one build cycle produced: the rendered files, and the units that
/// were skipped over a template failure. The build succeeded, and the
/// generation counter may advance, only when nothing was skipped.
pub struct BuildOutcome {
    pub files: Vec<OutputFile>,
    pub failures: Vec<UnitFailure>,
}

impl BuildOutcome {
    /// Did every unit render?
    pub fn is_success(&self) -> (r: bool)
        ensures
            r == (self.failures@.len() == 0),
    {
        self.failures.len() == 0
    }
}

/// Render every page for every locale of the tree and say where each
/// result goes: the locale-correct output path for each unit that
/// renders, and the skipped unit for each that does not.
pub fn build_outputs(
    layout: &str,
    pages: &Vec<PageDescriptor>,
    tree: &TranslationTree,
    dev: bool,
) -> (r: BuildOutcome)
    ensures
        output_models(r.files@) == all_outputs(
            layout@,
            page_models(pages@),
            locale_models(tree.locales@),
            dev,
        ),
        failure_models(r.failures@) == all_failures(
            layout@,
            page_models(pages@),
            locale_models(tree.locales@),
            dev,
        ),
{
    let ghost pm = page_models(pages@);
    let ghost lm = locale_models(tree.locales@);
    let mut files: Vec<OutputFile> = Vec::new();
    let mut failures: Vec<UnitFailure> = Vec::new();
    let np = pages.len();
    let nl = tree.locales.len();
    proof {
        assert(pm.take(0) =~= Seq::<PageModel>::empty());
        assert(output_models(files@) =~= all_outputs(layout@, pm.take(0), lm, dev));
        assert(failure_models(failures@) =~= all_failures(layout@, pm.take(0), lm, dev));
    }
    let mut i: usize = 0;
    while i < np
        invariant
            np == pages@.len(),
            nl == tree.locales@.len(),
            pm == page_models(pages@),
            lm == locale_models(tree.locales@),
            0 <= i <= np,
            output_models(files@) == all_outputs(layout@, pm.take(i as int), lm, dev),
            failure_models(failures@) == all_failures(layout@, pm.take(i as int), lm, dev),
        decreases np - i,
    {
        let page = &pages[i];
        proof {
            assert(pm[i as int] == pages@[i as int]@);
            assert(lm.take(0) =~= Seq::<LocaleModel>::empty());
            assert(page_outputs(layout@, pm[i as int], lm.take(0), dev) =~= Seq::<
                OutputModel,
            >::empty());
            assert(output_models(files@) =~= all_outputs(layout@, pm.take(i as int), lm, dev)
                + page_outputs(layout@, pm[i as int], lm.take(0), dev));
            assert(page_failures(layout@, pm[i as int], lm.take(0), dev) =~= Seq::<
                UnitFailureModel,
            >::empty());
            assert(failure_models(failures@) =~= all_failures(layout@, pm.take(i as int), lm, dev)
                + page_failures(layout@, pm[i as int], lm.take(0), dev));
        }
        let mut j: usize = 0;
        while j < nl
            invariant
                np == pages@.len(),
                nl == tree.locales@.len(),
                pm == page_models(pages@),
                lm == locale_models(tree.locales@),
                0 <= i < np,
                0 <= j <= nl,
                page == &pages[i as int],
                pm[i as int] == pages@[i as int]@,
                output_models(files@) == all_outputs(layout@, pm.take(i as int), lm, dev)
                    + page_outputs(layout@, pm[i as int], lm.take(j as int), dev),
                failure_models(failures@) == all_failures(layout@, pm.take(i as int), lm, dev)
                    + page_failures(layout@, pm[i as int], lm.take(j as int), dev),
            decreases nl - j,
        {
            let loc = &tree.locales[j];
            proof {
                assert(lm[j as int] == tree.locales@[j as int]@);
            }
            let ghost fprev = output_models(files@);
            let ghost failprev = failure_models(failures@);
            match render_page(
                layout,
                page.name.as_str(),
                page.content.as_str(),
                &loc.doc,
                loc.name.as_str(),
                dev,
            ) {
                Ok(text) => {
                    let path = output_path(loc.name.as_str(), page.name.as_str());
                    files.push(OutputFile { path, content: text });
                    proof {
                        assert(output_models(files@) =~= fprev.push(
                            OutputModel {
                                path: spec_out_path(lm[j as int].name, pm[i as int].name),
                                content: spec_unit(
                                    layout@,
                                    pm[i as int],
                                    lm[j as int],
                                    dev,
                                ).unwrap(),
                            },
                        ));
                    }
                },
                Err(e) => {
                    let owner = match e {
                        crate::errors::BuildError::TemplateCompileError { owner, .. } => owner,
                        _ => TemplateOwner::Layout,
                    };
                    failures.push(
                        UnitFailure { page: page.name.clone(), locale: loc.name.clone(), owner },
                    );
                    proof {
                        assert(failure_models(failures@) =~= failprev.push(
                            UnitFailureModel {
                                page: pm[i as int].name,
                                locale: lm[j as int].name,
                                owner: spec_unit_owner(layout@, pm[i as int], lm[j as int]),
                            },
                        ));
                    }
                },
            }
            proof {
                assert(lm.take(j + 1).drop_last() =~= lm.take(j as int));
                assert(lm.take(j + 1).last() == lm[j as int]);
                assert(output_models(files@) =~= all_outputs(layout@, pm.take(i as int), lm, dev)
                    + page_outputs(layout@, pm[i as int], lm.take(j + 1), dev));
                assert(failure_models(failures@) =~= all_failures(
                    layout@,
                    pm.take(i as int),
                    lm,
                    dev,
                ) + page_failures(layout@, pm[i as int], lm.take(j + 1), dev));
            }
            j = j + 1;
        }
        proof {
            assert(lm.take(nl as int) =~= lm);
            assert(pm.take(i + 1).drop_last() =~= pm.take(i as int));
            assert(pm.take(i + 1).last() == pm[i as int]);
            assert(output_models(files@) =~= all_outputs(layout@, pm.take(i + 1), lm, dev));
            assert(failure_models(failures@) =~= all_failures(layout@, pm.take(i + 1), lm, dev));
        }
        i = i + 1;
    }
    proof {
        assert(pm.take(np as int) =~= pm);
    }
    BuildOutcome { files, failures }
}

/// Are the listed page names pairwise distinct? Two page files with the
/// same base name claim the same output paths, the later written over
/// the earlier; a caller can test for that before building.
pub fn page_names_distinct(pages: &Vec<PageDescriptor>) -> (r: bool)
    ensures
        r == (forall|i: int, j: int|
            0 <= i < j < page_models(pages@).len() ==> (#[trigger] page_models(pages@)[i]).name
                != (#[trigger] page_models(pages@)[j]).name),
{
    let ghost pm = page_models(pages@);
    let n = pages.len();
    let mut i: usize = 0;
    while i < n
        invariant
            n == pages@.len(),
            pm == page_models(pages@),
            0 <= i <= n,
            forall|a: int, b: int|
                0 <= a < b < n && a < i ==> (#[trigger] pm[a]).name != (#[trigger] pm[b]).name,
        decreases n - i,
    {
        let mut j: usize = i + 1;
        while j < n
            invariant
                n == pages@.len(),
                pm == page_models(pages@),
                0 <= i < j <= n,
                forall|b: int| i < b < j ==> (#[trigger] pm[b]).name != pm[i as int].name,
            decreases n - j,
        {
            proof {
                assert(pm[i as int] == pages@[i as int]@);
                assert(pm[j as int] == pages@[j as int]@);
            }
            if str_eq(pages[i].name.as_str(), pages[j].name.as_str()) {
                return false;
            }
            j = j + 1;
        }
        i = i + 1;
    }
    true
}

/// No '/' occurs in the text. Page and locale names are file base names,
/// so they satisfy this.
pub open spec fn no_slash(s: Seq<char>) -> bool {
    forall|i: int| 0 <= i < s.len() ==> s[i] != '/'
}

/// A page name never holds a '/': it comes from a file's base name.
pub proof fn lemma_page_name_no_slash(path: Seq<char>)
    ensures
        no_slash(spec_page_name(path)),
{
    crate::text::lemma_after_last_char_free(path, '/');
    crate::text::lemma_replace_keeps_char_free(
        after_last_char(path, '/'),
        ".html"@,
        Seq::empty(),
        '/',
    );
}

/// A locale name never holds a '/': it comes from a file's base name.
pub proof fn lemma_locale_name_no_slash(path: Seq<char>)
    ensures
        no_slash(crate::translations::locale_name(path)),
{
    let normalized = spec_replace(path, "_default.json"@, ".json"@);
    crate::text::lemma_after_last_char_free(normalized, '/');
    crate::text::lemma_replace_keeps_char_free(
        after_last_char(normalized, '/'),
        ".json"@,
        Seq::empty(),
        '/',
    );
}

/// Every locale name of a tree that resolution built is slash-free: it
/// is "default" or the locale name of some discovered file, and both
/// come from base names. Together with `lemma_output_paths_distinct`
/// this carries the one-file-per-unit guarantee to real builds.
pub proof fn lemma_resolved_locale_names_no_slash(
    t: TranslationTree,
    files: Seq<crate::translations::FileModel>,
)
    requires
        t@ == crate::translations::spec_resolve(files),
        forall|i: int|
            0 <= i < files.len() ==> crate::translations::json_doc_of(
                #[trigger] files[i].content,
            ) is Some,
    ensures
        forall|j: int|
            0 <= j < locale_models(t.locales@).len() ==> no_slash(
                #[trigger] locale_models(t.locales@)[j].name,
            ),
{
    let s = locale_models(t.locales@);
    crate::translations::lemma_resolve_domain(files);
    reveal_strlit("default");
    let d = "default"@;
    assert(d.len() == 7);
    assert(d[0] == 'd' && d[1] == 'e' && d[2] == 'f' && d[3] == 'a' && d[4] == 'u' && d[5] == 'l'
        && d[6] == 't');
    assert(no_slash(d)) by {
        assert forall|k: int| 0 <= k < d.len() implies d[k] != '/' by {
            assert(k == 0 || k == 1 || k == 2 || k == 3 || k == 4 || k == 5 || k == 6);
        }
    }
    assert forall|j: int| 0 <= j < s.len() implies no_slash(#[trigger] s[j].name) by {
        let n = s[j].name;
        crate::translations::lemma_has_name_contains_key(s, n);
        assert(crate::translations::has_name(s, n));
        assert(t@.contains_key(n));
        if n != d {
            let i = choose|i: int|
                0 <= i < files.len() && crate::translations::locale_name(
                    #[trigger] files[i].path,
                ) == n;
            lemma_locale_name_no_slash(files[i].path);
        }
    }
}

/// No character of ".html" is a '/'.
proof fn lemma_html_suffix_no_slash()
    ensures
        forall|k: int| 0 <= k < ".html"@.len() ==> ".html"@[k] != '/',
{
    reveal_strlit(".html");
    let h = ".html"@;
    assert(h[0] == '.' && h[1] == 'h' && h[2] == 't' && h[3] == 'm' && h[4] == 'l');
    assert forall|k: int| 0 <= k < h.len() implies h[k] != '/' by {
        assert(k == 0 || k == 1 || k == 2 || k == 3 || k == 4);
    }
}

/// An output path of the non-default shape has a '/' right after its
/// locale; one of the default shape has none past the fixed prefix.
/// Hence, for slash-free names, distinct (locale, page) pairs give
/// distinct output paths.
pub proof fn lemma_out_path_injective(l1: Seq<char>, p1: Seq<char>, l2: Seq<char>, p2: Seq<char>)
    requires
        no_slash(l1),
        no_slash(p1),
        no_slash(l2),
        no_slash(p2),
        spec_out_path(l1, p1) == spec_out_path(l2, p2),
    ensures
        l1 == l2,
        p1 == p2,
{
    reveal_strlit("dist/");
    reveal_strlit("/");
    reveal_strlit(".html");
    lemma_html_suffix_no_slash();
    let d = "dist/"@;
    let h = ".html"@;
    let sl = "/"@;
    let path1 = spec_out_path(l1, p1);
    let path2 = spec_out_path(l2, p2);
    assert(d.len() == 5 && h.len() == 5 && sl.len() == 1);
    if l1 == "default"@ && l2 == "default"@ {
        assert(path1.len() == 5 + p1.len() + 5);
        assert(path2.len() == 5 + p2.len() + 5);
        assert(p1.len() == p2.len());
        assert(p1 =~= p2) by {
            assert forall|k: int| 0 <= k < p1.len() implies p1[k] == p2[k] by {
                assert(path1[5 + k] == p1[k]);
                assert(path2[5 + k] == p2[k]);
            }
        }
    } else if l1 == "default"@ && l2 != "default"@ {
        assert(path2[5 + l2.len() as int] == sl[0]);
        assert(5 + l2.len() < path2.len());
        let idx = 5 + l2.len() as int;
        if idx < 5 + p1.len() {
            assert(path1[idx] == p1[idx - 5]);
            assert(false);
        } else {
            assert(path1[idx] == h[idx - 5 - p1.len()]);
            assert(false);
        }
    } else if l1 != "default"@ && l2 == "default"@ {
        assert(path1[5 + l1.len() as int] == sl[0]);
        assert(5 + l1.len() < path1.len());
        let idx = 5 + l1.len() as int;
        if idx < 5 + p2.len() {
            assert(path2[idx] == p2[idx - 5]);
            assert(false);
        } else {
            assert(path2[idx] == h[idx - 5 - p2.len()]);
            assert(false);
        }
    } else {
        assert(path1.len() == 5 + l1.len() + 1 + p1.len() + 5);
        assert(path2.len() == 5 + l2.len() + 1 + p2.len() + 5);
        if l1.len() < l2.len() {
            assert(path1[5 + l1.len() as int] == sl[0]);
            assert(path2[5 + l1.len() as int] == l2[l1.len() as int]);
            assert(false);
        }
        if l2.len() < l1.len() {
            assert(path2[5 + l2.len() as int] == sl[0]);
            assert(path1[5 + l2.len() as int] == l1[l2.len() as int]);
            assert(false);
        }
        assert(l1.len() == l2.len());
        assert(p1.len() == p2.len());
        assert(l1 =~= l2) by {
            assert forall|k: int| 0 <= k < l1.len() implies l1[k] == l2[k] by {
                assert(path1[5 + k] == l1[k]);
                assert(path2[5 + k] == l2[k]);
            }
        }
        assert(p1 =~= p2) by {
            assert forall|k: int| 0 <= k < p1.len() implies p1[k] == p2[k] by {
                assert(path1[6 + l1.len() as int + k] == p1[k]);
                assert(path2[6 + l2.len() as int + k] == p2[k]);
            }
        }
    }
}

/// When every unit of one page renders, the page yields one output per
/// locale, in locale order, each at the locale-correct path.
pub proof fn lemma_page_outputs_complete(
    layout: Seq<char>,
    page: PageModel,
    locs: Seq<LocaleModel>,
    dev: bool,
)
    requires
        forall|j: int| 0 <= j < locs.len() ==> spec_unit(layout, page, #[trigger] locs[j], dev) is Some,
    ensures
        page_outputs(layout, page, locs, dev).len() == locs.len(),
        forall|j: int|
            0 <= j < locs.len() ==> #[trigger] page_outputs(layout, page, locs, dev)[j]
                == (OutputModel {
                path: spec_out_path(locs[j].name, page.name),
                content: spec_unit(layout, page, locs[j], dev).unwrap(),
            }),
    decreases locs.len(),
{
    if locs.len() > 0 {
        lemma_page_outputs_complete(layout, page, locs.drop_last(), dev);
    }
}

/// When every unit renders, the build yields exactly one output per
/// (page, locale) unit: the file for page `i` and locale `j` stands at
/// position `i * locales + j`, at the locale-correct path.
pub proof fn lemma_build_covers_units(
    layout: Seq<char>,
    pages: Seq<PageModel>,
    locs: Seq<LocaleModel>,
    dev: bool,
)
    requires
        forall|i: int, j: int|
            0 <= i < pages.len() && 0 <= j < locs.len() ==> spec_unit(
                layout,
                #[trigger] pages[i],
                #[trigger] locs[j],
                dev,
            ) is Some,
    ensures
        all_outputs(layout, pages, locs, dev).len() == pages.len() * locs.len(),
        forall|i: int, j: int|
            0 <= i < pages.len() && 0 <= j < locs.len() ==> all_outputs(layout, pages, locs, dev)[i
                * locs.len() + j] == (OutputModel {
                path: spec_out_path(locs[j].name, (#[trigger] pages[i]).name),
                content: spec_unit(layout, pages[i], #[trigger] locs[j], dev).unwrap(),
            }),
    decreases pages.len(),
{
    let all = all_outputs(layout, pages, locs, dev);
    let np = pages.len() as int;
    let nl = locs.len() as int;
    if pages.len() == 0 {
        assert(all.len() == 0);
    } else {
        lemma_build_covers_units(layout, pages.drop_last(), locs, dev);
        lemma_page_outputs_complete(layout, pages.last(), locs, dev);
        let prev = all_outputs(layout, pages.drop_last(), locs, dev);
        assert(prev.len() == (np - 1) * nl);
        assert(all.len() == (np - 1) * nl + nl);
        assert((np - 1) * nl + nl == np * nl) by (nonlinear_arith);
        assert forall|i: int, j: int| 0 <= i < np && 0 <= j < nl implies all[i * nl + j]
            == (OutputModel {
            path: spec_out_path(locs[j].name, (pages[i]).name),
            content: spec_unit(layout, pages[i], locs[j], dev).unwrap(),
        }) by {
            if i < np - 1 {
                assert(0 <= i * nl + j < (np - 1) * nl) by (nonlinear_arith)
                    requires
                        0 <= i < np - 1,
                        0 <= j < nl,
                ;
                assert(all[i * nl + j] == prev[i * nl + j]);
                assert(pages.drop_last()[i] == pages[i]);
            } else {
                assert(i == np - 1);
                assert(i * nl + j == prev.len() + j);
                assert(all[prev.len() + j] == page_outputs(layout, pages.last(), locs, dev)[j]);
                assert(pages.last() == pages[i]);
            }
        }
    }
}

/// With distinct, slash-free page and locale names, no two output files
/// of a fully rendered build share a path: every unit owns exactly one
/// file.
pub proof fn lemma_output_paths_distinct(
    layout: Seq<char>,
    pages: Seq<PageModel>,
    locs: Seq<LocaleModel>,
    dev: bool,
)
    requires
        forall|i: int, j: int|
            0 <= i < pages.len() && 0 <= j < locs.len() ==> spec_unit(
                layout,
                #[trigger] pages[i],
                #[trigger] locs[j],
                dev,
            ) is Some,
        forall|i: int, j: int|
            0 <= i < j < pages.len() ==> (#[trigger] pages[i]).name != (#[trigger] pages[j]).name,
        forall|i: int, j: int|
            0 <= i < j < locs.len() ==> (#[trigger] locs[i]).name != (#[trigger] locs[j]).name,
        forall|i: int| 0 <= i < pages.len() ==> no_slash((#[trigger] pages[i]).name),
        forall|j: int| 0 <= j < locs.len() ==> no_slash((#[trigger] locs[j]).name),
    ensures
        forall|a: int, b: int|
            0 <= a < b < all_outputs(layout, pages, locs, dev).len() ==> (#[trigger] all_outputs(
                layout,
                pages,
                locs,
                dev,
            )[a]).path != (#[trigger] all_outputs(layout, pages, locs, dev)[b]).path,
{
    let all = all_outputs(layout, pages, locs, dev);
    let np = pages.len() as int;
    let nl = locs.len() as int;
    lemma_build_covers_units(layout, pages, locs, dev);
    assert forall|a: int, b: int| 0 <= a < b < all.len() implies (all[a]).path
        != (all[b]).path by {
        assert(nl > 0) by (nonlinear_arith)
            requires
                0 <= a < np * nl,
                np >= 0,
                nl >= 0,
        ;
        let ia = a / nl;
        let ja = a % nl;
        let ib = b / nl;
        let jb = b % nl;
        assert(a == ia * nl + ja && 0 <= ja < nl && 0 <= ia) by (nonlinear_arith)
            requires
                nl > 0,
                a >= 0,
                ia == a / nl,
                ja == a % nl,
        ;
        assert(b == ib * nl + jb && 0 <= jb < nl && 0 <= ib) by (nonlinear_arith)
            requires
                nl > 0,
                b >= 0,
                ib == b / nl,
                jb == b % nl,
        ;
        assert(ia < np) by (nonlinear_arith)
            requires
                nl > 0,
                a < np * nl,
                a == ia * nl + ja,
                0 <= ja < nl,
        ;
        assert(ib < np) by (nonlinear_arith)
            requires
                nl > 0,
                b < np * nl,
                b == ib * nl + jb,
                0 <= jb < nl,
        ;
        assert(all[ia * nl + ja].path == spec_out_path(locs[ja].name, pages[ia].name));
        assert(all[ib * nl + jb].path == spec_out_path(locs[jb].name, pages[ib].name));
        if all[a].path == all[b].path {
            lemma_out_path_injective(locs[ja].name, pages[ia].name, locs[jb].name, pages[ib].name);
            assert(locs[ja].name == locs[jb].name);
            assert(pages[ia].name == pages[ib].name);
            assert(ja == jb);
            assert(ia == ib);
            assert(a == b);
        }
    }
}

} // verus!
