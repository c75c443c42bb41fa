//! The template renderer: two-stage composition of a page into the shared
//! layout, with the optional dev-mode reload script injection.
use std::collections::HashMap;

use mustache::Data;
use vstd::prelude::*;
use vstd::string::StrSliceExecFns;
use vstd::string::StringExecFns;

use crate::errors::BuildError;
use crate::errors::TemplateOwner;
use crate::text::after_last;
use crate::text::after_last_char;
use crate::text::append_strings;
use crate::text::find_from;
use crate::text::lemma_find_from_correct;
use crate::text::spec_find;
use crate::text::str_eq;
use crate::translations::clone_entry;
use crate::translations::doc_subtree;
use crate::translations::entry_models;
use crate::translations::spec_subtree;
use crate::translations::EntryModel;
use crate::translations::TransDoc;
use crate::translations::TransEntry;

verus! {

/// The template neither names a partial nor changes the tag delimiters.
/// Under the engine's default "{{ }}" delimiters a tag's kind is decided
/// by the first character of its content: '>' pulls a partial template
/// in from disk and '=' changes the delimiters (behind which a partial
/// could hide). A template free of both "{{>" and "{{=" is therefore
/// compiled and rendered from its own text alone.
pub open spec fn template_self_contained(s: Seq<char>) -> bool {
    spec_find(s, "{{>"@) is None && spec_find(s, "{{="@) is None
}

/// Exec test of `template_self_contained`.
pub fn template_is_self_contained(s: &str) -> (r: bool)
    ensures
        r == template_self_contained(s@),
{
    let partial = find_from(s, "{{>", 0);
    let delim = find_from(s, "{{=", 0);
    partial.is_none() && delim.is_none()
}

/// The raw content of each brace tag of the text, in order: from each
/// "{{" to the first '}' after it. For a template the engine accepts
/// under its default delimiters this is each tag's content as the
/// parser sees it: a tag's content can hold no '}' (a lone '}' inside
/// a tag fails the compile), except that an unescaped "{{{name}}}" tag
/// holds one closing brace, which this scan cuts off together with the
/// part the engine also discards.
pub open spec fn spec_tag_contents(s: Seq<char>) -> Seq<Seq<char>>
    decreases s.len() via spec_tag_contents_decreases
{
    match spec_find(s, "{{"@) {
        None => Seq::empty(),
        Some(i) => {
            let body = s.skip(i + 2);
            match spec_find(body, "}"@) {
                None => Seq::empty(),
                Some(j) => seq![body.take(j)] + spec_tag_contents(body.skip(j)),
            }
        },
    }
}

#[via_fn]
proof fn spec_tag_contents_decreases(s: Seq<char>) {
    reveal_strlit("{{");
    reveal_strlit("}");
    match spec_find(s, "{{"@) {
        None => {},
        Some(i) => {
            lemma_find_from_correct(s, "{{"@, 0);
            let body = s.skip(i + 2);
            match spec_find(body, "}"@) {
                None => {},
                Some(j) => {
                    lemma_find_from_correct(body, "}"@, 0);
                },
            }
        },
    }
}

/// An ASCII printable, non-space character. The library hands only tag
/// contents made of these to the engine, so the engine's whitespace
/// trimming leaves such a name exactly as written.
pub open spec fn plain_tag_char(c: char) -> bool {
    0x21 <= (c as u32) && (c as u32) <= 0x7e
}

/// Every character of the content is plain.
pub open spec fn plain_tag_content(content: Seq<char>) -> bool {
    forall|i: int| 0 <= i < content.len() ==> plain_tag_char(#[trigger] content[i])
}

/// A section, inverted-section, section-close or comment tag: the
/// engine renders map values under these as nested scopes and never
/// treats them as text.
pub open spec fn structural_tag(content: Seq<char>) -> bool {
    content.len() > 0 && (content[0] == '#' || content[0] == '^' || content[0] == '/'
        || content[0] == '!')
}

/// The data key a variable tag's value is found under: the content
/// with a leading '&' or '{' stripped, then the part after the last
/// '.' — the engine walks dot-separated names map by map, so whatever
/// value it finds sits under the name's final segment.
pub open spec fn spec_tag_key(content: Seq<char>) -> Seq<char> {
    after_last_char(
        if content.len() > 0 && (content[0] == '&' || content[0] == '{') {
            content.skip(1)
        } else {
            content
        },
        '.',
    )
}

/// The data holds a map node under this key: some entry path has it in
/// a non-final position.
pub open spec fn is_interior_key(d: Seq<EntryModel>, w: Seq<char>) -> bool {
    exists|i: int, k: int|
        0 <= i < d.len() && 0 <= k < d[i].path.len() - 1 && (#[trigger] d[i].path[k]) == w
}

/// One tag is harmless on this data: structural, or a plainly written
/// variable tag whose final name segment is no map node's key and not
/// the implicit ".", which names the surrounding scope itself.
pub open spec fn tag_safe(content: Seq<char>, d: Seq<EntryModel>) -> bool {
    structural_tag(content) || (plain_tag_content(content) && spec_tag_key(content).len() > 0
        && !is_interior_key(d, spec_tag_key(content)))
}

/// No tag of the template can make the engine find a map node where it
/// expects text. The engine aborts, it does not return, when a
/// variable tag's value is a map, so the render wrapper admits only
/// templates with this property; the library refuses the others before
/// the engine runs.
pub open spec fn tags_map_safe(t: Seq<char>, d: Seq<EntryModel>) -> bool {
    forall|q: int|
        0 <= q < spec_tag_contents(t).len() ==> tag_safe(#[trigger] spec_tag_contents(t)[q], d)
}

/// The raw contents of the template's brace tags, in order.
fn tag_contents_list(s: &str) -> (r: Vec<String>)
    ensures
        r.deep_view() == spec_tag_contents(s@),
    decreases s@.len(),
{
    proof {
        reveal_strlit("{{");
        reveal_strlit("}");
    }
    let len = s.unicode_len();
    match find_from(s, "{{", 0) {
        None => Vec::new(),
        Some(i) => {
            proof {
                lemma_find_from_correct(s@, "{{"@, 0);
            }
            let body = s.substring_char(i + 2, len);
            proof {
                assert(body@ =~= s@.skip(i + 2));
            }
            let blen = body.unicode_len();
            match find_from(body, "}", 0) {
                None => Vec::new(),
                Some(j) => {
                    proof {
                        lemma_find_from_correct(body@, "}"@, 0);
                    }
                    let content = String::from_str(body.substring_char(0, j));
                    let tail = body.substring_char(j, blen);
                    proof {
                        assert(tail@ =~= body@.skip(j as int));
                        assert(content@ =~= body@.take(j as int));
                    }
                    let rest = tag_contents_list(tail);
                    let mut out: Vec<String> = Vec::new();
                    let ghost cv = content@;
                    out.push(content);
                    proof {
                        assert(out.deep_view() =~= seq![cv]);
                    }
                    append_strings(&mut out, &rest);
                    proof {
                        assert(out.deep_view() =~= seq![body@.take(j as int)]
                            + spec_tag_contents(body@.skip(j as int)));
                    }
                    out
                },
            }
        },
    }
}

/// Is this one tag content harmless on the data?
fn tag_content_safe(content: &str, data: &Vec<TransEntry>) -> (r: bool)
    ensures
        r == tag_safe(content@, entry_models(data@)),
{
    let clen = content.unicode_len();
    if clen > 0 {
        let c0 = content.get_char(0);
        if c0 == '#' || c0 == '^' || c0 == '/' || c0 == '!' {
            return true;
        }
    }
    assert(!structural_tag(content@));
    let mut i: usize = 0;
    while i < clen
        invariant
            clen == content@.len(),
            0 <= i <= clen,
            !structural_tag(content@),
            forall|t: int| 0 <= t < i ==> plain_tag_char(#[trigger] content@[t]),
        decreases clen - i,
    {
        let code = content.get_char(i) as u32;
        if code < 0x21 || code > 0x7e {
            assert(!plain_tag_content(content@));
            return false;
        }
        i = i + 1;
    }
    assert(plain_tag_content(content@));
    let inner = if clen > 0 && (content.get_char(0) == '&' || content.get_char(0) == '{') {
        let sub = content.substring_char(1, clen);
        proof {
            assert(sub@ =~= content@.skip(1));
        }
        sub
    } else {
        content
    };
    let key = after_last(inner, '.');
    if key.unicode_len() == 0 {
        return false;
    }
    !key_is_interior(key, data)
}

/// Does some entry path hold this key in a non-final position?
fn key_is_interior(key: &str, data: &Vec<TransEntry>) -> (r: bool)
    ensures
        r == is_interior_key(entry_models(data@), key@),
{
    let ghost dm = entry_models(data@);
    let n = data.len();
    let mut i: usize = 0;
    while i < n
        invariant
            n == data@.len(),
            dm == entry_models(data@),
            0 <= i <= n,
            forall|a: int, k: int|
                0 <= a < i && 0 <= k < dm[a].path.len() - 1 ==> (#[trigger] dm[a].path[k])
                    != key@,
        decreases n - i,
    {
        let e = &data[i];
        proof {
            assert(dm[i as int] == data@[i as int]@);
        }
        let plen = e.path.len();
        if plen > 0 {
            let mut k: usize = 0;
            while k < plen - 1
                invariant
                    n == data@.len(),
                    dm == entry_models(data@),
                    0 <= i < n,
                    plen == e.path@.len(),
                    e == &data[i as int],
                    dm[i as int] == data@[i as int]@,
                    plen > 0,
                    0 <= k <= plen - 1,
                    forall|t: int| 0 <= t < k ==> dm[i as int].path[t] != key@,
                decreases plen - 1 - k,
            {
                if str_eq(e.path[k].as_str(), key) {
                    proof {
                        assert(dm[i as int].path[k as int] == e.path@[k as int]@);
                        assert(dm[i as int].path[k as int] == key@);
                    }
                    return true;
                }
                proof {
                    assert(dm[i as int].path[k as int] == e.path@[k as int]@);
                }
                k = k + 1;
            }
        }
        proof {
            assert(forall|t: int|
                0 <= t < dm[i as int].path.len() - 1 ==> (#[trigger] dm[i as int].path[t])
                    != key@);
        }
        i = i + 1;
    }
    false
}

/// Can the engine render this template against this data without
/// meeting a map node where it expects text?
pub fn template_map_safe(t: &str, data: &Vec<TransEntry>) -> (r: bool)
    ensures
        r == tags_map_safe(t@, entry_models(data@)),
{
    let tags = tag_contents_list(t);
    let n = tags.len();
    let mut q: usize = 0;
    while q < n
        invariant
            n == tags@.len(),
            tags.deep_view() == spec_tag_contents(t@),
            0 <= q <= n,
            forall|p: int|
                0 <= p < q ==> tag_safe(#[trigger] spec_tag_contents(t@)[p], entry_models(data@)),
        decreases n - q,
    {
        proof {
            assert(spec_tag_contents(t@)[q as int] == tags@[q as int]@);
        }
        if !tag_content_safe(tags[q].as_str(), data) {
            return false;
        }
        q = q + 1;
    }
    true
}

/// What rendering a self-contained, map-safe template against a set of
/// document entries yields: the rendered text, or nothing when the
/// template does not compile or does not render. The entries build
/// nested map data, inserted in order, a later entry overwriting
/// whatever an earlier one left at or along its path.
pub uninterp spec fn render_of(template: Seq<char>, data: Seq<EntryModel>) -> Option<Seq<char>>;

/// Relies on `mustache::compile_str` and
/// `mustache::Template::render_data_to_string`: compiles the template,
/// renders it against nested map data built from the entries (one map
/// node per path segment; a later entry overwrites what an earlier one
/// put at or along its path), and returns the output text; `None` when
/// compiling or rendering fails. The preconditions exclude the inputs
/// on which the engine does not return: a template with a partial tag
/// reads files from disk, and a variable tag whose found value is a
/// map node aborts the render — with every tag either structural or a
/// plain name whose final segment keys no map node, every value a
/// variable tag can find is a string or absent. The output is
/// assembled from the template's and the entries' text, so it is valid
/// UTF-8 and the decode inside `render_data_to_string` cannot fail.
/// Within these bounds both steps read the template text and the
/// entries alone.
#[verifier::external_body]
fn render_template(template: &str, data: &Vec<TransEntry>) -> (r: Option<String>)
    requires
        forall|i: int| 0 <= i < data@.len() ==> (#[trigger] data@[i])@.path.len() > 0,
        template_self_contained(template@),
        tags_map_safe(template@, entry_models(data@)),
    ensures
        r is Some <==> render_of(template@, entry_models(data@)) is Some,
        r matches Some(t) ==> render_of(template@, entry_models(data@)) == Some(t@),
{
    let compiled = mustache::compile_str(template).ok()?;
    let mut root = HashMap::new();
    for e in data {
        let (mut node, n) = (&mut root, e.path.len());
        for k in &e.path[..n - 1] {
            if !matches!(node.get(k), Some(Data::Map(_))) {
                node.insert(k.clone(), Data::Map(HashMap::new()));
            }
            node = match node.get_mut(k) { Some(Data::Map(m)) => m, _ => return None };
        }
        node.insert(e.path[n - 1].clone(), Data::String(e.text.clone()));
    }
    compiled.render_data_to_string(&Data::Map(root)).ok()
}

/// The fixed script a dev-mode page carries: it polls the live-reload
/// endpoint and reloads the page when the build generation changes.
pub const RELOAD_SCRIPT: &'static str = "<script>\n    let token = sessionStorage.getItem('refresherToken');\n    if (token === null) {\n        token = '0'\n    }\n    const refresher = async () => {\n        try {\n            const res = await fetch('http://localhost:4242')\n            const t = await res.text()\n            if (t !== token) {\n                sessionStorage.setItem('refresherToken', t);\n                window.location.reload();\n            }\n        } finally {\n            setTimeout(refresher,500);\n        }\n    }\n    refresher()\n</script>";

/// The text with the reload script inserted just before the first closing
/// body tag; unchanged when there is none.
pub open spec fn inject_reload_script(s: Seq<char>) -> Seq<char> {
    match spec_find(s, "</body>"@) {
        None => s,
        Some(i) => s.take(i) + RELOAD_SCRIPT@ + s.skip(i),
    }
}

/// Insert the reload script just before the first `</body>`, leaving the
/// text unchanged when there is none.
pub fn add_reload_script(s: &str) -> (r: String)
    ensures
        r@ == inject_reload_script(s@),
{
    let len = s.unicode_len();
    match find_from(s, "</body>", 0) {
        None => String::from_str(s),
        Some(i) => {
            proof {
                lemma_find_from_correct(s@, "</body>"@, 0);
            }
            let mut out = String::new();
            out.append(s.substring_char(0, i));
            out.append(RELOAD_SCRIPT);
            out.append(s.substring_char(i, len));
            proof {
                assert(s@.subrange(0, i as int) =~= s@.take(i as int));
                assert(s@.subrange(i as int, len as int) =~= s@.skip(i as int));
                assert(out@ =~= s@.take(i as int) + RELOAD_SCRIPT@ + s@.skip(i as int));
            }
            out
        },
    }
}

/// Some entry of the group has this as its top-level key.
pub open spec fn scopes_key(entries: Seq<EntryModel>, key: Seq<char>) -> bool {
    exists|j: int|
        0 <= j < entries.len() && (#[trigger] entries[j]).path.len() > 0 && entries[j].path[0]
            == key
}

/// Some entry of the page-scoped group claims this entry's top-level
/// key: the page's subtree then replaces the shared one wholesale.
pub open spec fn head_shadowed(e: EntryModel, scoped: Seq<EntryModel>) -> bool {
    e.path.len() > 0 && scopes_key(scoped, e.path[0])
}

/// The shared entries that survive beside the page-scoped ones: every
/// shared entry whose top-level key the page also scopes is dropped.
pub open spec fn drop_shadowed(shared: Seq<EntryModel>, scoped: Seq<EntryModel>) -> Seq<EntryModel>
    decreases shared.len(),
{
    if shared.len() == 0 {
        Seq::empty()
    } else {
        let rest = drop_shadowed(shared.drop_last(), scoped);
        if head_shadowed(shared.last(), scoped) {
            rest
        } else {
            rest.push(shared.last())
        }
    }
}

/// The data of the first render stage: the raw page content under
/// "content", then the locale's shared layout subtree, then its layout
/// subtree scoped to this page; a shared top-level key the page also
/// scopes is dropped, so the page's subtree replaces it whole, and a
/// later entry shadows an earlier one at the same path.
pub open spec fn layout_entries(
    doc: Seq<EntryModel>,
    page_name: Seq<char>,
    content: Seq<char>,
) -> Seq<EntryModel> {
    let shared = spec_subtree(doc, seq!["layout"@, "shared"@]);
    let scoped = spec_subtree(doc, seq!["layout"@, page_name]);
    seq![EntryModel { path: seq!["content"@], text: content }] + drop_shadowed(shared, scoped)
        + scoped
}

/// The data of the second render stage: the locale's whole subtree
/// scoped to this page name.
pub open spec fn page_entries(doc: Seq<EntryModel>, page_name: Seq<char>) -> Seq<EntryModel> {
    spec_subtree(doc, seq![page_name])
}

/// Every entry of a subtree keeps at least one path segment below the
/// prefix.
proof fn lemma_subtree_paths_nonempty(doc: Seq<EntryModel>, prefix: Seq<Seq<char>>)
    ensures
        forall|i: int|
            0 <= i < spec_subtree(doc, prefix).len() ==> (#[trigger] spec_subtree(doc, prefix)[i]).path.len()
                > 0,
    decreases doc.len(),
{
    if doc.len() > 0 {
        lemma_subtree_paths_nonempty(doc.drop_last(), prefix);
        let rest = spec_subtree(doc.drop_last(), prefix);
        let all = spec_subtree(doc, prefix);
        assert forall|i: int| 0 <= i < all.len() implies (#[trigger] all[i]).path.len() > 0 by {
            if i < rest.len() {
                assert(all[i] == rest[i]);
            } else {
                assert(all[i] == all.last());
            }
        }
    }
}

/// Dropping shadowed entries keeps paths non-empty.
proof fn lemma_drop_shadowed_paths_nonempty(shared: Seq<EntryModel>, scoped: Seq<EntryModel>)
    requires
        forall|i: int| 0 <= i < shared.len() ==> (#[trigger] shared[i]).path.len() > 0,
    ensures
        forall|i: int|
            0 <= i < drop_shadowed(shared, scoped).len() ==> (#[trigger] drop_shadowed(
                shared,
                scoped,
            )[i]).path.len() > 0,
    decreases shared.len(),
{
    if shared.len() > 0 {
        lemma_drop_shadowed_paths_nonempty(shared.drop_last(), scoped);
        let rest = drop_shadowed(shared.drop_last(), scoped);
        let all = drop_shadowed(shared, scoped);
        assert forall|i: int| 0 <= i < all.len() implies (#[trigger] all[i]).path.len() > 0 by {
            if i < rest.len() {
                assert(all[i] == rest[i]);
            } else {
                assert(all[i] == shared.last());
            }
        }
    }
}

/// Every entry of the first-stage render data has a non-empty path.
proof fn lemma_layout_entries_paths_nonempty(
    doc: Seq<EntryModel>,
    page_name: Seq<char>,
    content: Seq<char>,
)
    ensures
        forall|i: int|
            0 <= i < layout_entries(doc, page_name, content).len() ==> (#[trigger] layout_entries(
                doc,
                page_name,
                content,
            )[i]).path.len() > 0,
{
    let shared = spec_subtree(doc, seq!["layout"@, "shared"@]);
    let scoped = spec_subtree(doc, seq!["layout"@, page_name]);
    lemma_subtree_paths_nonempty(doc, seq!["layout"@, "shared"@]);
    lemma_subtree_paths_nonempty(doc, seq!["layout"@, page_name]);
    lemma_drop_shadowed_paths_nonempty(shared, scoped);
    let kept = drop_shadowed(shared, scoped);
    let all = layout_entries(doc, page_name, content);
    assert forall|i: int| 0 <= i < all.len() implies (#[trigger] all[i]).path.len() > 0 by {
        if i == 0 {
            assert(all[0].path =~= seq!["content"@]);
        } else if i < 1 + kept.len() {
            assert(all[i] == kept[i - 1]);
        } else {
            assert(all[i] == scoped[i - 1 - kept.len()]);
        }
    }
}

/// Does some page-scoped entry claim this entry's top-level key?
fn entry_head_shadowed(e: &TransEntry, scoped: &Vec<TransEntry>) -> (r: bool)
    ensures
        r == head_shadowed(e@, entry_models(scoped@)),
{
    let ghost sm = entry_models(scoped@);
    if e.path.len() == 0 {
        assert(e@.path.len() == 0);
        return false;
    }
    let n = scoped.len();
    let mut j: usize = 0;
    while j < n
        invariant
            n == scoped@.len(),
            sm == entry_models(scoped@),
            0 <= j <= n,
            e@.path.len() > 0,
            forall|t: int|
                0 <= t < j ==> !((#[trigger] sm[t]).path.len() > 0 && sm[t].path[0]
                    == e@.path[0]),
        decreases n - j,
    {
        proof {
            assert(sm[j as int] == scoped@[j as int]@);
        }
        if scoped[j].path.len() > 0 && str_eq(scoped[j].path[0].as_str(), e.path[0].as_str()) {
            proof {
                assert(sm[j as int].path.len() > 0 && sm[j as int].path[0] == e@.path[0]);
            }
            return true;
        }
        j = j + 1;
    }
    false
}

/// Append a copy of every entry of `src` to `dst`, in order.
fn append_entries(dst: &mut Vec<TransEntry>, src: &Vec<TransEntry>)
    ensures
        entry_models(final(dst)@) == entry_models(old(dst)@) + entry_models(src@),
{
    let ghost d0 = entry_models(dst@);
    let n = src.len();
    proof {
        assert(entry_models(src@).take(0) =~= Seq::<EntryModel>::empty());
        assert(entry_models(dst@) =~= d0 + entry_models(src@).take(0));
    }
    let mut i: usize = 0;
    while i < n
        invariant
            n == src@.len(),
            0 <= i <= n,
            entry_models(dst@) == d0 + entry_models(src@).take(i as int),
        decreases n - i,
    {
        let ghost dprev = entry_models(dst@);
        let copy = clone_entry(&src[i]);
        dst.push(copy);
        proof {
            assert(entry_models(dst@) =~= dprev.push(src@[i as int]@));
            assert(entry_models(src@).take(i + 1) =~= entry_models(src@).take(i as int).push(
                src@[i as int]@,
            ));
            assert(entry_models(dst@) =~= d0 + entry_models(src@).take(i + 1));
        }
        i = i + 1;
    }
    proof {
        assert(entry_models(src@).take(n as int) =~= entry_models(src@));
    }
}

/// Build the first-stage data for one page and locale document.
fn build_layout_entries(doc: &TransDoc, page_name: &str, content: &str) -> (r: Vec<TransEntry>)
    ensures
        entry_models(r@) == layout_entries(doc@, page_name@, content@),
{
    let mut r: Vec<TransEntry> = Vec::new();
    r.push(
        TransEntry {
            path: vec![String::from_str("content")],
            text: String::from_str(content),
        },
    );
    let shared_prefix = vec![String::from_str("layout"), String::from_str("shared")];
    let shared = doc_subtree(doc, &shared_prefix);
    let page_prefix = vec![String::from_str("layout"), String::from_str(page_name)];
    let scoped = doc_subtree(doc, &page_prefix);
    let ghost sharedm = entry_models(shared@);
    let ghost scopedm = entry_models(scoped@);
    proof {
        assert(shared_prefix.deep_view() =~= seq!["layout"@, "shared"@]);
        assert(page_prefix.deep_view() =~= seq!["layout"@, page_name@]);
        assert(r@[0]@.path =~= seq!["content"@]);
        assert(r@[0]@ == (EntryModel { path: seq!["content"@], text: content@ }));
        assert(entry_models(r@) =~= seq![
            EntryModel { path: seq!["content"@], text: content@ },
        ]);
        assert(sharedm.take(0) =~= Seq::<EntryModel>::empty());
        assert(entry_models(r@) + drop_shadowed(sharedm.take(0), scopedm) =~= entry_models(r@));
    }
    let ghost head = entry_models(r@);
    let n = shared.len();
    let mut i: usize = 0;
    while i < n
        invariant
            n == shared@.len(),
            sharedm == entry_models(shared@),
            scopedm == entry_models(scoped@),
            scoped@.len() == scopedm.len(),
            0 <= i <= n,
            entry_models(r@) == head + drop_shadowed(sharedm.take(i as int), scopedm),
        decreases n - i,
    {
        proof {
            assert(sharedm[i as int] == shared@[i as int]@);
        }
        let shadowed = entry_head_shadowed(&shared[i], &scoped);
        if !shadowed {
            let ghost rprev = entry_models(r@);
            let copy = clone_entry(&shared[i]);
            r.push(copy);
            proof {
                assert(entry_models(r@) =~= rprev.push(sharedm[i as int]));
            }
        }
        proof {
            assert(sharedm.take(i + 1).drop_last() =~= sharedm.take(i as int));
            assert(sharedm.take(i + 1).last() == sharedm[i as int]);
            assert(entry_models(r@) =~= head + drop_shadowed(sharedm.take(i + 1), scopedm));
        }
        i = i + 1;
    }
    proof {
        assert(sharedm.take(n as int) =~= sharedm);
    }
    append_entries(&mut r, &scoped);
    proof {
        assert(entry_models(r@) =~= layout_entries(doc@, page_name@, content@));
    }
    r
}

/// What rendering one page for one locale yields: stage one composes the
/// page content into the layout; dev mode then inserts the reload script;
/// stage two renders the result once more against the page-scoped
/// entries, so placeholders inside the page content survive into the
/// final text.
pub open spec fn spec_render_page(
    layout: Seq<char>,
    page_name: Seq<char>,
    content: Seq<char>,
    doc: Seq<EntryModel>,
    dev: bool,
) -> Option<Seq<char>> {
    match stage_renders(layout, layout_entries(doc, page_name, content)) {
        None => None,
        Some(stage1) => {
            let stage2_src = if dev {
                inject_reload_script(stage1)
            } else {
                stage1
            };
            stage_renders(stage2_src, page_entries(doc, page_name))
        },
    }
}

/// What one render stage yields: the engine's outcome when the
/// template is self-contained and can meet no map node where it
/// expects text; refused, before the engine runs, otherwise.
pub open spec fn stage_renders(template: Seq<char>, data: Seq<EntryModel>) -> Option<Seq<char>> {
    if template_self_contained(template) && tags_map_safe(template, data) {
        render_of(template, data)
    } else {
        None
    }
}

/// Render one page for one locale: the two-stage template composition
/// of the build. A stage whose template carries a partial tag, a
/// delimiter change, or a variable tag that would make the engine meet
/// a map node is refused before the engine runs; that unit, like one
/// whose template does not compile, fails with `TemplateCompileError`
/// naming the stage's owner (the shared layout, or the intermediate
/// page template) and the locale.
pub fn render_page(
    layout: &str,
    page_name: &str,
    content: &str,
    doc: &TransDoc,
    locale: &str,
    dev: bool,
) -> (r: Result<String, BuildError>)
    ensures
        r is Ok <==> spec_render_page(layout@, page_name@, content@, doc@, dev) is Some,
        r matches Ok(h) ==> spec_render_page(layout@, page_name@, content@, doc@, dev) == Some(h@),
        r matches Err(e) ==> (e matches BuildError::TemplateCompileError { owner, locale: l }
            && l@ == locale@ && (owner == TemplateOwner::Layout <==> stage_renders(
            layout@,
            layout_entries(doc@, page_name@, content@),
        ) is None)),
{
    let ctx1 = build_layout_entries(doc, page_name, content);
    proof {
        lemma_layout_entries_paths_nonempty(doc@, page_name@, content@);
        assert forall|i: int| 0 <= i < ctx1@.len() implies (#[trigger] ctx1@[i])@.path.len()
            > 0 by {
            assert(entry_models(ctx1@)[i] == ctx1@[i]@);
        }
    }
    let stage1_opt = if template_is_self_contained(layout) && template_map_safe(layout, &ctx1) {
        render_template(layout, &ctx1)
    } else {
        None
    };
    let stage1 = match stage1_opt {
        Some(t) => t,
        None => {
            return Err(
                BuildError::TemplateCompileError {
                    owner: TemplateOwner::Layout,
                    locale: String::from_str(locale),
                },
            );
        },
    };
    let stage2_src = if dev {
        add_reload_script(stage1.as_str())
    } else {
        stage1
    };
    let page_prefix = vec![String::from_str(page_name)];
    let ctx2 = doc_subtree(doc, &page_prefix);
    proof {
        assert(page_prefix.deep_view() =~= seq![page_name@]);
        lemma_subtree_paths_nonempty(doc@, seq![page_name@]);
        assert forall|i: int| 0 <= i < ctx2@.len() implies (#[trigger] ctx2@[i])@.path.len()
            > 0 by {
            assert(entry_models(ctx2@)[i] == ctx2@[i]@);
        }
    }
    let stage2_opt = if template_is_self_contained(stage2_src.as_str()) && template_map_safe(
        stage2_src.as_str(),
        &ctx2,
    ) {
        render_template(stage2_src.as_str(), &ctx2)
    } else {
        None
    };
    match stage2_opt {
        Some(t) => Ok(t),
        None => Err(
            BuildError::TemplateCompileError {
                owner: TemplateOwner::Page,
                locale: String::from_str(locale),
            },
        ),
    }
}

/// Rendering is a function of its inputs: two renders of the same
/// layout, page, document and mode yield the same outcome, byte for
/// byte. `render_page` pins its result to this function, so re-running
/// it on identical inputs returns identical bytes.
pub proof fn lemma_render_deterministic(
    layout: Seq<char>,
    page_name: Seq<char>,
    content: Seq<char>,
    doc: Seq<EntryModel>,
    dev: bool,
    r1: Option<Seq<char>>,
    r2: Option<Seq<char>>,
)
    requires
        r1 == spec_render_page(layout, page_name, content, doc, dev),
        r2 == spec_render_page(layout, page_name, content, doc, dev),
    ensures
        r1 == r2,
{
}

/// Looking a top-level key up in render data: the text of the last entry
/// sitting at exactly that single-segment path, since a later entry
/// overwrites an earlier one at the same path when the data is built.
pub open spec fn entries_lookup(entries: Seq<EntryModel>, key: Seq<char>) -> Option<Seq<char>>
    decreases entries.len(),
{
    if entries.len() == 0 {
        None
    } else if entries.last().path == seq![key] {
        Some(entries.last().text)
    } else {
        entries_lookup(entries.drop_last(), key)
    }
}

/// A lookup in concatenated render data reads the right-hand part first.
proof fn lemma_entries_lookup_concat(a: Seq<EntryModel>, b: Seq<EntryModel>, key: Seq<char>)
    ensures
        entries_lookup(a + b, key) == match entries_lookup(b, key) {
            Some(v) => Some(v),
            None => entries_lookup(a, key),
        },
    decreases b.len(),
{
    if b.len() == 0 {
        assert(a + b =~= a);
    } else {
        assert((a + b).drop_last() =~= a + b.drop_last());
        assert((a + b).last() == b.last());
        lemma_entries_lookup_concat(a, b.drop_last(), key);
    }
}

/// Entries none of which claims this top-level key give its lookup
/// nothing.
proof fn lemma_entries_lookup_absent(entries: Seq<EntryModel>, key: Seq<char>)
    requires
        !scopes_key(entries, key),
    ensures
        entries_lookup(entries, key) is None,
    decreases entries.len(),
{
    if entries.len() > 0 {
        assert(entries.last().path != seq![key]) by {
            if entries.last().path == seq![key] {
                assert((entries[entries.len() - 1]).path.len() > 0 && entries[entries.len()
                    - 1].path[0] == key);
            }
        }
        assert(!scopes_key(entries.drop_last(), key)) by {
            if scopes_key(entries.drop_last(), key) {
                let j = choose|j: int|
                    0 <= j < entries.drop_last().len() && (#[trigger] entries.drop_last()[j]).path.len()
                        > 0 && entries.drop_last()[j].path[0] == key;
                assert((entries[j]).path.len() > 0 && entries[j].path[0] == key);
            }
        }
        lemma_entries_lookup_absent(entries.drop_last(), key);
    }
}

/// Dropping the page-shadowed entries leaves lookups of unshadowed keys
/// alone.
proof fn lemma_drop_shadowed_lookup(
    shared: Seq<EntryModel>,
    scoped: Seq<EntryModel>,
    key: Seq<char>,
)
    requires
        !scopes_key(scoped, key),
    ensures
        entries_lookup(drop_shadowed(shared, scoped), key) == entries_lookup(shared, key),
    decreases shared.len(),
{
    if shared.len() > 0 {
        lemma_drop_shadowed_lookup(shared.drop_last(), scoped, key);
        let e = shared.last();
        let rest = drop_shadowed(shared.drop_last(), scoped);
        if e.path == seq![key] {
            assert(e.path.len() > 0 && e.path[0] == key);
            assert(!head_shadowed(e, scoped));
        }
        if !head_shadowed(e, scoped) {
            assert(drop_shadowed(shared, scoped) == rest.push(e));
            assert(rest.push(e).drop_last() =~= rest);
            assert(rest.push(e).last() == e);
        }
    }
}

/// A key among the page-scoped layout entries shadows any shared entry
/// with the same name: the first-stage render data maps it to the
/// page-scoped value.
pub proof fn lemma_page_overrides_shared(
    doc: Seq<EntryModel>,
    page_name: Seq<char>,
    content: Seq<char>,
    key: Seq<char>,
    value: Seq<char>,
)
    requires
        entries_lookup(spec_subtree(doc, seq!["layout"@, page_name]), key) == Some(value),
    ensures
        entries_lookup(layout_entries(doc, page_name, content), key) == Some(value),
{
    let shared = spec_subtree(doc, seq!["layout"@, "shared"@]);
    let scoped = spec_subtree(doc, seq!["layout"@, page_name]);
    let head = seq![EntryModel { path: seq!["content"@], text: content }] + drop_shadowed(
        shared,
        scoped,
    );
    assert(layout_entries(doc, page_name, content) =~= head + scoped);
    lemma_entries_lookup_concat(head, scoped, key);
}

/// A shared layout entry applies wherever the page scopes nothing over
/// its top-level key: the first-stage render data maps that key to the
/// shared value.
pub proof fn lemma_shared_fills_missing(
    doc: Seq<EntryModel>,
    page_name: Seq<char>,
    content: Seq<char>,
    key: Seq<char>,
    value: Seq<char>,
)
    requires
        !scopes_key(spec_subtree(doc, seq!["layout"@, page_name]), key),
        entries_lookup(spec_subtree(doc, seq!["layout"@, "shared"@]), key) == Some(value),
    ensures
        entries_lookup(layout_entries(doc, page_name, content), key) == Some(value),
{
    let first = seq![EntryModel { path: seq!["content"@], text: content }];
    let shared = spec_subtree(doc, seq!["layout"@, "shared"@]);
    let scoped = spec_subtree(doc, seq!["layout"@, page_name]);
    let kept = drop_shadowed(shared, scoped);
    assert(layout_entries(doc, page_name, content) =~= (first + kept) + scoped);
    lemma_entries_lookup_absent(scoped, key);
    lemma_entries_lookup_concat(first + kept, scoped, key);
    lemma_drop_shadowed_lookup(shared, scoped, key);
    lemma_entries_lookup_concat(first, kept, key);
}

} // verus!
