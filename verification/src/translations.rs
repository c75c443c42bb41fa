//! The translation resolver: parsing per-locale documents and building the
//! locale -> document tree with its "default" fallback.
use vstd::prelude::*;

use crate::errors::BuildError;
use crate::text::after_last_char;
use crate::text::after_last;
use crate::text::ends_with;
use crate::text::replace_all;
use crate::text::spec_replace;
use crate::text::str_ends_with;
use crate::text::str_eq;

verus! {

/// Spec model of one document entry: the key path of a string-valued leaf
/// and its text.
pub struct EntryModel {
    pub path: Seq<Seq<char>>,
    pub text: Seq<char>,
}

/// One string-valued leaf of a locale document, addressed by its key path
/// from the document root.
#[derive(Debug)]
pub struct TransEntry {
    pub path: Vec<String>,
    pub text: String,
}

impl View for TransEntry {
    type V = EntryModel;

    open spec fn view(&self) -> EntryModel {
        EntryModel { path: self.path.deep_view(), text: self.text@ }
    }
}

/// A parsed locale document: a nested key/value tree of string leaves,
/// held flattened as one entry per leaf.
#[derive(Debug)]
pub struct TransDoc {
    pub entries: Vec<TransEntry>,
}

impl View for TransDoc {
    type V = Seq<EntryModel>;

    open spec fn view(&self) -> Seq<EntryModel> {
        entry_models(self.entries@)
    }
}

/// What parsing a locale document yields: the flattened entries of the
/// top-level JSON object, or nothing when the text is not such an object.
/// Non-string, non-object leaves appear under their canonical textual
/// rendering, matching how the template engine would print them.
pub uninterp spec fn json_doc_of(s: Seq<char>) -> Option<Seq<EntryModel>>;

/// Relies on `serde_json::from_str`: parses the text as a JSON object and
/// flattens it to one entry per leaf, depth first; `Some` exactly when the
/// text is a well-formed JSON object. Object values recurse; string leaves
/// keep their text; any other leaf is kept as its JSON text (via
/// `serde_json::Value`'s display form).
#[verifier::external_body]
fn parse_translation_doc(s: &str) -> (r: Option<TransDoc>)
    ensures
        r is Some <==> json_doc_of(s@) is Some,
        r matches Some(d) ==> json_doc_of(s@) == Some(d@),
{
    let top: serde_json::Map<String, serde_json::Value> = serde_json::from_str(s).ok()?;
    let mut todo = vec![(Vec::<String>::new(), serde_json::Value::Object(top))];
    let mut entries: Vec<TransEntry> = Vec::new();
    while let Some((path, v)) = todo.pop() {
        match v {
            serde_json::Value::Object(m) => for (k, v2) in m {
                let mut p = path.clone();
                p.push(k);
                todo.push((p, v2));
            },
            serde_json::Value::String(t) => entries.push(TransEntry { path, text: t }),
            other => entries.push(TransEntry { path, text: other.to_string() }),
        }
    }
    Some(TransDoc { entries })
}

/// A locale document file as discovered on disk: its path and raw text.
#[derive(Debug)]
pub struct LocaleFile {
    pub path: String,
    pub content: String,
}

/// Spec model of a locale document file.
pub struct FileModel {
    pub path: Seq<char>,
    pub content: Seq<char>,
}

impl View for LocaleFile {
    type V = FileModel;

    open spec fn view(&self) -> FileModel {
        FileModel { path: self.path@, content: self.content@ }
    }
}

/// The models of a sequence of locale files.
pub open spec fn files_view(files: Seq<LocaleFile>) -> Seq<FileModel> {
    files.map_values(|f: LocaleFile| f@)
}

/// A file whose name carries the default marker registers its document
/// under "default" as well.
pub open spec fn is_default_marked(path: Seq<char>) -> bool {
    ends_with(path, "_default.json"@)
}

/// The locale name of a document file: the file name with the default
/// marker normalized away and the extension stripped.
pub open spec fn locale_name(path: Seq<char>) -> Seq<char> {
    spec_replace(
        after_last_char(spec_replace(path, "_default.json"@, ".json"@), '/'),
        ".json"@,
        Seq::empty(),
    )
}

/// Exec computation of `locale_name`.
pub fn locale_name_of(path: &str) -> (r: String)
    ensures
        r@ == locale_name(path@),
{
    proof {
        reveal_strlit("_default.json");
        reveal_strlit(".json");
        reveal_strlit("");
        assert(""@ =~= Seq::<char>::empty());
    }
    let normalized = replace_all(path, "_default.json", ".json");
    let base = after_last(normalized.as_str(), '/');
    replace_all(base, ".json", "")
}

/// One resolved locale: its name and its document.
#[derive(Debug)]
pub struct LocaleEntry {
    pub name: String,
    pub doc: TransDoc,
}

/// Spec model of one resolved locale.
pub struct LocaleModel {
    pub name: Seq<char>,
    pub doc: Seq<EntryModel>,
}

impl View for LocaleEntry {
    type V = LocaleModel;

    open spec fn view(&self) -> LocaleModel {
        LocaleModel { name: self.name@, doc: self.doc@ }
    }
}

/// The locale -> document tree of one build. The locale names are
/// pairwise distinct and "default" is always among them.
#[derive(Debug)]
pub struct TranslationTree {
    pub locales: Vec<LocaleEntry>,
}

/// The models of a sequence of resolved locales.
pub open spec fn locale_models(s: Seq<LocaleEntry>) -> Seq<LocaleModel> {
    s.map_values(|e: LocaleEntry| e@)
}

/// The mapping an association list denotes: a later entry for the same
/// name wins.
pub open spec fn assoc_map(s: Seq<LocaleModel>) -> Map<Seq<char>, Seq<EntryModel>>
    decreases s.len(),
{
    if s.len() == 0 {
        Map::empty()
    } else {
        assoc_map(s.drop_last()).insert(s.last().name, s.last().doc)
    }
}

impl View for TranslationTree {
    type V = Map<Seq<char>, Seq<EntryModel>>;

    open spec fn view(&self) -> Map<Seq<char>, Seq<EntryModel>> {
        assoc_map(locale_models(self.locales@))
    }
}

/// The locale names of the listed entries are pairwise distinct.
pub open spec fn distinct_names(s: Seq<LocaleModel>) -> bool {
    forall|i: int, j: int| 0 <= i < j < s.len() ==> s[i].name != s[j].name
}

/// Some listed entry has this locale name.
pub open spec fn has_name(s: Seq<LocaleModel>, name: Seq<char>) -> bool {
    exists|i: int| 0 <= i < s.len() && s[i].name == name
}

/// Well-formedness of a translation tree: distinct locale names, and the
/// "default" locale present.
pub open spec fn tree_wf(t: TranslationTree) -> bool {
    &&& distinct_names(locale_models(t.locales@))
    &&& has_name(locale_models(t.locales@), "default"@)
}

/// The tree holding only an empty "default" document, from which every
/// resolution starts.
pub open spec fn initial_tree() -> Map<Seq<char>, Seq<EntryModel>> {
    Map::empty().insert("default"@, Seq::empty())
}

/// The tree that resolving a list of locale files yields, assuming each
/// parses: files load in order; each registers its document under its
/// locale name, a default-marked file under "default" as well; the last
/// file registered for a name wins.
pub open spec fn spec_resolve(files: Seq<FileModel>) -> Map<Seq<char>, Seq<EntryModel>>
    decreases files.len(),
{
    if files.len() == 0 {
        initial_tree()
    } else {
        let m = spec_resolve(files.drop_last());
        let f = files.last();
        match json_doc_of(f.content) {
            None => m,
            Some(doc) => if is_default_marked(f.path) {
                m.insert("default"@, doc).insert(locale_name(f.path), doc)
            } else {
                m.insert(locale_name(f.path), doc)
            },
        }
    }
}

/// Replacing the document at one index of an association list with
/// distinct names denotes inserting under that name.
proof fn lemma_assoc_update(s: Seq<LocaleModel>, k: int, doc: Seq<EntryModel>)
    requires
        distinct_names(s),
        0 <= k < s.len(),
    ensures
        assoc_map(s.update(k, LocaleModel { name: s[k].name, doc })) == assoc_map(s).insert(
            s[k].name,
            doc,
        ),
    decreases s.len(),
{
    let s2 = s.update(k, LocaleModel { name: s[k].name, doc });
    if k == s.len() - 1 {
        assert(s2.drop_last() =~= s.drop_last());
        assert(assoc_map(s2) =~= assoc_map(s).insert(s[k].name, doc));
    } else {
        assert(distinct_names(s.drop_last()));
        lemma_assoc_update(s.drop_last(), k, doc);
        assert(s2.drop_last() =~= s.drop_last().update(k, LocaleModel { name: s[k].name, doc }));
        assert(s2.last() == s.last());
        assert(s[k].name != s.last().name);
        assert(assoc_map(s2) =~= assoc_map(s).insert(s[k].name, doc));
    }
}

/// The index of the entry carrying this locale name, if any.
fn find_locale_index(locales: &Vec<LocaleEntry>, name: &str) -> (r: Option<usize>)
    ensures
        r matches Some(k) ==> 0 <= k < locales@.len() && locale_models(locales@)[k as int].name
            == name@,
        r is None ==> forall|j: int|
            0 <= j < locales@.len() ==> locale_models(locales@)[j].name != name@,
{
    let n = locales.len();
    let mut k: usize = 0;
    while k < n
        invariant
            n == locales@.len(),
            0 <= k <= n,
            forall|j: int| 0 <= j < k ==> locale_models(locales@)[j].name != name@,
        decreases n - k,
    {
        let same = str_eq(locales[k].name.as_str(), name);
        proof {
            assert(locale_models(locales@)[k as int] == locales@[k as int]@);
        }
        if same {
            return Some(k);
        }
        k = k + 1;
    }
    None
}

/// Register a document under a locale name: replace the document of the
/// entry with this name, or append a new entry.
fn upsert_locale(locales: &mut Vec<LocaleEntry>, name: String, doc: TransDoc)
    requires
        distinct_names(locale_models(old(locales)@)),
    ensures
        distinct_names(locale_models(final(locales)@)),
        assoc_map(locale_models(final(locales)@)) == assoc_map(locale_models(old(locales)@)).insert(
            name@,
            doc@,
        ),
        forall|n: Seq<char>|
            has_name(locale_models(final(locales)@), n) <==> (has_name(
                locale_models(old(locales)@),
                n,
            ) || n == name@),
{
    let ghost s0 = locale_models(locales@);
    let ghost namev = name@;
    let ghost docv = doc@;
    match find_locale_index(locales, name.as_str()) {
        Some(k) => {
            let ghost kk = k as int;
            locales[k] = LocaleEntry { name, doc };
            proof {
                assert forall|i: int| 0 <= i < locales@.len() implies locale_models(locales@)[i]
                    == locales@[i]@ by {}
                assert(locale_models(locales@) =~= s0.update(
                    kk,
                    LocaleModel { name: s0[kk].name, doc: docv },
                ));
                lemma_assoc_update(s0, kk, docv);
                assert(distinct_names(locale_models(locales@)));
                assert forall|nn: Seq<char>|
                    has_name(locale_models(locales@), nn) <==> (has_name(s0, nn)
                        || nn == namev) by {
                    let s2 = locale_models(locales@);
                    if has_name(s2, nn) {
                        let i = choose|i: int| 0 <= i < s2.len() && s2[i].name == nn;
                        assert(s0[i].name == s2[i].name);
                    }
                    if has_name(s0, nn) {
                        let i = choose|i: int| 0 <= i < s0.len() && s0[i].name == nn;
                        assert(s2[i].name == s0[i].name);
                    }
                    if nn == namev {
                        assert(locale_models(locales@)[kk].name == nn);
                    }
                }
            }
        },
        None => {
            locales.push(LocaleEntry { name, doc });
            proof {
                let s2 = locale_models(locales@);
                assert(s2 =~= s0.push(LocaleModel { name: namev, doc: docv }));
                assert(s2.drop_last() =~= s0);
                assert(assoc_map(s2) == assoc_map(s0).insert(namev, docv));
                assert forall|nn: Seq<char>|
                    has_name(s2, nn) <==> (has_name(s0, nn) || nn == namev) by {
                    if has_name(s2, nn) {
                        let i = choose|i: int| 0 <= i < s2.len() && s2[i].name == nn;
                        if i < s0.len() {
                            assert(s0[i].name == nn);
                        }
                    }
                    if has_name(s0, nn) {
                        let i = choose|i: int| 0 <= i < s0.len() && s0[i].name == nn;
                        assert(s2[i].name == nn);
                    }
                    if nn == namev {
                        assert(s2[s2.len() - 1].name == nn);
                    }
                }
                assert(distinct_names(s2));
            }
        },
    }
}

/// Resolve a set of locale document files into a translation tree.
///
/// Every file must parse as a JSON object; the first one that does not
/// fails the resolution with `MalformedTranslation` naming its path. On
/// success the tree is exactly `spec_resolve` of the files: "default" is
/// always present (empty if no file supplied it), a default-marked file
/// registers under "default" and its own normalized locale name, any
/// other file under its locale name only, and the last file loaded for a
/// name wins.
pub fn resolve_translations(files: &Vec<LocaleFile>) -> (r: Result<TranslationTree, BuildError>)
    ensures
        r is Ok <==> (forall|i: int|
            0 <= i < files@.len() ==> json_doc_of(files@[i].content@) is Some),
        r matches Ok(t) ==> t@ == spec_resolve(files_view(files@)) && tree_wf(t),
        r matches Err(e) ==> (e matches BuildError::MalformedTranslation { path } && exists|i: int|
            0 <= i < files@.len() && json_doc_of(#[trigger] files@[i].content@) is None && path@
                == files@[i].path@ && (forall|j: int|
                0 <= j < i ==> json_doc_of(#[trigger] files@[j].content@) is Some)),
{
    let mut tree = TranslationTree { locales: Vec::new() };
    let default_name = String::from_str("default");
    let empty_doc = TransDoc { entries: Vec::new() };
    proof {
        assert(empty_doc@ =~= Seq::<EntryModel>::empty());
        assert(locale_models(tree.locales@) =~= Seq::<LocaleModel>::empty());
        assert(tree@ =~= Map::<Seq<char>, Seq<EntryModel>>::empty());
    }
    upsert_locale(&mut tree.locales, default_name, empty_doc);
    proof {
        assert(tree@ =~= initial_tree());
        assert(files_view(files@).take(0) =~= Seq::<FileModel>::empty());
    }
    let n = files.len();
    let mut idx: usize = 0;
    while idx < n
        invariant
            n == files@.len(),
            0 <= idx <= n,
            tree@ == spec_resolve(files_view(files@).take(idx as int)),
            distinct_names(locale_models(tree.locales@)),
            has_name(locale_models(tree.locales@), "default"@),
            forall|j: int| 0 <= j < idx ==> json_doc_of(files@[j].content@) is Some,
        decreases n - idx,
    {
        let f = &files[idx];
        let doc = match parse_translation_doc(f.content.as_str()) {
            Some(d) => d,
            None => {
                return Err(BuildError::MalformedTranslation { path: f.path.clone() });
            },
        };
        let marked = str_ends_with(f.path.as_str(), "_default.json");
        if marked {
            let doc_copy = clone_doc(&doc);
            upsert_locale(&mut tree.locales, String::from_str("default"), doc_copy);
        }
        let name = locale_name_of(f.path.as_str());
        upsert_locale(&mut tree.locales, name, doc);
        proof {
            let fv = files_view(files@);
            assert(fv.take(idx + 1).drop_last() =~= fv.take(idx as int));
            assert(fv.take(idx + 1).last() == fv[idx as int]);
            assert(fv[idx as int].content == files@[idx as int].content@);
        }
        idx = idx + 1;
    }
    proof {
        assert(files_view(files@).take(n as int) =~= files_view(files@));
    }
    Ok(tree)
}

/// The models of a sequence of key/value string pairs.
pub open spec fn pairs_view(ps: Seq<(String, String)>) -> Seq<(Seq<char>, Seq<char>)> {
    ps.map_values(|p: (String, String)| (p.0@, p.1@))
}

/// The models of a sequence of document entries.
pub open spec fn entry_models(s: Seq<TransEntry>) -> Seq<EntryModel> {
    s.map_values(|e: TransEntry| e@)
}

/// The entry lies strictly below the given key-path prefix.
pub open spec fn under_prefix(e: EntryModel, prefix: Seq<Seq<char>>) -> bool {
    e.path.len() > prefix.len() && e.path.take(prefix.len() as int) == prefix
}

/// The entries lying below a key-path prefix of a document, in document
/// order, each with its path cut down to the part below the prefix. This
/// is the whole subtree under the prefix, nested keys included.
pub open spec fn spec_subtree(doc: Seq<EntryModel>, prefix: Seq<Seq<char>>) -> Seq<EntryModel>
    decreases doc.len(),
{
    if doc.len() == 0 {
        Seq::empty()
    } else {
        let rest = spec_subtree(doc.drop_last(), prefix);
        let e = doc.last();
        if under_prefix(e, prefix) {
            rest.push(EntryModel { path: e.path.skip(prefix.len() as int), text: e.text })
        } else {
            rest
        }
    }
}

/// Does this entry lie strictly below the prefix?
fn entry_under_prefix(e: &TransEntry, prefix: &Vec<String>) -> (r: bool)
    ensures
        r == under_prefix(e@, prefix.deep_view()),
{
    let plen = prefix.len();
    if e.path.len() <= plen {
        assert(e@.path.len() == e.path@.len());
        return false;
    }
    let mut j: usize = 0;
    while j < plen
        invariant
            plen == prefix@.len(),
            e.path@.len() > plen,
            0 <= j <= plen,
            forall|t: int| 0 <= t < j ==> e@.path[t] == prefix.deep_view()[t],
        decreases plen - j,
    {
        if !str_eq(e.path[j].as_str(), prefix[j].as_str()) {
            assert(e@.path[j as int] != prefix.deep_view()[j as int]);
            assert(e@.path.take(plen as int)[j as int] == e@.path[j as int]);
            return false;
        }
        j = j + 1;
    }
    proof {
        assert(e@.path.take(plen as int) =~= prefix.deep_view());
    }
    true
}

/// Cut one entry down to its part below a prefix of the given length.
fn rebase_entry(e: &TransEntry, n: usize) -> (r: TransEntry)
    requires
        n <= e.path@.len(),
    ensures
        r@ == (EntryModel { path: e@.path.skip(n as int), text: e@.text }),
{
    let mut path: Vec<String> = Vec::new();
    let len = e.path.len();
    proof {
        assert(path.deep_view() =~= e@.path.subrange(n as int, n as int));
    }
    let mut j: usize = n;
    while j < len
        invariant
            n <= j <= len,
            len == e.path@.len(),
            e@.path.len() == len,
            path.deep_view() == e@.path.subrange(n as int, j as int),
        decreases len - j,
    {
        let ghost prev = path.deep_view();
        path.push(e.path[j].clone());
        proof {
            assert(e@.path[j as int] == e.path@[j as int]@);
            assert(path.deep_view() =~= prev.push(e@.path[j as int]));
            assert(e@.path.subrange(n as int, j + 1) =~= e@.path.subrange(n as int, j as int).push(
                e@.path[j as int],
            ));
        }
        j = j + 1;
    }
    proof {
        assert(e@.path.subrange(n as int, len as int) =~= e@.path.skip(n as int));
    }
    TransEntry { path, text: e.text.clone() }
}

/// A copy of one entry, field by field.
pub(crate) fn clone_entry(e: &TransEntry) -> (r: TransEntry)
    ensures
        r@ == e@,
{
    let copy = rebase_entry(e, 0);
    proof {
        assert(e@.path.skip(0) =~= e@.path);
    }
    copy
}

/// A copy of a whole document, entry by entry.
fn clone_doc(d: &TransDoc) -> (r: TransDoc)
    ensures
        r@ == d@,
{
    let mut entries: Vec<TransEntry> = Vec::new();
    let n = d.entries.len();
    proof {
        assert(entry_models(entries@) =~= d@.take(0));
    }
    let mut i: usize = 0;
    while i < n
        invariant
            n == d.entries@.len(),
            n == d@.len(),
            0 <= i <= n,
            entry_models(entries@) == d@.take(i as int),
        decreases n - i,
    {
        let ghost prev = entry_models(entries@);
        let copy = clone_entry(&d.entries[i]);
        entries.push(copy);
        proof {
            assert(d@[i as int] == d.entries@[i as int]@);
            assert(entry_models(entries@) =~= prev.push(d@[i as int]));
            assert(d@.take(i + 1) =~= d@.take(i as int).push(d@[i as int]));
        }
        i = i + 1;
    }
    proof {
        assert(d@.take(n as int) =~= d@);
    }
    TransDoc { entries }
}

/// The entries below a key-path prefix of a document, re-rooted at the
/// prefix: the exec computation of `spec_subtree`.
pub fn doc_subtree(doc: &TransDoc, prefix: &Vec<String>) -> (r: Vec<TransEntry>)
    ensures
        entry_models(r@) == spec_subtree(doc@, prefix.deep_view()),
{
    let mut r: Vec<TransEntry> = Vec::new();
    let n = doc.entries.len();
    proof {
        assert(doc@.take(0) =~= Seq::<EntryModel>::empty());
        assert(entry_models(r@) =~= spec_subtree(doc@.take(0), prefix.deep_view()));
    }
    let mut i: usize = 0;
    while i < n
        invariant
            n == doc.entries@.len(),
            n == doc@.len(),
            0 <= i <= n,
            entry_models(r@) == spec_subtree(doc@.take(i as int), prefix.deep_view()),
        decreases n - i,
    {
        let e = &doc.entries[i];
        proof {
            assert(doc@[i as int] == doc.entries@[i as int]@);
        }
        if entry_under_prefix(e, prefix) {
            let ghost rprev = entry_models(r@);
            let rebased = rebase_entry(e, prefix.len());
            r.push(rebased);
            proof {
                assert(entry_models(r@) =~= rprev.push(
                    EntryModel {
                        path: doc@[i as int].path.skip(prefix.deep_view().len() as int),
                        text: doc@[i as int].text,
                    },
                ));
            }
        }
        proof {
            assert(doc@.take(i + 1).drop_last() =~= doc@.take(i as int));
            assert(doc@.take(i + 1).last() == doc@[i as int]);
            assert(entry_models(r@) =~= spec_subtree(doc@.take(i + 1), prefix.deep_view()));
        }
        i = i + 1;
    }
    proof {
        assert(doc@.take(n as int) =~= doc@);
    }
    r
}

/// The "default" document stays empty when no file is default-marked and
/// none has "default" as its own locale name.
pub proof fn lemma_default_stays_empty(files: Seq<FileModel>)
    requires
        forall|i: int|
            0 <= i < files.len() ==> !is_default_marked(#[trigger] files[i].path) && locale_name(
                files[i].path,
            ) != "default"@,
    ensures
        spec_resolve(files).contains_key("default"@),
        spec_resolve(files)["default"@] == Seq::<EntryModel>::empty(),
    decreases files.len(),
{
    if files.len() > 0 {
        assert(forall|i: int|
            0 <= i < files.drop_last().len() ==> !is_default_marked(
                #[trigger] files.drop_last()[i].path,
            ) && locale_name(files.drop_last()[i].path) != "default"@);
        lemma_default_stays_empty(files.drop_last());
    }
}

/// The "default" locale is always in the resolved tree, whatever the
/// files were.
pub proof fn lemma_default_always_present(files: Seq<FileModel>)
    ensures
        spec_resolve(files).contains_key("default"@),
    decreases files.len(),
{
    if files.len() > 0 {
        lemma_default_always_present(files.drop_last());
    }
}

/// An association list lists a name exactly when the mapping it denotes
/// has it as a key.
pub proof fn lemma_has_name_contains_key(s: Seq<LocaleModel>, n: Seq<char>)
    ensures
        has_name(s, n) <==> assoc_map(s).contains_key(n),
    decreases s.len(),
{
    if s.len() > 0 {
        lemma_has_name_contains_key(s.drop_last(), n);
        if has_name(s, n) {
            let i = choose|i: int| 0 <= i < s.len() && s[i].name == n;
            if i < s.len() - 1 {
                assert(s.drop_last()[i].name == n);
                assert(has_name(s.drop_last(), n));
            }
        }
        if assoc_map(s).contains_key(n) {
            if n != s.last().name {
                assert(assoc_map(s.drop_last()).contains_key(n));
                let i = choose|i: int| 0 <= i < s.drop_last().len() && s.drop_last()[i].name == n;
                assert(s[i].name == n);
            } else {
                assert(s[s.len() - 1].name == n);
            }
        }
    }
}

/// Besides "default", the resolved tree holds exactly the locale names of
/// the discovered files: no key appears that no file supplied.
pub proof fn lemma_resolve_domain(files: Seq<FileModel>)
    requires
        forall|i: int| 0 <= i < files.len() ==> json_doc_of(#[trigger] files[i].content) is Some,
    ensures
        forall|n: Seq<char>|
            #[trigger] spec_resolve(files).contains_key(n) <==> (n == "default"@ || exists|i: int|
                0 <= i < files.len() && locale_name(#[trigger] files[i].path) == n),
    decreases files.len(),
{
    if files.len() == 0 {
    } else {
        let prev = files.drop_last();
        assert(forall|i: int|
            0 <= i < prev.len() ==> json_doc_of(#[trigger] prev[i].content) is Some);
        lemma_resolve_domain(prev);
        let f = files.last();
        assert(json_doc_of(f.content) is Some);
        assert forall|n: Seq<char>| #[trigger] spec_resolve(files).contains_key(n) <==> (n
            == "default"@ || exists|i: int|
            0 <= i < files.len() && locale_name(#[trigger] files[i].path) == n) by {
            if spec_resolve(files).contains_key(n) {
                if n != "default"@ && n != locale_name(f.path) {
                    assert(spec_resolve(prev).contains_key(n));
                    let i = choose|i: int|
                        0 <= i < prev.len() && locale_name(#[trigger] prev[i].path) == n;
                    assert(locale_name(files[i].path) == n);
                } else if n == locale_name(f.path) {
                    assert(locale_name(files[files.len() - 1].path) == n);
                }
            }
            if n == "default"@ {
                lemma_default_always_present(files);
            }
            if exists|i: int| 0 <= i < files.len() && locale_name(#[trigger] files[i].path) == n {
                let i = choose|i: int|
                    0 <= i < files.len() && locale_name(#[trigger] files[i].path) == n;
                if i < files.len() - 1 {
                    assert(locale_name(prev[i].path) == n);
                    assert(spec_resolve(prev).contains_key(n));
                }
                assert(spec_resolve(files).contains_key(n));
            }
        }
    }
}

} // verus!
