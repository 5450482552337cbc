//! The per-file cache of a server session, and the project namespace that
//! each file sees: what every other cached file contributes.
use vstd::prelude::*;
use ropey::Rope;
use crate::model::{
    AnalysisResult, Binding, BindingModel, Origin, Output, OutputModel, Signature,
    bindings_model, clone_parameters,
};
use crate::namespace::{merge_bindings, merge_model};
use crate::semantic_token::SemanticTokenLocation;
use crate::text::{rope_from_str, rope_text};

verus! {

/// What the session holds of one analyzed file.
#[derive(Debug)]
pub struct Entry {
    pub path: String,
    /// The name under which the file is declared as a function, if it is.
    pub export: Option<String>,
    pub analysis: AnalysisResult,
    pub tokens: Vec<SemanticTokenLocation>,
}

/// The live text of an open file.
pub struct Document {
    pub path: String,
    pub rope: Rope,
}

/// The output bound to a declared function: its signature as code, or
/// plain code when the file exported none.
pub open spec fn export_output(sig: Option<Signature>) -> OutputModel {
    match sig {
        Some(s) => OutputModel::Code(
            match s.parameters {
                Some(v) => Some(v@),
                None => None,
            },
            match s.return_type {
                Some(t) => Some(t@),
                None => None,
            },
        ),
        None => OutputModel::Type(seq!['C', 'o', 'd', 'e']),
    }
}

/// What one cached file makes visible to the others: its declared
/// function name bound to its signature, then its produced globals, which
/// take precedence.
pub open spec fn contribution(e: Entry) -> Seq<BindingModel> {
    export_model(e) + bindings_model(e.analysis.globals@)
}

/// The binding of an entry's declared function name, if it has one.
pub open spec fn export_model(e: Entry) -> Seq<BindingModel> {
    match e.export {
        Some(name) => seq![
            BindingModel {
                name,
                origin: Origin::External(e.path, None),
                output: Some(export_output(e.analysis.signature)),
            },
        ],
        None => Seq::empty(),
    }
}

/// The namespace that the file at `exclude` sees: the contributions of
/// every other entry, merged in the entries' order.
pub open spec fn namespace_model(entries: Seq<Entry>, exclude: Seq<char>) -> Seq<BindingModel>
    decreases entries.len(),
{
    if entries.len() == 0 {
        Seq::empty()
    } else {
        let before = namespace_model(entries.drop_last(), exclude);
        if entries.last().path@ == exclude {
            before
        } else {
            merge_model(before, contribution(entries.last()))
        }
    }
}

/// The index of the first entry for `path`.
pub open spec fn entry_position(entries: Seq<Entry>, path: Seq<char>) -> Option<int>
    decreases entries.len(),
{
    if entries.len() == 0 {
        None
    } else {
        match entry_position(entries.drop_last(), path) {
            Some(i) => Some(i),
            None => if entries.last().path@ == path {
                Some(entries.len() - 1)
            } else {
                None
            },
        }
    }
}

/// The entries after `e` is stored: it replaces the entry of its path,
/// or is appended.
pub open spec fn store_model(entries: Seq<Entry>, e: Entry) -> Seq<Entry> {
    match entry_position(entries, e.path@) {
        Some(i) => entries.update(i, e),
        None => entries.push(e),
    }
}

pub proof fn lemma_entry_position(entries: Seq<Entry>, path: Seq<char>)
    ensures
        match entry_position(entries, path) {
            Some(i) => 0 <= i < entries.len() && entries[i].path@ == path && forall|k: int|
                0 <= k < i ==> (#[trigger] entries[k]).path@ != path,
            None => forall|k: int| 0 <= k < entries.len() ==> (#[trigger] entries[k]).path@ != path,
        },
    decreases entries.len(),
{
    if entries.len() > 0 {
        lemma_entry_position(entries.drop_last(), path);
        assert forall|k: int| 0 <= k < entries.len() - 1 implies entries[k] == entries.drop_last()[k] by {}
    }
}

proof fn lemma_entry_position_first(entries: Seq<Entry>, path: Seq<char>, i: int)
    requires
        0 <= i < entries.len(),
        entries[i].path@ == path,
        forall|k: int| 0 <= k < i ==> (#[trigger] entries[k]).path@ != path,
    ensures
        entry_position(entries, path) == Some(i),
    decreases entries.len(),
{
    lemma_entry_position(entries, path);
    if i < entries.len() - 1 {
        lemma_entry_position_first(entries.drop_last(), path, i);
    } else {
        lemma_entry_position(entries.drop_last(), path);
        assert forall|k: int| 0 <= k < entries.len() - 1 implies (
        #[trigger] entries.drop_last()[k]).path@ != path by {
            assert(entries[k] == entries.drop_last()[k]);
        }
    }
}

/// Entries that agree everywhere but on entries for `path` give `path`
/// the same namespace.
proof fn lemma_namespace_ignores(a: Seq<Entry>, b: Seq<Entry>, path: Seq<char>)
    requires
        a.len() == b.len(),
        forall|k: int|
            0 <= k < a.len() ==> #[trigger] a[k] == b[k] || (a[k].path@ == path && b[k].path@
                == path),
    ensures
        namespace_model(a, path) == namespace_model(b, path),
    decreases a.len(),
{
    if a.len() > 0 {
        assert forall|k: int| 0 <= k < a.len() - 1 implies #[trigger] a.drop_last()[k] == b.drop_last()[k]
            || (a.drop_last()[k].path@ == path && b.drop_last()[k].path@ == path) by {
            assert(a.drop_last()[k] == a[k] && b.drop_last()[k] == b[k]);
        }
        lemma_namespace_ignores(a.drop_last(), b.drop_last(), path);
        assert(a.last() == a[a.len() - 1]);
    }
}

/// Re-analyzing a file never lets it see its own earlier exports: storing
/// a new entry for a file leaves the namespace that the file sees as it was.
pub proof fn lemma_store_keeps_own_namespace(entries: Seq<Entry>, e: Entry)
    ensures
        namespace_model(store_model(entries, e), e.path@) == namespace_model(entries, e.path@),
{
    lemma_entry_position(entries, e.path@);
    match entry_position(entries, e.path@) {
        Some(i) => {
            let after = entries.update(i, e);
            assert forall|k: int| 0 <= k < entries.len() implies #[trigger] entries[k] == after[k] || (
            entries[k].path@ == e.path@ && after[k].path@ == e.path@) by {}
            lemma_namespace_ignores(entries, after, e.path@);
        },
        None => {
            let after = entries.push(e);
            assert(after.drop_last() =~= entries);
        },
    }
}

/// Storing the same entry twice leaves the entries as storing it once.
pub proof fn lemma_store_idempotent(entries: Seq<Entry>, e: Entry)
    ensures
        store_model(store_model(entries, e), e) == store_model(entries, e),
{
    lemma_entry_position(entries, e.path@);
    let once = store_model(entries, e);
    match entry_position(entries, e.path@) {
        Some(i) => {
            assert forall|k: int| 0 <= k < i implies (#[trigger] once[k]).path@ != e.path@ by {
                assert(once[k] == entries[k]);
            }
            lemma_entry_position_first(once, e.path@, i);
            assert(once.update(i, e) =~= once);
        },
        None => {
            let i = entries.len() as int;
            assert forall|k: int| 0 <= k < i implies (#[trigger] once[k]).path@ != e.path@ by {
                assert(once[k] == entries[k]);
            }
            lemma_entry_position_first(once, e.path@, i);
            assert(once.update(i, e) =~= once);
        },
    }
}


/// The entries after each of `es` is stored, in order.
pub open spec fn store_all(entries: Seq<Entry>, es: Seq<Entry>) -> Seq<Entry>
    decreases es.len(),
{
    if es.len() == 0 {
        entries
    } else {
        store_model(store_all(entries, es.drop_last()), es.last())
    }
}

/// The last of `es` for `path`.
pub open spec fn last_for(es: Seq<Entry>, path: Seq<char>) -> Option<Entry>
    decreases es.len(),
{
    if es.len() == 0 {
        None
    } else if es.last().path@ == path {
        Some(es.last())
    } else {
        last_for(es.drop_last(), path)
    }
}

/// Entries with the same paths at the same places have the same first
/// entry for each path.
proof fn lemma_same_paths(a: Seq<Entry>, b: Seq<Entry>, p: Seq<char>)
    requires
        a.len() == b.len(),
        forall|i: int| 0 <= i < a.len() ==> (#[trigger] a[i]).path@ == b[i].path@,
    ensures
        entry_position(a, p) == entry_position(b, p),
    decreases a.len(),
{
    if a.len() > 0 {
        assert forall|i: int| 0 <= i < a.len() - 1 implies (#[trigger] a.drop_last()[i]).path@
            == b.drop_last()[i].path@ by {
            assert(a.drop_last()[i] == a[i] && b.drop_last()[i] == b[i]);
        }
        lemma_same_paths(a.drop_last(), b.drop_last(), p);
        assert(a.last().path@ == b.last().path@);
    }
}

/// After storing `es`, the first entry for each of their paths is the
/// last of them for that path.
proof fn lemma_store_all_holds_last(entries: Seq<Entry>, es: Seq<Entry>, p: Seq<char>)
    requires
        last_for(es, p) is Some,
    ensures
        entry_position(store_all(entries, es), p) matches Some(i) && 0 <= i < store_all(entries, es).len()
            && store_all(entries, es)[i] == last_for(es, p)->Some_0,
    decreases es.len(),
{
    let prev = store_all(entries, es.drop_last());
    let x = es.last();
    let now = store_all(entries, es);
    lemma_entry_position(prev, x.path@);
    lemma_entry_position(now, p);
    if x.path@ == p {
        match entry_position(prev, p) {
            Some(j) => {
                assert forall|i: int| 0 <= i < prev.len() implies (#[trigger] prev[i]).path@ == now[i].path@ by {}
                lemma_same_paths(prev, now, p);
            },
            None => {
                lemma_entry_position_first(now, p, prev.len() as int);
            },
        }
    } else {
        lemma_store_all_holds_last(entries, es.drop_last(), p);
        let i = entry_position(prev, p)->Some_0;
        match entry_position(prev, x.path@) {
            Some(j) => {
                assert forall|k: int| 0 <= k < prev.len() implies (#[trigger] prev[k]).path@ == now[k].path@ by {}
                lemma_same_paths(prev, now, p);
                assert(j != i);
            },
            None => {
                lemma_entry_position(prev, p);
                assert forall|k: int| 0 <= k < i implies (#[trigger] now[k]).path@ != p by {
                    assert(now[k] == prev[k]);
                }
                lemma_entry_position_first(now, p, i);
            },
        }
    }
}

/// Storing entries whose paths all have an entry only replaces, at the
/// first entry of each path, by the last of the stored ones for it.
proof fn lemma_store_all_present(t: Seq<Entry>, es: Seq<Entry>)
    requires
        forall|k: int| 0 <= k < es.len() ==> entry_position(t, (#[trigger] es[k]).path@) is Some,
    ensures
        store_all(t, es).len() == t.len(),
        forall|i: int|
            0 <= i < t.len() ==> (#[trigger] store_all(t, es)[i]).path@ == t[i].path@,
        forall|i: int|
            0 <= i < t.len() ==> #[trigger] store_all(t, es)[i] == if entry_position(t, t[i].path@)
                == Some(i) && last_for(es, t[i].path@) is Some {
                last_for(es, t[i].path@)->Some_0
            } else {
                t[i]
            },
    decreases es.len(),
{
    if es.len() > 0 {
        let p = es.drop_last();
        assert forall|k: int| 0 <= k < p.len() implies entry_position(t, (#[trigger] p[k]).path@) is Some by {
            assert(p[k] == es[k]);
        }
        lemma_store_all_present(t, p);
        let u = store_all(t, p);
        let x = es.last();
        assert(entry_position(t, es[es.len() - 1].path@) is Some);
        lemma_same_paths(u, t, x.path@);
        let j = entry_position(t, x.path@)->Some_0;
        lemma_entry_position(t, x.path@);
        let now = store_all(t, es);
        assert(now == u.update(j, x));
        assert forall|i: int| 0 <= i < t.len() implies #[trigger] now[i] == if entry_position(
            t,
            t[i].path@,
        ) == Some(i) && last_for(es, t[i].path@) is Some {
            last_for(es, t[i].path@)->Some_0
        } else {
            t[i]
        } by {
            if i == j {
                assert(t[i].path@ == x.path@);
            } else {
                assert(now[i] == u[i]);
                if t[i].path@ == x.path@ {
                    lemma_entry_position(t, t[i].path@);
                    assert(entry_position(t, t[i].path@) != Some(i));
                }
            }
        }
    }
}

/// Storing the same entries a second time leaves the session's entries as
/// the first time left them.
pub proof fn lemma_store_all_idempotent(entries: Seq<Entry>, es: Seq<Entry>)
    ensures
        store_all(store_all(entries, es), es) == store_all(entries, es),
{
    let s = store_all(entries, es);
    assert forall|k: int| 0 <= k < es.len() implies entry_position(s, (#[trigger] es[k]).path@) is Some by {
        lemma_last_for_some(es, k);
        lemma_store_all_holds_last(entries, es, es[k].path@);
    }
    lemma_store_all_present(s, es);
    let again = store_all(s, es);
    assert forall|i: int| 0 <= i < s.len() implies #[trigger] again[i] == s[i] by {
        if entry_position(s, s[i].path@) == Some(i) && last_for(es, s[i].path@) is Some {
            lemma_store_all_holds_last(entries, es, s[i].path@);
        }
    }
    assert(again =~= s);
}

proof fn lemma_last_for_some(es: Seq<Entry>, k: int)
    requires
        0 <= k < es.len(),
    ensures
        last_for(es, es[k].path@) is Some,
    decreases es.len(),
{
    if k < es.len() - 1 && es.last().path@ != es[k].path@ {
        assert(es.drop_last()[k] == es[k]);
        lemma_last_for_some(es.drop_last(), k);
    }
}

/// The index of the first of `paths` equal to `p`.
pub open spec fn first_index(paths: Seq<Seq<char>>, p: Seq<char>) -> Option<int>
    decreases paths.len(),
{
    if paths.len() == 0 {
        None
    } else {
        match first_index(paths.drop_last(), p) {
            Some(i) => Some(i),
            None => if paths.last() == p {
                Some(paths.len() - 1)
            } else {
                None
            },
        }
    }
}

proof fn lemma_first_index(paths: Seq<Seq<char>>, p: Seq<char>, i: int)
    requires
        0 <= i <= paths.len(),
        forall|k: int| 0 <= k < i ==> #[trigger] paths[k] != p,
        i < paths.len() ==> paths[i] == p,
    ensures
        first_index(paths, p) == if i < paths.len() {
            Some(i)
        } else {
            None::<int>
        },
    decreases paths.len(),
{
    if paths.len() > 0 {
        if i < paths.len() - 1 {
            lemma_first_index(paths.drop_last(), p, i);
        } else {
            assert forall|k: int| 0 <= k < paths.len() - 1 implies #[trigger] paths.drop_last()[k]
                != p by {
                assert(paths.drop_last()[k] == paths[k]);
            }
            lemma_first_index(paths.drop_last(), p, paths.len() - 1);
        }
    }
}

proof fn lemma_first_index_bounds(paths: Seq<Seq<char>>, p: Seq<char>)
    ensures
        match first_index(paths, p) {
            Some(i) => 0 <= i < paths.len() && paths[i] == p && forall|k: int|
                0 <= k < i ==> #[trigger] paths[k] != p,
            None => forall|k: int| 0 <= k < paths.len() ==> #[trigger] paths[k] != p,
        },
    decreases paths.len(),
{
    if paths.len() > 0 {
        lemma_first_index_bounds(paths.drop_last(), p);
        assert forall|k: int| 0 <= k < paths.len() - 1 implies paths.drop_last()[k] == paths[k] by {}
    }
}

pub open spec fn document_paths(docs: Seq<Document>) -> Seq<Seq<char>> {
    docs.map_values(|d: Document| d.path@)
}

/// The text cached for `path`.
pub open spec fn document_model(docs: Seq<Document>, path: Seq<char>) -> Option<Rope> {
    match first_index(document_paths(docs), path) {
        Some(i) => Some(docs[i].rope),
        None => None,
    }
}

/// The entry cached for `path`.
pub open spec fn entry_model(entries: Seq<Entry>, path: Seq<char>) -> Option<Entry> {
    match entry_position(entries, path) {
        Some(i) => Some(entries[i]),
        None => None,
    }
}

fn export_binding(path: &String, name: &String, sig: &Option<Signature>) -> (r: Binding)
    ensures
        r@ == (BindingModel {
            name: *name,
            origin: Origin::External(*path, None),
            output: Some(export_output(*sig)),
        }),
{
    let output = match sig {
        Some(s) => {
            let params = match &s.parameters {
                Some(v) => Some(clone_parameters(v)),
                None => None,
            };
            Output::Code(params, s.return_type.clone())
        },
        None => {
            let code = String::from_str("Code");
            proof {
                reveal_strlit("Code");
                assert(code@ =~= seq!['C', 'o', 'd', 'e']);
            }
            Output::Type(code)
        },
    };
    Binding { name: name.clone(), origin: Origin::External(path.clone(), None), output: Some(output) }
}

/// What an entry makes visible to the other files.
pub fn contribution_of(e: &Entry) -> (r: Vec<Binding>)
    ensures
        bindings_model(r@) == contribution(*e),
{
    let mut r: Vec<Binding> = Vec::new();
    match &e.export {
        Some(name) => {
            let b = export_binding(&e.path, name, &e.analysis.signature);
            r.push(b);
            assert(bindings_model(r@) =~= seq![b@]);
        },
        None => {
            assert(bindings_model(r@) =~= Seq::empty());
        },
    }
    merge_all(&mut r, &e.analysis.globals);
    r
}

/// Appends a copy of each of `v` to `r`.
fn merge_all(r: &mut Vec<Binding>, v: &Vec<Binding>)
    ensures
        bindings_model(final(r)@) == bindings_model(old(r)@) + bindings_model(v@),
{
    let ghost start = bindings_model(r@);
    let mut i: usize = 0;
    while i < v.len()
        invariant
            i <= v@.len(),
            bindings_model(r@) == start + bindings_model(v@).subrange(0, i as int),
        decreases v.len() - i,
    {
        let c = v[i].clone();
        let ghost old_r = r@;
        r.push(c);
        assert(bindings_model(r@) =~= bindings_model(old_r).push(c@));
        i = i + 1;
        assert(bindings_model(r@) =~= start + bindings_model(v@).subrange(0, i as int));
    }
    assert(bindings_model(v@).subrange(0, i as int) =~= bindings_model(v@));
}

/// An analysis that found nothing.
pub open spec fn empty_analysis(a: AnalysisResult) -> bool {
    &&& a.explanations@.len() == 0
    &&& a.origins@.len() == 0
    &&& a.types@.len() == 0
    &&& a.parameters@.len() == 0
    &&& a.variables@.len() == 0
    &&& a.globals@.len() == 0
    &&& a.signature is None
}

/// The state of a server session: the analysis of every known file and
/// the live text of every open one.
pub struct Session {
    pub entries: Vec<Entry>,
    pub documents: Vec<Document>,
    /// Whether the project has been loaded; it is loaded once per session.
    pub loaded: bool,
}

impl Session {
    pub fn new() -> (r: Session)
        ensures
            r.entries@.len() == 0,
            r.documents@.len() == 0,
            !r.loaded,
    {
        Session { entries: Vec::new(), documents: Vec::new(), loaded: false }
    }

    /// The index of the entry for `path`.
    pub fn find_entry(&self, path: &String) -> (r: Option<usize>)
        ensures
            match r {
                Some(i) => i < self.entries@.len() && entry_position(self.entries@, path@) == Some(
                    i as int,
                ),
                None => entry_position(self.entries@, path@) == None::<int>,
            },
    {
        let mut i: usize = 0;
        while i < self.entries.len()
            invariant
                i <= self.entries@.len(),
                forall|k: int| 0 <= k < i ==> (#[trigger] self.entries@[k]).path@ != path@,
            decreases self.entries.len() - i,
        {
            if self.entries[i].path == *path {
                proof {
                    lemma_entry_position_first(self.entries@, path@, i as int);
                }
                return Some(i);
            }
            i = i + 1;
        }
        proof {
            lemma_entry_position(self.entries@, path@);
            if entry_position(self.entries@, path@) is Some {
                let j = entry_position(self.entries@, path@)->Some_0;
                assert(self.entries@[j].path@ == path@);
            }
        }
        None
    }

    /// The entry for `path`.
    pub fn entry(&self, path: &String) -> (r: Option<&Entry>)
        ensures
            match r {
                Some(e) => entry_model(self.entries@, path@) == Some(*e),
                None => entry_model(self.entries@, path@) == None::<Entry>,
            },
    {
        match self.find_entry(path) {
            Some(i) => Some(&self.entries[i]),
            None => None,
        }
    }

    /// The text cached for `path`.
    pub fn document(&self, path: &String) -> (r: Option<&Rope>)
        ensures
            match r {
                Some(d) => document_model(self.documents@, path@) == Some(*d),
                None => document_model(self.documents@, path@) == None::<Rope>,
            },
    {
        match self.find_document(path) {
            Some(i) => Some(&self.documents[i].rope),
            None => None,
        }
    }

    fn find_document(&self, path: &String) -> (r: Option<usize>)
        ensures
            match r {
                Some(i) => i < self.documents@.len() && first_index(
                    document_paths(self.documents@),
                    path@,
                ) == Some(i as int),
                None => first_index(document_paths(self.documents@), path@) == None::<int>,
            },
    {
        let ghost ps = document_paths(self.documents@);
        let mut i: usize = 0;
        while i < self.documents.len()
            invariant
                i <= self.documents@.len(),
                ps == document_paths(self.documents@),
                forall|k: int| 0 <= k < i ==> #[trigger] ps[k] != path@,
            decreases self.documents.len() - i,
        {
            if self.documents[i].path == *path {
                proof {
                    lemma_first_index(ps, path@, i as int);
                }
                return Some(i);
            }
            i = i + 1;
        }
        proof {
            lemma_first_index(ps, path@, ps.len() as int);
        }
        None
    }

    /// Stores `e`, replacing the entry of its path.
    pub fn store(&mut self, e: Entry)
        ensures
            final(self).entries@ == store_model(old(self).entries@, e),
            final(self).documents@ == old(self).documents@,
            final(self).loaded == old(self).loaded,
    {
        match self.find_entry(&e.path) {
            Some(i) => {
                self.entries.set(i, e);
            },
            None => {
                self.entries.push(e);
            },
        }
    }

    /// Records that new text of `path` could not be preprocessed: the file
    /// keeps the name under which it is declared, but no longer produces
    /// any global, type or token.
    pub fn record_failure(&mut self, path: String)
        ensures
            exists|e: Entry|
                final(self).entries@ == store_model(old(self).entries@, e) && e.path == path && e.export
                    == match entry_model(old(self).entries@, path@) {
                    Some(x) => x.export,
                    None => None,
                } && empty_analysis(e.analysis) && e.tokens@.len() == 0,
            final(self).documents@ == old(self).documents@,
            final(self).loaded == old(self).loaded,
    {
        let analysis = AnalysisResult {
            explanations: Vec::new(),
            origins: Vec::new(),
            types: Vec::new(),
            parameters: Vec::new(),
            variables: Vec::new(),
            globals: Vec::new(),
            signature: None,
        };
        self.replace(path, analysis, Vec::new());
    }

    /// Stores a new analysis of `path`, keeping the name under which the
    /// file is declared as a function.
    pub fn replace(&mut self, path: String, analysis: AnalysisResult, tokens: Vec<SemanticTokenLocation>)
        ensures
            final(self).entries@ == store_model(
                old(self).entries@,
                Entry {
                    path,
                    export: match entry_model(old(self).entries@, path@) {
                        Some(e) => e.export,
                        None => None,
                    },
                    analysis,
                    tokens,
                },
            ),
            final(self).documents@ == old(self).documents@,
            final(self).loaded == old(self).loaded,
    {
        let export = match self.entry(&path) {
            Some(e) => match &e.export {
                Some(name) => Some(name.clone()),
                None => None,
            },
            None => None,
        };
        self.store(Entry { path, export, analysis, tokens });
    }

    /// The namespace that the file at `path` sees: what every other cached
    /// file contributes, merged in the order of the entries.
    pub fn namespace_for(&self, path: &String) -> (r: Vec<Binding>)
        ensures
            bindings_model(r@) == namespace_model(self.entries@, path@),
    {
        let mut ns: Vec<Binding> = Vec::new();
        let mut i: usize = 0;
        while i < self.entries.len()
            invariant
                i <= self.entries@.len(),
                bindings_model(ns@) == namespace_model(self.entries@.subrange(0, i as int), path@),
            decreases self.entries.len() - i,
        {
            proof {
                assert(self.entries@.subrange(0, i + 1).drop_last() =~= self.entries@.subrange(
                    0,
                    i as int,
                ));
            }
            if self.entries[i].path != *path {
                let c = contribution_of(&self.entries[i]);
                merge_bindings(&mut ns, &c);
            }
            i = i + 1;
        }
        assert(self.entries@.subrange(0, i as int) =~= self.entries@);
        ns
    }

    /// Caches new text for `path` and returns the namespace the file is to
    /// be analyzed against: what every other cached file contributes.
    pub fn open_text(&mut self, path: &String, text: &str) -> (r: Vec<Binding>)
        ensures
            bindings_model(r@) == namespace_model(old(self).entries@, path@),
            document_model(final(self).documents@, path@) matches Some(d) && rope_text(d) == text@,
            final(self).entries@ == old(self).entries@,
            final(self).loaded == old(self).loaded,
    {
        let ns = self.namespace_for(path);
        let rope = rope_from_str(text);
        self.set_document(path.clone(), rope);
        ns
    }

    /// Marks the project as loaded. Whether it was not loaded before: the
    /// project is loaded at most once per session.
    pub fn begin_load(&mut self) -> (r: bool)
        ensures
            r == !old(self).loaded,
            final(self).loaded,
            final(self).entries@ == old(self).entries@,
            final(self).documents@ == old(self).documents@,
    {
        let first = !self.loaded;
        self.loaded = true;
        first
    }

    /// Caches the live text of `path`, replacing the text it had.
    pub fn set_document(&mut self, path: String, rope: Rope)
        ensures
            document_model(final(self).documents@, path@) == Some(rope),
            forall|p: Seq<char>|
                p != path@ ==> #[trigger] document_model(final(self).documents@, p) == document_model(
                    old(self).documents@,
                    p,
                ),
            final(self).entries@ == old(self).entries@,
            final(self).loaded == old(self).loaded,
    {
        let ghost before = self.documents@;
        let ghost key = path@;
        match self.find_document(&path) {
            Some(i) => {
                self.documents.set(i, Document { path, rope });
                proof {
                    let ps = document_paths(self.documents@);
                    assert(ps =~= document_paths(before).update(i as int, key));
                    lemma_first_index_bounds(document_paths(before), key);
                    assert forall|k: int| 0 <= k < i implies #[trigger] ps[k] != key by {
                        assert(ps[k] == document_paths(before)[k]);
                    }
                    lemma_first_index(ps, key, i as int);
                    assert forall|p: Seq<char>| p != key implies #[trigger] document_model(
                        self.documents@,
                        p,
                    ) == document_model(before, p) by {
                        lemma_same_first(document_paths(before), ps, i as int, key, p);
                        lemma_first_index_bounds(ps, p);
                        if first_index(ps, p) is Some {
                            let j = first_index(ps, p)->Some_0;
                            assert(j != i);
                            assert(self.documents@[j] == before[j]);
                        }
                    }
                }
            },
            None => {
                self.documents.push(Document { path, rope });
                proof {
                    let ps = document_paths(self.documents@);
                    assert(ps =~= document_paths(before).push(key));
                    assert forall|k: int| 0 <= k < before.len() implies #[trigger] ps[k] != key by {
                        assert(ps[k] == document_paths(before)[k]);
                        lemma_first_index_bounds(document_paths(before), key);
                    }
                    lemma_first_index(ps, key, before.len() as int);
                    assert forall|p: Seq<char>| p != key implies #[trigger] document_model(
                        self.documents@,
                        p,
                    ) == document_model(before, p) by {
                        assert(ps.drop_last() =~= document_paths(before));
                        lemma_first_index_bounds(document_paths(before), p);
                        if first_index(ps, p) is Some {
                            let j = first_index(ps, p)->Some_0;
                            assert(self.documents@[j] == before[j]);
                        }
                    }
                }
            },
        }
    }
}

/// Replacing the path at `i` by the path already first there keeps the
/// first index of every other path.
proof fn lemma_same_first(a: Seq<Seq<char>>, b: Seq<Seq<char>>, i: int, key: Seq<char>, p: Seq<char>)
    requires
        0 <= i < a.len(),
        a[i] == key,
        b == a.update(i, key),
        p != key,
    ensures
        first_index(b, p) == first_index(a, p),
{
    assert(b =~= a);
}

} // verus!
