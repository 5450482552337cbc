//! The analysis of a whole project: which files its marker declares, what
//! is reported for declarations that name no readable file, and how the
//! per-file results are merged into the session.
use vstd::prelude::*;
use crate::diagnostics::FileReport;
use crate::model::{AnalysisResult, Binding, Error, ErrorKind, Origin, Output, Span};
use crate::paths::{Alias, join, join_path, parent, parent_of, resolve, resolved};
use crate::semantic_token::SemanticTokenLocation;
use crate::session::{Entry, Session, lemma_store_all_idempotent, store_all, store_model};

verus! {

/// A script that a project's marker declares as a function.
#[derive(Debug)]
pub struct Declaration {
    pub name: String,
    /// The path as the marker writes it.
    pub path: String,
    /// Where the marker declares it.
    pub span: Span,
}

impl Clone for Declaration {
    fn clone(&self) -> (r: Self)
        ensures
            r == *self,
    {
        Declaration { name: self.name.clone(), path: self.path.clone(), span: self.span }
    }
}

/// What to do for one file of a project.
#[derive(Debug)]
pub enum Task {
    /// Read and analyze the file at `path`, which fulfils `declaration`
    /// when there is one; a file without one is optional.
    Analyze { path: String, declaration: Option<Declaration> },
    /// Report a declaration whose path names no file.
    Unresolved(Error),
}

pub open spec fn unresolved_message(name: Seq<char>, declared: Seq<char>) -> Seq<char> {
    "The function \""@ + name + "\" is declared but could not derive a path for \""@ + declared
        + "\""@
}

pub open spec fn unopened_message(name: Seq<char>, path: Seq<char>) -> Seq<char> {
    "The function \""@ + name + "\" is declared but could not open file \""@ + path + "\""@
}

/// The directory of a marker file, in which its declared paths start.
pub open spec fn base_of(marker: Seq<char>) -> Seq<char> {
    match parent(marker) {
        Some(d) => d,
        None => Seq::empty(),
    }
}

/// The problem reported for a declared function whose file cannot be
/// read: it belongs to the marker file and sits at the declaration.
pub open spec fn is_unopened_error(e: Error, d: Declaration, path: Seq<char>, marker: String) -> bool {
    &&& e.kind == ErrorKind::Other
    &&& e.message@ == unopened_message(d.name@, path)
    &&& e.span == d.span
    &&& e.origin == Some(marker)
}

/// `t` is the task for an optional script at `path`.
pub open spec fn is_optional_task(t: Task, path: Seq<char>) -> bool {
    match t {
        Task::Analyze { path: p, declaration } => p@ == path && declaration is None,
        Task::Unresolved(_) => false,
    }
}

/// `t` is the task for the declaration `d` of the marker at `marker`.
pub open spec fn is_task_for(t: Task, d: Declaration, marker: String, aliases: Seq<Alias>) -> bool {
    match resolved(d.path@, base_of(marker@), aliases) {
        Some(p) => t matches Task::Analyze { path, declaration } && path@ == p && declaration
            == Some(d),
        None => t matches Task::Unresolved(e) && e.kind == ErrorKind::Other && e.message@
            == unresolved_message(d.name@, d.path@) && e.span == d.span && e.origin == Some(marker),
    }
}

/// The problem reported for a declared function whose path names no file.
pub fn unresolved_error(d: &Declaration, marker: &String) -> (r: Error)
    ensures
        r.kind == ErrorKind::Other,
        r.message@ == unresolved_message(d.name@, d.path@),
        r.span == d.span,
        r.origin == Some(*marker),
{
    let mut m = String::from_str("The function \"");
    m.append(d.name.as_str());
    m.append("\" is declared but could not derive a path for \"");
    m.append(d.path.as_str());
    m.append("\"");
    Error { kind: ErrorKind::Other, message: m, span: d.span, origin: Some(marker.clone()) }
}

/// The problem reported for a declared function whose file at `path`
/// cannot be read. It belongs to the marker file, not to the missing one.
pub fn unopened_error(d: &Declaration, path: &String, marker: &String) -> (r: Error)
    ensures
        is_unopened_error(r, *d, path@, *marker),
{
    let mut m = String::from_str("The function \"");
    m.append(d.name.as_str());
    m.append("\" is declared but could not open file \"");
    m.append(path.as_str());
    m.append("\"");
    Error { kind: ErrorKind::Other, message: m, span: d.span, origin: Some(marker.clone()) }
}

/// The directory of a marker file.
pub fn base_dir(marker: &String) -> (r: String)
    ensures
        r@ == base_of(marker@),
{
    match parent_of(marker) {
        Some(d) => d,
        None => String::new(),
    }
}

/// What to do for each file of the project of the marker at `marker`: one
/// task per declaration, in order, then one per optional script that the
/// marker's directory may hold.
pub fn plan(
    marker: &String,
    declarations: &Vec<Declaration>,
    aliases: &Vec<Alias>,
    optional_scripts: &Vec<String>,
) -> (r: Vec<Task>)
    ensures
        r@.len() == declarations@.len() + optional_scripts@.len(),
        forall|i: int|
            0 <= i < declarations@.len() ==> is_task_for(
                #[trigger] r@[i],
                declarations@[i],
                *marker,
                aliases@,
            ),
        forall|j: int|
            0 <= j < optional_scripts@.len() ==> is_optional_task(
                #[trigger] r@[declarations@.len() + j],
                join(base_of(marker@), optional_scripts@[j]@),
            ),
{
    let base = base_dir(marker);
    let mut r: Vec<Task> = Vec::new();
    let mut i: usize = 0;
    while i < declarations.len()
        invariant
            i <= declarations@.len(),
            base@ == base_of(marker@),
            r@.len() == i,
            forall|k: int|
                0 <= k < i ==> is_task_for(#[trigger] r@[k], declarations@[k], *marker, aliases@),
        decreases declarations.len() - i,
    {
        let d = &declarations[i];
        let t = match resolve(&d.path, &base, aliases) {
            Some(path) => Task::Analyze { path, declaration: Some(d.clone()) },
            None => Task::Unresolved(unresolved_error(d, marker)),
        };
        r.push(t);
        i = i + 1;
    }
    let n = declarations.len();
    let mut j: usize = 0;
    while j < optional_scripts.len()
        invariant
            j <= optional_scripts@.len(),
            n == declarations@.len(),
            base@ == base_of(marker@),
            r@.len() == n + j,
            forall|k: int|
                0 <= k < n ==> is_task_for(#[trigger] r@[k], declarations@[k], *marker, aliases@),
            forall|k: int|
                0 <= k < j ==> is_optional_task(
                    #[trigger] r@[n + k],
                    join(base_of(marker@), optional_scripts@[k]@),
                ),
        decreases optional_scripts.len() - j,
    {
        let path = join_path(&base, optional_scripts[j].as_str());
        r.push(Task::Analyze { path, declaration: None });
        j = j + 1;
    }
    r
}


/// What came of a task to analyze a file.
#[derive(Debug)]
pub enum Outcome {
    /// The file could not be read.
    Unreadable,
    /// The file could not be preprocessed: the problems that stopped it.
    Failed(Vec<Error>),
    /// The file was analyzed: the result, the classified tokens and the
    /// problems found.
    Analyzed(AnalysisResult, Vec<SemanticTokenLocation>, Vec<Error>),
}

/// A task and what came of it.
#[derive(Debug)]
pub struct FileOutcome {
    pub task: Task,
    pub outcome: Outcome,
}

/// Whether a task's outcome is reported: all are but an optional script
/// that could not be read.
pub open spec fn reports(o: FileOutcome) -> bool {
    match o.task {
        Task::Analyze { path, declaration } => !(declaration is None && o.outcome is Unreadable),
        Task::Unresolved(_) => true,
    }
}

/// `r` is the report of the outcome `o` of the project of `marker`.
pub open spec fn is_report_for(r: FileReport, o: FileOutcome, marker: String) -> bool {
    match o.task {
        Task::Unresolved(e) => r.path == marker && r.errors@ == seq![e],
        Task::Analyze { path, declaration } => match o.outcome {
            Outcome::Unreadable => match declaration {
                Some(d) => r.path == marker && r.errors@.len() == 1 && is_unopened_error(
                    r.errors@[0],
                    d,
                    path@,
                    marker,
                ),
                None => false,
            },
            Outcome::Failed(errors) => r.path == path && r.errors@ == errors@,
            Outcome::Analyzed(_, _, errors) => r.path == path && r.errors@ == errors@,
        },
    }
}

/// `rs` holds the reports of the reported outcomes of `os`, in order.
pub open spec fn reports_for(rs: Seq<FileReport>, os: Seq<FileOutcome>, marker: String) -> bool
    decreases os.len(),
{
    if os.len() == 0 {
        rs.len() == 0
    } else if reports(os.last()) {
        rs.len() > 0 && is_report_for(rs.last(), os.last(), marker) && reports_for(
            rs.drop_last(),
            os.drop_last(),
            marker,
        )
    } else {
        reports_for(rs, os.drop_last(), marker)
    }
}

/// The entries after the analyzed files of `os` are stored in order, each
/// under the name of the function it declares.
pub open spec fn stored_after(entries: Seq<Entry>, os: Seq<FileOutcome>) -> Seq<Entry>
    decreases os.len(),
{
    if os.len() == 0 {
        entries
    } else {
        let before = stored_after(entries, os.drop_last());
        match os.last().task {
            Task::Analyze { path, declaration } => match os.last().outcome {
                Outcome::Analyzed(analysis, tokens, _) => store_model(
                    before,
                    Entry {
                        path,
                        export: match declaration {
                            Some(d) => Some(d.name),
                            None => None,
                        },
                        analysis,
                        tokens,
                    },
                ),
                _ => before,
            },
            Task::Unresolved(_) => before,
        }
    }
}

/// The entries that the analyzed files of `os` give, in order.
pub open spec fn analyzed_entries(os: Seq<FileOutcome>) -> Seq<Entry>
    decreases os.len(),
{
    if os.len() == 0 {
        Seq::empty()
    } else {
        let before = analyzed_entries(os.drop_last());
        match os.last().task {
            Task::Analyze { path, declaration } => match os.last().outcome {
                Outcome::Analyzed(analysis, tokens, _) => before.push(
                    Entry {
                        path,
                        export: match declaration {
                            Some(d) => Some(d.name),
                            None => None,
                        },
                        analysis,
                        tokens,
                    },
                ),
                _ => before,
            },
            Task::Unresolved(_) => before,
        }
    }
}

proof fn lemma_stored_after_is_store_all(entries: Seq<Entry>, os: Seq<FileOutcome>)
    ensures
        stored_after(entries, os) == store_all(entries, analyzed_entries(os)),
    decreases os.len(),
{
    if os.len() > 0 {
        lemma_stored_after_is_store_all(entries, os.drop_last());
        let a = analyzed_entries(os.drop_last());
        match os.last().task {
            Task::Analyze { path, declaration } => match os.last().outcome {
                Outcome::Analyzed(_, _, _) => {
                    assert(analyzed_entries(os).drop_last() =~= a);
                },
                _ => {},
            },
            Task::Unresolved(_) => {},
        }
    }
}

/// Merging the outcomes of an unchanged project a second time leaves the
/// session's entries, and so every namespace and query, as the first
/// merge left them.
pub proof fn lemma_reload_idempotent(entries: Seq<Entry>, os: Seq<FileOutcome>)
    ensures
        stored_after(stored_after(entries, os), os) == stored_after(entries, os),
{
    lemma_stored_after_is_store_all(entries, os);
    lemma_stored_after_is_store_all(stored_after(entries, os), os);
    lemma_store_all_idempotent(entries, analyzed_entries(os));
}

/// Two problems that read the same: same kind, text, span and file.
pub open spec fn same_error(a: Error, b: Error) -> bool {
    a.kind == b.kind && a.message@ == b.message@ && a.span == b.span && a.origin == b.origin
}

pub open spec fn same_errors(a: Seq<Error>, b: Seq<Error>) -> bool {
    a.len() == b.len() && forall|i: int| 0 <= i < a.len() ==> same_error(#[trigger] a[i], b[i])
}

/// Two merges of the same outcomes report the same problems for the same
/// files, in the same order.
pub proof fn lemma_reports_determined(
    r1: Seq<FileReport>,
    r2: Seq<FileReport>,
    os: Seq<FileOutcome>,
    marker: String,
)
    requires
        reports_for(r1, os, marker),
        reports_for(r2, os, marker),
    ensures
        r1.len() == r2.len(),
        forall|i: int|
            0 <= i < r1.len() ==> (#[trigger] r1[i]).path == r2[i].path && same_errors(
                r1[i].errors@,
                r2[i].errors@,
            ),
    decreases os.len(),
{
    if os.len() > 0 {
        if reports(os.last()) {
            lemma_reports_determined(r1.drop_last(), r2.drop_last(), os.drop_last(), marker);
            let a = r1.last();
            let b = r2.last();
            assert(a.path == b.path && same_errors(a.errors@, b.errors@));
            assert forall|i: int| 0 <= i < r1.len() implies (#[trigger] r1[i]).path == r2[i].path
                && same_errors(r1[i].errors@, r2[i].errors@) by {
                if i < r1.len() - 1 {
                    assert(r1[i] == r1.drop_last()[i] && r2[i] == r2.drop_last()[i]);
                }
            }
        } else {
            lemma_reports_determined(r1, r2, os.drop_last(), marker);
        }
    }
}

/// Merges the outcomes of a project's tasks, in order: stores each
/// analyzed file in the session, and returns the problems reported for
/// each outcome. A declaration whose file cannot be read is reported
/// against the marker file.
pub fn collect(session: &mut Session, marker: &String, outcomes: Vec<FileOutcome>) -> (r: Vec<
    FileReport,
>)
    ensures
        final(session).entries@ == stored_after(old(session).entries@, outcomes@),
        final(session).documents@ == old(session).documents@,
        final(session).loaded == old(session).loaded,
        reports_for(r@, outcomes@, *marker),
{
    let ghost all = outcomes@;
    let total = outcomes.len();
    let ghost start = session.entries@;
    let mut rest = outcomes;
    let mut r: Vec<FileReport> = Vec::new();
    let mut i: usize = 0;
    while rest.len() > 0
        invariant
            i <= all.len(),
            all.len() == total,
            rest@ == all.subrange(i as int, all.len() as int),
            session.entries@ == stored_after(start, all.subrange(0, i as int)),
            session.documents@ == old(session).documents@,
            session.loaded == old(session).loaded,
            reports_for(r@, all.subrange(0, i as int), *marker),
        decreases rest.len(),
    {
        let o = rest.remove(0);
        let ghost og = o;
        assert(og == all[i as int]);
        let ghost next = all.subrange(0, i + 1);
        assert(next.drop_last() =~= all.subrange(0, i as int));
        assert(next.last() == og);
        let ghost r_before = r@;
        let FileOutcome { task, outcome } = o;
        match task {
            Task::Unresolved(e) => {
                let errors = vec![e];
                assert(errors@ =~= seq![e]);
                r.push(FileReport { path: marker.clone(), errors });
                assert(r@.drop_last() =~= r_before);
                assert(is_report_for(r@.last(), og, *marker));
            },
            Task::Analyze { path, declaration } => {
                match outcome {
                    Outcome::Unreadable => {
                        match declaration {
                            Some(d) => {
                                let e = unopened_error(&d, &path, marker);
                                let errors = vec![e];
                                assert(errors@ =~= seq![e]);
                                r.push(FileReport { path: marker.clone(), errors });
                                assert(r@.drop_last() =~= r_before);
                                assert(is_report_for(r@.last(), og, *marker));
                            },
                            None => {},
                        }
                    },
                    Outcome::Failed(errors) => {
                        r.push(FileReport { path, errors });
                        assert(r@.drop_last() =~= r_before);
                    },
                    Outcome::Analyzed(analysis, tokens, errors) => {
                        r.push(FileReport { path: path.clone(), errors });
                        assert(r@.drop_last() =~= r_before);
                        let export = match declaration {
                            Some(d) => Some(d.name),
                            None => None,
                        };
                        session.store(Entry { path, export, analysis, tokens });
                    },
                }
            },
        }
        i = i + 1;
    }
    assert(all.subrange(0, i as int) =~= all);
    r
}

/// `b` binds the declaration `d`, resolved to `path`, to code in that file.
pub open spec fn is_placeholder(b: Binding, d: Declaration, path: Seq<char>) -> bool {
    &&& b.name == d.name
    &&& b.origin matches Origin::External(p, None) && p@ == path
    &&& b.output matches Some(Output::Type(t)) && t@ == seq!['C', 'o', 'd', 'e']
}

/// `bs` binds, in order, each declaration of `ds` whose path resolves.
pub open spec fn placeholders_for(
    bs: Seq<Binding>,
    ds: Seq<Declaration>,
    base: Seq<char>,
    aliases: Seq<Alias>,
) -> bool
    decreases ds.len(),
{
    if ds.len() == 0 {
        bs.len() == 0
    } else {
        match resolved(ds.last().path@, base, aliases) {
            Some(p) => bs.len() > 0 && is_placeholder(bs.last(), ds.last(), p) && placeholders_for(
                bs.drop_last(),
                ds.drop_last(),
                base,
                aliases,
            ),
            None => placeholders_for(bs, ds.drop_last(), base, aliases),
        }
    }
}

/// The namespace that a project's files are first analyzed against: each
/// declared function whose path resolves, bound to code in its file.
pub fn declared_namespace(declarations: &Vec<Declaration>, base: &String, aliases: &Vec<Alias>) -> (r: Vec<Binding>)
    ensures
        placeholders_for(r@, declarations@, base@, aliases@),
{
    let mut r: Vec<Binding> = Vec::new();
    let mut i: usize = 0;
    while i < declarations.len()
        invariant
            i <= declarations@.len(),
            placeholders_for(r@, declarations@.subrange(0, i as int), base@, aliases@),
        decreases declarations.len() - i,
    {
        let ghost next = declarations@.subrange(0, i + 1);
        assert(next.drop_last() =~= declarations@.subrange(0, i as int));
        let d = &declarations[i];
        match resolve(&d.path, base, aliases) {
            Some(path) => {
                let code = String::from_str("Code");
                proof {
                    reveal_strlit("Code");
                    assert(code@ =~= seq!['C', 'o', 'd', 'e']);
                }
                let ghost before = r@;
                r.push(
                    Binding {
                        name: d.name.clone(),
                        origin: Origin::External(path, None),
                        output: Some(Output::Type(code)),
                    },
                );
                assert(r@.drop_last() =~= before);
            },
            None => {},
        }
        i = i + 1;
    }
    assert(declarations@.subrange(0, i as int) =~= declarations@);
    r
}

} // verus!
