//! Which problems are reported, how severe they are, and to which file
//! each one belongs.
use vstd::prelude::*;
use ropey::Rope;
use crate::model::{Error, ErrorKind};
use crate::text::{Range, span_to_range, position_of_offset, rope_text};

verus! {

/// The switches that decide which kinds of problem are reported.
#[derive(Debug, Clone, Copy, PartialEq, Eq, Structural)]
pub struct Settings {
    pub undefined_variables_are_error: bool,
    pub private_variables_in_mission_are_error: bool,
    pub error_on_unused: bool,
}

impl Settings {
    /// The settings given, each one off where it was not given.
    pub fn from_options(
        undefined: Option<bool>,
        private_in_mission: Option<bool>,
        unused: Option<bool>,
    ) -> (r: Settings)
        ensures
            r.undefined_variables_are_error == (undefined == Some(true)),
            r.private_variables_in_mission_are_error == (private_in_mission == Some(true)),
            r.error_on_unused == (unused == Some(true)),
    {
        Settings {
            undefined_variables_are_error: unwrap_or_off(undefined),
            private_variables_in_mission_are_error: unwrap_or_off(private_in_mission),
            error_on_unused: unwrap_or_off(unused),
        }
    }

    /// Whether a problem of this kind is reported.
    pub open spec fn keeps(self, kind: ErrorKind) -> bool {
        match kind {
            ErrorKind::UndefinedVariable => self.undefined_variables_are_error,
            ErrorKind::PrivateAssignedToMission => self.private_variables_in_mission_are_error,
            ErrorKind::UnusedVariable => self.error_on_unused,
            ErrorKind::Other => true,
        }
    }

    /// Whether a problem of this kind is reported.
    pub fn keep(&self, kind: ErrorKind) -> (r: bool)
        ensures
            r == self.keeps(kind),
    {
        match kind {
            ErrorKind::UndefinedVariable => self.undefined_variables_are_error,
            ErrorKind::PrivateAssignedToMission => self.private_variables_in_mission_are_error,
            ErrorKind::UnusedVariable => self.error_on_unused,
            ErrorKind::Other => true,
        }
    }
}

fn unwrap_or_off(o: Option<bool>) -> (r: bool)
    ensures
        r == (o == Some(true)),
{
    match o {
        Some(b) => b,
        None => false,
    }
}

/// How an editor shows a problem.
#[derive(Debug, Clone, Copy, PartialEq, Eq, Structural)]
pub enum Severity {
    Error,
    Warning,
    Information,
}

pub open spec fn severity_of(kind: ErrorKind) -> Severity {
    match kind {
        ErrorKind::PrivateAssignedToMission => Severity::Information,
        ErrorKind::UndefinedVariable => Severity::Warning,
        ErrorKind::UnusedVariable => Severity::Information,
        ErrorKind::Other => Severity::Error,
    }
}

/// How an editor shows a problem of this kind.
pub fn severity(kind: ErrorKind) -> (r: Severity)
    ensures
        r == severity_of(kind),
{
    match kind {
        ErrorKind::PrivateAssignedToMission => Severity::Information,
        ErrorKind::UndefinedVariable => Severity::Warning,
        ErrorKind::UnusedVariable => Severity::Information,
        ErrorKind::Other => Severity::Error,
    }
}

/// A problem as an editor shows it.
#[derive(Debug)]
pub struct Diagnostic {
    pub range: Range,
    pub severity: Severity,
    pub message: String,
}

/// A problem as an editor shows it, placed in `text`; none when the text
/// does not hold both ends of its span.
pub open spec fn diagnostic_of(e: Error, text: Seq<char>) -> Option<(Range, Severity, Seq<char>)> {
    match (position_of_offset(text, e.span.start as int), position_of_offset(text, e.span.end as int)) {
        (Some(a), Some(b)) => Some((Range { start: a, end: b }, severity_of(e.kind), e.message@)),
        _ => None,
    }
}

pub open spec fn diagnostic_model(d: Diagnostic) -> (Range, Severity, Seq<char>) {
    (d.range, d.severity, d.message@)
}

/// A problem as an editor shows it, placed in the text it belongs to;
/// none where the text does not hold both ends of the problem's span.
pub fn to_diagnostic(error: &Error, rope: &Rope) -> (r: Option<Diagnostic>)
    ensures
        match r {
            Some(d) => diagnostic_of(*error, rope_text(*rope)) == Some(diagnostic_model(d)),
            None => diagnostic_of(*error, rope_text(*rope)) is None,
        },
{
    match span_to_range(error.span.start, error.span.end, rope) {
        Some(range) => Some(
            Diagnostic { range, severity: severity(error.kind), message: error.message.clone() },
        ),
        None => None,
    }
}

/// The problems that the settings report, in their order.
pub open spec fn kept(s: Settings, errors: Seq<Error>) -> Seq<Error>
    decreases errors.len(),
{
    if errors.len() == 0 {
        Seq::empty()
    } else {
        let before = kept(s, errors.drop_last());
        if s.keeps(errors.last().kind) {
            before.push(errors.last())
        } else {
            before
        }
    }
}

/// The problems that the settings report, in their order.
pub fn filter_errors(settings: &Settings, errors: &Vec<Error>) -> (r: Vec<Error>)
    ensures
        r@ == kept(*settings, errors@),
{
    let mut r: Vec<Error> = Vec::new();
    let mut i: usize = 0;
    while i < errors.len()
        invariant
            i <= errors@.len(),
            r@ == kept(*settings, errors@.subrange(0, i as int)),
        decreases errors.len() - i,
    {
        assert(errors@.subrange(0, i + 1).drop_last() =~= errors@.subrange(0, i as int));
        if settings.keep(errors[i].kind) {
            r.push(errors[i].clone());
        }
        i = i + 1;
    }
    assert(errors@.subrange(0, i as int) =~= errors@);
    r
}

/// What the settings let through has the kinds that they report; with
/// undefined variables reported, every use of one is kept, and with them
/// not reported, none is.
pub proof fn lemma_kept_kinds(s: Settings, errors: Seq<Error>)
    ensures
        forall|i: int| 0 <= i < kept(s, errors).len() ==> s.keeps(#[trigger] kept(s, errors)[i].kind),
        !s.undefined_variables_are_error ==> forall|i: int|
            0 <= i < kept(s, errors).len() ==> (#[trigger] kept(s, errors)[i]).kind
                != ErrorKind::UndefinedVariable,
        s.undefined_variables_are_error ==> count_undefined(kept(s, errors)) == count_undefined(
            errors,
        ),
    decreases errors.len(),
{
    if errors.len() > 0 {
        lemma_kept_kinds(s, errors.drop_last());
        let before = kept(s, errors.drop_last());
        if s.keeps(errors.last().kind) {
            assert(before.push(errors.last()).drop_last() =~= before);
            assert forall|i: int| 0 <= i < kept(s, errors).len() implies s.keeps(
                #[trigger] kept(s, errors)[i].kind,
            ) by {
                if i < before.len() {
                    assert(kept(s, errors)[i] == before[i]);
                }
            }
        }
    }
}

/// The number of uses of undefined variables among the problems.
pub open spec fn count_undefined(errors: Seq<Error>) -> int
    decreases errors.len(),
{
    if errors.len() == 0 {
        0
    } else {
        count_undefined(errors.drop_last()) + if errors.last().kind
            == ErrorKind::UndefinedVariable {
            1int
        } else {
            0int
        }
    }
}


/// The problems that the analysis of one file produced.
#[derive(Debug)]
pub struct FileReport {
    pub path: String,
    pub errors: Vec<Error>,
}

/// A problem and the file it belongs to.
#[derive(Debug)]
pub struct Attributed {
    pub file: String,
    pub error: Error,
}

/// The problems reported for one file.
#[derive(Debug)]
pub struct FileDiagnostics {
    pub file: String,
    pub errors: Vec<Error>,
}

/// The file a problem belongs to: the one it names, else the one that
/// produced it.
pub open spec fn target(e: Error, path: String) -> String {
    match e.origin {
        Some(o) => o,
        None => path,
    }
}

/// The reported problems of the file at `path`, each with its file.
pub open spec fn attributed(s: Settings, errors: Seq<Error>, path: String) -> Seq<Attributed>
    decreases errors.len(),
{
    if errors.len() == 0 {
        Seq::empty()
    } else {
        let before = attributed(s, errors.drop_last(), path);
        if s.keeps(errors.last().kind) {
            before.push(Attributed { file: target(errors.last(), path), error: errors.last() })
        } else {
            before
        }
    }
}

/// The reported problems of every file but `exclude`, each with its file.
pub open spec fn reports_attributed(
    s: Settings,
    reports: Seq<FileReport>,
    exclude: Seq<char>,
) -> Seq<Attributed>
    decreases reports.len(),
{
    if reports.len() == 0 {
        Seq::empty()
    } else {
        let before = reports_attributed(s, reports.drop_last(), exclude);
        if reports.last().path@ == exclude {
            before
        } else {
            before + attributed(s, reports.last().errors@, reports.last().path)
        }
    }
}

/// The problems that belong to the file `f`, in their order.
pub open spec fn errors_for(items: Seq<Attributed>, f: Seq<char>) -> Seq<Error>
    decreases items.len(),
{
    if items.len() == 0 {
        Seq::empty()
    } else {
        let before = errors_for(items.drop_last(), f);
        if items.last().file@ == f {
            before.push(items.last().error)
        } else {
            before
        }
    }
}

/// `groups` holds, once for each file that has any, the problems of
/// `items` that belong to that file.
pub open spec fn grouped(groups: Seq<FileDiagnostics>, items: Seq<Attributed>) -> bool {
    &&& forall|i: int, j: int|
        0 <= i < j < groups.len() ==> (#[trigger] groups[i]).file@ != (#[trigger] groups[j]).file@
    &&& forall|i: int|
        0 <= i < groups.len() ==> (#[trigger] groups[i]).errors@ == errors_for(items, groups[i].file@)
            && groups[i].errors@.len() > 0
    &&& forall|k: int|
        0 <= k < items.len() ==> exists|i: int|
            0 <= i < groups.len() && (#[trigger] groups[i]).file@ == (#[trigger] items[k]).file@
}

/// The reported problems of one file, each with the file it belongs to.
pub fn attribute(settings: &Settings, errors: &Vec<Error>, path: &String) -> (r: Vec<Attributed>)
    ensures
        r@ == attributed(*settings, errors@, *path),
{
    let mut r: Vec<Attributed> = Vec::new();
    let mut i: usize = 0;
    while i < errors.len()
        invariant
            i <= errors@.len(),
            r@ == attributed(*settings, errors@.subrange(0, i as int), *path),
        decreases errors.len() - i,
    {
        assert(errors@.subrange(0, i + 1).drop_last() =~= errors@.subrange(0, i as int));
        if settings.keep(errors[i].kind) {
            let error = errors[i].clone();
            let file = match &error.origin {
                Some(o) => o.clone(),
                None => path.clone(),
            };
            r.push(Attributed { file, error });
        }
        i = i + 1;
    }
    assert(errors@.subrange(0, i as int) =~= errors@);
    r
}

/// The reported problems of every file but `exclude`, each with the file
/// it belongs to.
pub fn attribute_reports(
    settings: &Settings,
    reports: &Vec<FileReport>,
    exclude: &String,
) -> (r: Vec<Attributed>)
    ensures
        r@ == reports_attributed(*settings, reports@, exclude@),
{
    let mut r: Vec<Attributed> = Vec::new();
    let mut i: usize = 0;
    while i < reports.len()
        invariant
            i <= reports@.len(),
            r@ == reports_attributed(*settings, reports@.subrange(0, i as int), exclude@),
        decreases reports.len() - i,
    {
        assert(reports@.subrange(0, i + 1).drop_last() =~= reports@.subrange(0, i as int));
        if reports[i].path != *exclude {
            let mut more = attribute(settings, &reports[i].errors, &reports[i].path);
            let ghost before = r@;
            let ghost added = more@;
            r.append(&mut more);
            assert(r@ =~= before + added);
        }
        i = i + 1;
    }
    assert(reports@.subrange(0, i as int) =~= reports@);
    r
}

/// The problems grouped by the file they belong to, each group in the
/// problems' order, the groups in the order their files first appear.
pub fn group_by_file(items: &Vec<Attributed>) -> (r: Vec<FileDiagnostics>)
    ensures
        grouped(r@, items@),
{
    let mut groups: Vec<FileDiagnostics> = Vec::new();
    let mut i: usize = 0;
    while i < items.len()
        invariant
            i <= items@.len(),
            grouped(groups@, items@.subrange(0, i as int)),
        decreases items.len() - i,
    {
        let ghost prefix = items@.subrange(0, i as int);
        let ghost next = items@.subrange(0, i + 1);
        assert(next.drop_last() =~= prefix);
        let ghost before = groups@;
        let item = &items[i];
        let mut j: usize = 0;
        while j < groups.len() && groups[j].file != item.file
            invariant
                j <= groups@.len(),
                forall|k: int| 0 <= k < j ==> (#[trigger] groups@[k]).file@ != item.file@,
            decreases groups.len() - j,
        {
            j = j + 1;
        }
        if j < groups.len() {
            let mut g = groups.remove(j);
            g.errors.push(item.error.clone());
            groups.insert(j, g);
            proof {
                assert forall|a: int| 0 <= a < groups@.len() implies (#[trigger] groups@[a]).file@
                    == before[a].file@ && (a != j ==> groups@[a] == before[a]) by {}
                assert forall|k: int| 0 <= k < next.len() implies exists|a: int|
                    0 <= a < groups@.len() && (#[trigger] groups@[a]).file@ == (
                    #[trigger] next[k]).file@ by {
                    if k < prefix.len() {
                        assert(next[k] == prefix[k]);
                        let a = choose|a: int|
                            0 <= a < before.len() && (#[trigger] before[a]).file@ == (
                            #[trigger] prefix[k]).file@;
                        assert(groups@[a].file@ == before[a].file@);
                    } else {
                        assert(groups@[j as int].file@ == next[k].file@);
                    }
                }
            }
        } else {
            let g = FileDiagnostics { file: item.file.clone(), errors: vec![item.error.clone()] };
            groups.push(g);
            proof {
                assert forall|a: int| 0 <= a < before.len() implies groups@[a] == before[a] by {}
                assert forall|a: int| 0 <= a < before.len() implies before[a].file@ != item.file@ by {
                    assert((#[trigger] groups@[a]).file@ != item.file@);
                }
                assert forall|a: int| 0 <= a < before.len() implies errors_for(prefix, before[a].file@)
                    == #[trigger] errors_for(next, before[a].file@) by {}
                assert(errors_for(prefix, item.file@).len() == 0) by {
                    lemma_errors_for_absent(prefix, item.file@);
                }
                assert(groups@[before.len() as int].errors@ =~= errors_for(next, item.file@));
                assert forall|k: int| 0 <= k < next.len() implies exists|a: int|
                    0 <= a < groups@.len() && (#[trigger] groups@[a]).file@ == (
                    #[trigger] next[k]).file@ by {
                    if k < prefix.len() {
                        assert(next[k] == prefix[k]);
                        let a = choose|a: int|
                            0 <= a < before.len() && (#[trigger] before[a]).file@ == (
                            #[trigger] prefix[k]).file@;
                        assert(groups@[a].file@ == before[a].file@);
                    } else {
                        assert(groups@[before.len() as int].file@ == next[k].file@);
                    }
                }
            }
        }
        i = i + 1;
    }
    assert(items@.subrange(0, i as int) =~= items@);
    groups
}

/// Some group of `gs` holds the file `f` with the problems `errors`.
pub open spec fn has_group(gs: Seq<FileDiagnostics>, f: Seq<char>, errors: Seq<Error>) -> bool {
    exists|j: int| 0 <= j < gs.len() && (#[trigger] gs[j]).file@ == f && gs[j].errors@ == errors
}

/// Two groupings of the same problems hold the same files, each with the
/// same problems in the same order: the grouping is determined by them.
pub proof fn lemma_grouping_determined(g1: Seq<FileDiagnostics>, g2: Seq<FileDiagnostics>, items: Seq<Attributed>)
    requires
        grouped(g1, items),
        grouped(g2, items),
    ensures
        g1.len() == g2.len(),
        forall|i: int| 0 <= i < g1.len() ==> has_group(g2, (#[trigger] g1[i]).file@, g1[i].errors@),
{
    assert forall|i: int| 0 <= i < g1.len() implies has_group(g2, (#[trigger] g1[i]).file@, g1[i].errors@) by {
        lemma_group_present(g1, g2, items, i);
    }
    lemma_same_count(g1, g2, items);
}

/// A file with a group in one grouping has one in the other.
proof fn lemma_group_present(g1: Seq<FileDiagnostics>, g2: Seq<FileDiagnostics>, items: Seq<Attributed>, i: int)
    requires
        grouped(g1, items),
        grouped(g2, items),
        0 <= i < g1.len(),
    ensures
        has_group(g2, g1[i].file@, g1[i].errors@),
{
    let f = g1[i].file@;
    if forall|j: int| 0 <= j < g2.len() ==> (#[trigger] g2[j]).file@ != f {
        assert forall|k: int| 0 <= k < items.len() implies (#[trigger] items[k]).file@ != f by {
            let j = choose|j: int| 0 <= j < g2.len() && (#[trigger] g2[j]).file@ == (#[trigger] items[k]).file@;
        }
        lemma_errors_for_absent(items, f);
    }
    let j = choose|j: int| 0 <= j < g2.len() && (#[trigger] g2[j]).file@ == f;
    assert(g1[i].file@ == g2[j].file@);
}

/// Two groupings of the same problems have as many groups.
proof fn lemma_same_count(g1: Seq<FileDiagnostics>, g2: Seq<FileDiagnostics>, items: Seq<Attributed>)
    requires
        grouped(g1, items),
        grouped(g2, items),
    ensures
        g1.len() == g2.len(),
{
    let f1 = g1.map_values(|g: FileDiagnostics| g.file@);
    let f2 = g2.map_values(|g: FileDiagnostics| g.file@);
    assert forall|a: int, b: int| 0 <= a < b < f1.len() implies f1[a] != f1[b] by {
        assert(g1[a].file@ != g1[b].file@);
    }
    assert forall|a: int, b: int| 0 <= a < b < f2.len() implies f2[a] != f2[b] by {
        assert(g2[a].file@ != g2[b].file@);
    }
    assert forall|x: Seq<char>| f1.to_set().contains(x) <==> f2.to_set().contains(x) by {
        if f1.to_set().contains(x) {
            let i = choose|i: int| 0 <= i < f1.len() && f1[i] == x;
            lemma_group_present(g1, g2, items, i);
            let j = choose|j: int| 0 <= j < g2.len() && (#[trigger] g2[j]).file@ == g1[i].file@ && g2[j].errors@ == g1[i].errors@;
            assert(f2[j] == x);
        }
        if f2.to_set().contains(x) {
            let j = choose|j: int| 0 <= j < f2.len() && f2[j] == x;
            lemma_group_present(g2, g1, items, j);
            let i = choose|i: int| 0 <= i < g1.len() && (#[trigger] g1[i]).file@ == g2[j].file@ && g1[i].errors@ == g2[j].errors@;
            assert(f1[i] == x);
        }
    }
    assert(f1.to_set() =~= f2.to_set());
    f1.unique_seq_to_set();
    f2.unique_seq_to_set();
}

/// A file that no item belongs to has no problems.
proof fn lemma_errors_for_absent(items: Seq<Attributed>, f: Seq<char>)
    requires
        forall|k: int| 0 <= k < items.len() ==> (#[trigger] items[k]).file@ != f,
    ensures
        errors_for(items, f).len() == 0,
    decreases items.len(),
{
    if items.len() > 0 {
        assert forall|k: int| 0 <= k < items.len() - 1 implies (#[trigger] items.drop_last()[k]).file@ != f by {
            assert(items.drop_last()[k] == items[k]);
        }
        lemma_errors_for_absent(items.drop_last(), f);
        assert(items.last() == items[items.len() - 1]);
    }
}


proof fn lemma_errors_for_concat(x: Seq<Attributed>, y: Seq<Attributed>, f: Seq<char>)
    ensures
        errors_for(x + y, f) == errors_for(x, f) + errors_for(y, f),
    decreases y.len(),
{
    if y.len() == 0 {
        assert(x + y =~= x);
        assert(errors_for(x, f) + errors_for(y, f) =~= errors_for(x, f));
    } else {
        lemma_errors_for_concat(x, y.drop_last(), f);
        assert((x + y).drop_last() =~= x + y.drop_last());
        assert((x + y).last() == y.last());
        if y.last().file@ == f {
            assert(errors_for(x, f) + errors_for(y.drop_last(), f).push(y.last().error) =~= (
            errors_for(x, f) + errors_for(y.drop_last(), f)).push(y.last().error));
        }
    }
}

/// Problems that name no other file belong only to the file that produced them.
proof fn lemma_own_errors_stay(s: Settings, errors: Seq<Error>, path: String, f: Seq<char>)
    requires
        forall|i: int| 0 <= i < errors.len() ==> (#[trigger] errors[i]).origin is None,
        f != path@,
    ensures
        errors_for(attributed(s, errors, path), f) == Seq::<Error>::empty(),
    decreases errors.len(),
{
    if errors.len() > 0 {
        assert forall|i: int| 0 <= i < errors.len() - 1 implies (#[trigger] errors.drop_last()[i]).origin is None by {
            assert(errors.drop_last()[i] == errors[i]);
        }
        lemma_own_errors_stay(s, errors.drop_last(), path, f);
        assert(errors.last() == errors[errors.len() - 1]);
        let before = attributed(s, errors.drop_last(), path);
        if s.keeps(errors.last().kind) {
            let x = Attributed { file: target(errors.last(), path), error: errors.last() };
            assert(x.file == path);
            assert(before.push(x).drop_last() =~= before);
            assert(errors_for(before.push(x), f) == errors_for(before, f));
        }
    } else {
        assert(errors_for(attributed(s, errors, path), f) =~= Seq::<Error>::empty());
    }
}

/// A change to the problems of one file, none of which names another
/// file, leaves the problems reported for every other file as they were.
pub proof fn lemma_isolation(
    s: Settings,
    a: Seq<FileReport>,
    b: Seq<FileReport>,
    k: int,
    exclude: Seq<char>,
    f: Seq<char>,
)
    requires
        a.len() == b.len(),
        0 <= k < a.len(),
        forall|i: int| 0 <= i < a.len() && i != k ==> #[trigger] a[i] == b[i],
        a[k].path == b[k].path,
        forall|i: int| 0 <= i < a[k].errors@.len() ==> (#[trigger] a[k].errors@[i]).origin is None,
        forall|i: int| 0 <= i < b[k].errors@.len() ==> (#[trigger] b[k].errors@[i]).origin is None,
        f != a[k].path@,
    ensures
        errors_for(reports_attributed(s, a, exclude), f) == errors_for(
            reports_attributed(s, b, exclude),
            f,
        ),
    decreases a.len(),
{
    let n = a.len() - 1;
    let pa = reports_attributed(s, a.drop_last(), exclude);
    let pb = reports_attributed(s, b.drop_last(), exclude);
    if k == n {
        assert(a.drop_last() =~= b.drop_last());
        if a.last().path@ != exclude {
            lemma_errors_for_concat(pa, attributed(s, a.last().errors@, a.last().path), f);
            lemma_errors_for_concat(pb, attributed(s, b.last().errors@, b.last().path), f);
            lemma_own_errors_stay(s, a.last().errors@, a.last().path, f);
            lemma_own_errors_stay(s, b.last().errors@, b.last().path, f);
            assert(errors_for(pa, f) + Seq::<Error>::empty() =~= errors_for(pa, f));
        }
    } else {
        assert forall|i: int| 0 <= i < n && i != k implies #[trigger] a.drop_last()[i] == b.drop_last()[i] by {
            assert(a.drop_last()[i] == a[i] && b.drop_last()[i] == b[i]);
        }
        assert(a.drop_last()[k] == a[k] && b.drop_last()[k] == b[k]);
        lemma_isolation(s, a.drop_last(), b.drop_last(), k, exclude, f);
        assert(a.last() == a[n] && b.last() == b[n]);
        if a.last().path@ != exclude {
            lemma_errors_for_concat(pa, attributed(s, a.last().errors@, a.last().path), f);
            lemma_errors_for_concat(pb, attributed(s, b.last().errors@, b.last().path), f);
        }
    }
}


/// The diagnostics of the problems whose spans `text` holds, in order.
pub open spec fn rendered(errors: Seq<Error>, text: Seq<char>) -> Seq<(Range, Severity, Seq<char>)>
    decreases errors.len(),
{
    if errors.len() == 0 {
        Seq::empty()
    } else {
        let before = rendered(errors.drop_last(), text);
        match diagnostic_of(errors.last(), text) {
            Some(d) => before.push(d),
            None => before,
        }
    }
}

/// The diagnostics of a file's problems, in their order; a problem whose
/// span the text does not hold is left out.
pub fn render(errors: &Vec<Error>, rope: &Rope) -> (r: Vec<Diagnostic>)
    ensures
        r@.map_values(|d: Diagnostic| diagnostic_model(d)) == rendered(errors@, rope_text(*rope)),
{
    let ghost text = rope_text(*rope);
    let mut r: Vec<Diagnostic> = Vec::new();
    let mut i: usize = 0;
    while i < errors.len()
        invariant
            i <= errors@.len(),
            text == rope_text(*rope),
            r@.map_values(|d: Diagnostic| diagnostic_model(d)) == rendered(errors@.subrange(0, i as int), text),
        decreases errors.len() - i,
    {
        assert(errors@.subrange(0, i + 1).drop_last() =~= errors@.subrange(0, i as int));
        let ghost before = r@;
        match to_diagnostic(&errors[i], rope) {
            Some(d) => {
                let ghost dm = diagnostic_model(d);
                r.push(d);
                assert(r@.map_values(|d: Diagnostic| diagnostic_model(d)) =~= before.map_values(
                    |d: Diagnostic| diagnostic_model(d),
                ).push(dm));
            },
            None => {},
        }
        i = i + 1;
    }
    assert(errors@.subrange(0, i as int) =~= errors@);
    r
}

/// When the text holds every span, each problem gives one diagnostic.
pub proof fn lemma_render_keeps_all(errors: Seq<Error>, text: Seq<char>)
    requires
        forall|i: int|
            0 <= i < errors.len() ==> (#[trigger] errors[i]).span.start <= text.len() && errors[i].span.end
                <= text.len(),
    ensures
        rendered(errors, text).len() == errors.len(),
        forall|i: int| 0 <= i < errors.len() ==> Some(#[trigger] rendered(errors, text)[i]) == diagnostic_of(errors[i], text),
    decreases errors.len(),
{
    if errors.len() > 0 {
        let p = errors.drop_last();
        assert forall|i: int| 0 <= i < p.len() implies (#[trigger] p[i]).span.start <= text.len() && p[i].span.end
            <= text.len() by {
            assert(p[i] == errors[i]);
        }
        lemma_render_keeps_all(p, text);
        assert(errors.last() == errors[errors.len() - 1]);
        assert forall|i: int| 0 <= i < errors.len() implies Some(#[trigger] rendered(errors, text)[i])
            == diagnostic_of(errors[i], text) by {
            if i < p.len() {
                assert(p[i] == errors[i]);
            }
        }
    }
}

/// The problems to publish after an edit of the file at `path`: the
/// reported ones, grouped by the file they belong to; when there are
/// none, an empty group for `path`, which clears what the editor shows.
pub fn edit_diagnostics(settings: &Settings, errors: &Vec<Error>, path: &String) -> (r: Vec<
    FileDiagnostics,
>)
    ensures
        attributed(*settings, errors@, *path).len() > 0 ==> grouped(
            r@,
            attributed(*settings, errors@, *path),
        ),
        attributed(*settings, errors@, *path).len() == 0 ==> r@.len() == 1 && r@[0].file == *path
            && r@[0].errors@.len() == 0,
{
    let items = attribute(settings, errors, path);
    if items.len() == 0 {
        return vec![FileDiagnostics { file: path.clone(), errors: Vec::new() }];
    }
    group_by_file(&items)
}

/// The problems to publish after the analysis of a project, while the
/// file at `exclude` is being opened: the reported problems of every
/// other file, grouped by the file they belong to.
pub fn project_diagnostics(settings: &Settings, reports: &Vec<FileReport>, exclude: &String) -> (r: Vec<
    FileDiagnostics,
>)
    ensures
        grouped(r@, reports_attributed(*settings, reports@, exclude@)),
{
    let items = attribute_reports(settings, reports, exclude);
    group_by_file(&items)
}

} // verus!
