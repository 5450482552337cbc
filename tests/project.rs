use ropey::Rope;
use sqf_analyzer_server::diagnostics::{render, to_diagnostic};
use sqf_analyzer_server::paths::Alias;
use sqf_analyzer_server::diagnostics::{
    edit_diagnostics, filter_errors, project_diagnostics, severity, FileReport, Settings, Severity,
};
use sqf_analyzer_server::model::{AnalysisResult, Error, ErrorKind, Span};
use sqf_analyzer_server::pipeline::{collect, declared_namespace, plan, Declaration, FileOutcome, Outcome, Task};
use sqf_analyzer_server::session::Session;

fn empty_analysis() -> AnalysisResult {
    AnalysisResult {
        explanations: vec![],
        origins: vec![],
        types: vec![],
        parameters: vec![],
        variables: vec![],
        globals: vec![],
        signature: None,
    }
}

fn error(kind: ErrorKind, start: usize) -> Error {
    Error { kind, message: format!("{:?}", kind), span: Span { start, end: start + 1 }, origin: None }
}

fn all_on() -> Settings {
    Settings {
        undefined_variables_are_error: true,
        private_variables_in_mission_are_error: true,
        error_on_unused: true,
    }
}

#[test]
fn missing_declared_file_is_reported_against_the_marker() {
    let marker = "/m/description.ext".to_string();
    let decl = Declaration { name: "foo".to_string(), path: "bar.ext".to_string(), span: Span { start: 3, end: 9 } };
    let tasks = plan(&marker, &vec![decl], &vec![], &vec![]);
    assert_eq!(tasks.len(), 1);
    let outcomes: Vec<FileOutcome> =
        tasks.into_iter().map(|task| FileOutcome { task, outcome: Outcome::Unreadable }).collect();
    let mut session = Session::new();
    let reports = collect(&mut session, &marker, outcomes);
    assert_eq!(reports.len(), 1);
    assert_eq!(reports[0].path, marker);
    assert_eq!(reports[0].errors.len(), 1);
    let e = &reports[0].errors[0];
    assert_eq!(e.message, "The function \"foo\" is declared but could not open file \"/m/bar.ext\"");
    assert_eq!(e.origin, Some(marker.clone()));
    assert_eq!(e.span, Span { start: 3, end: 9 });
    let groups = project_diagnostics(&Settings::from_options(None, None, None), &reports, &"/m/x.sqf".to_string());
    assert_eq!(groups.len(), 1);
    assert_eq!(groups[0].file, marker);
    assert!(session.entries.is_empty());
}

#[test]
fn unresolvable_declaration_is_reported() {
    let marker = "/m/config.cpp".to_string();
    let decl = Declaration { name: "foo".to_string(), path: "\\nowhere\\a.sqf".to_string(), span: Span { start: 0, end: 2 } };
    let tasks = plan(&marker, &vec![decl], &vec![], &vec!["init.sqf".to_string()]);
    assert_eq!(tasks.len(), 2);
    match &tasks[0] {
        Task::Unresolved(e) => {
            assert_eq!(e.message, "The function \"foo\" is declared but could not derive a path for \"\\nowhere\\a.sqf\"");
            assert_eq!(e.origin, Some(marker.clone()));
        }
        _ => panic!("expected an unresolved declaration"),
    }
    match &tasks[1] {
        Task::Analyze { path, declaration } => {
            assert_eq!(path, "/m/init.sqf");
            assert!(declaration.is_none());
        }
        _ => panic!("expected an optional script"),
    }
}

#[test]
fn unreadable_optional_script_is_skipped() {
    let marker = "/m/config.cpp".to_string();
    let task = Task::Analyze { path: "/m/init.sqf".to_string(), declaration: None };
    let mut session = Session::new();
    let reports = collect(&mut session, &marker, vec![FileOutcome { task, outcome: Outcome::Unreadable }]);
    assert!(reports.is_empty());
}

#[test]
fn analyzed_files_are_stored_under_their_function() {
    let marker = "/m/config.cpp".to_string();
    let decl = Declaration { name: "init".to_string(), path: "init.sqf".to_string(), span: Span { start: 0, end: 4 } };
    let task = Task::Analyze { path: "/m/init.sqf".to_string(), declaration: Some(decl) };
    let mut session = Session::new();
    let reports = collect(
        &mut session,
        &marker,
        vec![FileOutcome { task, outcome: Outcome::Analyzed(empty_analysis(), vec![], vec![error(ErrorKind::Other, 1)]) }],
    );
    assert_eq!(reports.len(), 1);
    assert_eq!(reports[0].path, "/m/init.sqf");
    assert_eq!(session.entries.len(), 1);
    assert_eq!(session.entries[0].export, Some("init".to_string()));
}

#[test]
fn declared_namespace_binds_resolvable_names() {
    let decls = vec![
        Declaration { name: "a".to_string(), path: "a.sqf".to_string(), span: Span { start: 0, end: 1 } },
        Declaration { name: "b".to_string(), path: "\\x\\b.sqf".to_string(), span: Span { start: 0, end: 1 } },
    ];
    let ns = declared_namespace(&decls, &"/m".to_string(), &vec![]);
    assert_eq!(ns.len(), 1);
    assert_eq!(ns[0].name, "a");
}

#[test]
fn undefined_variables_are_filtered_unless_asked_for() {
    let errors = vec![error(ErrorKind::UndefinedVariable, 1), error(ErrorKind::Other, 2), error(ErrorKind::UndefinedVariable, 5)];
    let off = Settings::from_options(None, None, None);
    let kept = filter_errors(&off, &errors);
    assert_eq!(kept.len(), 1);
    assert!(kept.iter().all(|e| e.kind != ErrorKind::UndefinedVariable));
    let on = Settings::from_options(Some(true), None, None);
    let kept = filter_errors(&on, &errors);
    assert_eq!(kept.iter().filter(|e| e.kind == ErrorKind::UndefinedVariable).count(), 2);
}

#[test]
fn settings_default_to_off() {
    let s = Settings::from_options(None, Some(true), Some(false));
    assert!(!s.undefined_variables_are_error);
    assert!(s.private_variables_in_mission_are_error);
    assert!(!s.error_on_unused);
}

#[test]
fn severities_follow_the_kind() {
    assert_eq!(severity(ErrorKind::UndefinedVariable), Severity::Warning);
    assert_eq!(severity(ErrorKind::UnusedVariable), Severity::Information);
    assert_eq!(severity(ErrorKind::PrivateAssignedToMission), Severity::Information);
    assert_eq!(severity(ErrorKind::Other), Severity::Error);
}

#[test]
fn an_edit_without_problems_clears_the_file() {
    let groups = edit_diagnostics(&all_on(), &vec![], &"/m/a.sqf".to_string());
    assert_eq!(groups.len(), 1);
    assert_eq!(groups[0].file, "/m/a.sqf");
    assert!(groups[0].errors.is_empty());
}

#[test]
fn problems_are_grouped_by_the_file_they_name() {
    let mut other = error(ErrorKind::Other, 7);
    other.origin = Some("/m/b.sqf".to_string());
    let errors = vec![error(ErrorKind::Other, 1), other, error(ErrorKind::Other, 3)];
    let groups = edit_diagnostics(&all_on(), &errors, &"/m/a.sqf".to_string());
    assert_eq!(groups.len(), 2);
    assert_eq!(groups[0].file, "/m/a.sqf");
    assert_eq!(groups[0].errors.len(), 2);
    assert_eq!(groups[1].file, "/m/b.sqf");
    assert_eq!(groups[1].errors[0].span.start, 7);
}

#[test]
fn a_syntax_error_in_one_file_leaves_the_others_alone() {
    let b_errors = vec![error(ErrorKind::Other, 4)];
    let before = vec![
        FileReport { path: "/m/a.sqf".to_string(), errors: vec![] },
        FileReport { path: "/m/b.sqf".to_string(), errors: b_errors.clone() },
    ];
    let after = vec![
        FileReport { path: "/m/a.sqf".to_string(), errors: vec![error(ErrorKind::Other, 0)] },
        FileReport { path: "/m/b.sqf".to_string(), errors: b_errors },
    ];
    let g1 = project_diagnostics(&all_on(), &before, &"/m/c.sqf".to_string());
    let g2 = project_diagnostics(&all_on(), &after, &"/m/c.sqf".to_string());
    let b1: Vec<_> = g1.iter().filter(|g| g.file == "/m/b.sqf").map(|g| g.errors.len()).collect();
    let b2: Vec<_> = g2.iter().filter(|g| g.file == "/m/b.sqf").map(|g| g.errors.len()).collect();
    assert_eq!(b1, vec![1]);
    assert_eq!(b1, b2);
    assert_eq!(g2.len(), 2);
}

#[test]
fn the_file_being_opened_is_left_out_of_project_diagnostics() {
    let reports = vec![FileReport { path: "/m/a.sqf".to_string(), errors: vec![error(ErrorKind::Other, 0)] }];
    let groups = project_diagnostics(&all_on(), &reports, &"/m/a.sqf".to_string());
    assert!(groups.is_empty());
}

#[test]
fn every_problem_in_the_text_is_rendered() {
    let rope = Rope::from_str("a = b;\nc = d;");
    let errors = vec![
        error(ErrorKind::UndefinedVariable, 4),
        error(ErrorKind::Other, 40),
        error(ErrorKind::UnusedVariable, 7),
    ];
    let ds = render(&errors, &rope);
    assert_eq!(ds.len(), 2);
    assert_eq!(ds[0].severity, Severity::Warning);
    assert_eq!((ds[0].range.start.line, ds[0].range.start.character), (0, 4));
    assert_eq!((ds[1].range.start.line, ds[1].range.start.character), (1, 0));
    assert_eq!(ds[1].message, "UnusedVariable");
    assert!(to_diagnostic(&errors[1], &rope).is_none());
}

#[test]
fn alias_paths_use_slashes() {
    let a = Alias::new("cba".to_string(), &"C:\\mods\\cba".to_string());
    assert_eq!(a.path, "C:/mods/cba");
    assert_eq!(a.name, "cba");
}
