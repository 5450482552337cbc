use sqf_analyzer_server::builtins::{Builtins, Form, Operator};
use sqf_analyzer_server::completion::{completion, params_to_string, output_to_string, CompletionKind};
use sqf_analyzer_server::model::{
    AnalysisResult, Binding, Note, Origin, OriginAt, Output, Parameter, Signature, Span, TypeHint,
};
use sqf_analyzer_server::query::{get_definition, hover, InlayKind};
use sqf_analyzer_server::session::{Entry, Session};
use ropey::Rope;
use sqf_analyzer_server::text::{offset_to_position, position_to_offset, Position};

fn analysis() -> AnalysisResult {
    AnalysisResult {
        explanations: vec![],
        origins: vec![],
        types: vec![],
        parameters: vec![],
        variables: vec![],
        globals: vec![],
        signature: None,
    }
}

fn binding(name: &str, output: Option<Output>) -> Binding {
    Binding { name: name.to_string(), origin: Origin::InFile(Span { start: 0, end: 1 }), output }
}

fn form(explanation: &str) -> Form {
    Form { left: "Number".to_string(), right: "Number".to_string(), output: "Number".to_string(), explanation: explanation.to_string() }
}

fn builtins() -> Builtins {
    Builtins {
        nullary: vec![Operator { name: "time".to_string(), forms: vec![form("the time")] }],
        unary: vec![Operator { name: "hint".to_string(), forms: vec![form("shows a hint")] }],
        binary: vec![Operator { name: "+".to_string(), forms: vec![form("adds"), form("sums")] }],
    }
}

fn init_entry() -> Entry {
    let mut a = analysis();
    a.signature = Some(Signature { parameters: Some(vec![]), return_type: Some("Number".to_string()) });
    Entry { path: "/m/scripts/init.sqf".to_string(), export: Some("init".to_string()), analysis: a, tokens: vec![] }
}

#[test]
fn the_project_namespace_exposes_declared_functions() {
    let mut s = Session::new();
    s.store(init_entry());
    let ns = s.namespace_for(&"/m/other.sqf".to_string());
    assert_eq!(ns.len(), 1);
    assert_eq!(ns[0].name, "init");
    match &ns[0].origin {
        Origin::External(p, span) => {
            assert_eq!(p, "/m/scripts/init.sqf");
            assert!(span.is_none());
        }
        _ => panic!("expected an external origin"),
    }
    match &ns[0].output {
        Some(Output::Code(Some(params), Some(ret))) => {
            assert!(params.is_empty());
            assert_eq!(ret, "Number");
        }
        _ => panic!("expected code returning a number"),
    }
}

#[test]
fn a_file_never_sees_its_own_exports() {
    let mut s = Session::new();
    s.store(init_entry());
    assert!(s.namespace_for(&"/m/scripts/init.sqf".to_string()).is_empty());
    s.replace("/m/scripts/init.sqf".to_string(), analysis(), vec![]);
    assert!(s.namespace_for(&"/m/scripts/init.sqf".to_string()).is_empty());
    assert_eq!(s.entries.len(), 1);
    assert_eq!(s.entries[0].export, Some("init".to_string()));
}

#[test]
fn storing_twice_is_storing_once() {
    let mut s = Session::new();
    s.store(init_entry());
    s.store(init_entry());
    assert_eq!(s.entries.len(), 1);
    assert_eq!(s.namespace_for(&"/m/x.sqf".to_string()).len(), 1);
}

#[test]
fn later_exports_of_a_name_win() {
    let mut s = Session::new();
    let mut a = analysis();
    a.globals = vec![binding("Shared", Some(Output::Type("Number".to_string())))];
    let mut b = analysis();
    b.globals = vec![binding("shared", Some(Output::Type("String".to_string())))];
    s.store(Entry { path: "/a".to_string(), export: None, analysis: a, tokens: vec![] });
    s.store(Entry { path: "/b".to_string(), export: None, analysis: b, tokens: vec![] });
    let ns = s.namespace_for(&"/c".to_string());
    assert_eq!(ns.len(), 1);
    assert_eq!(ns[0].name, "shared");
}

#[test]
fn the_load_happens_once() {
    let mut s = Session::new();
    assert!(s.begin_load());
    assert!(!s.begin_load());
}

#[test]
fn completion_offers_locals_project_names_and_builtins() {
    let vars = vec![binding("x", None)];
    let ns = vec![binding("doThing", Some(Output::Code(None, None))), binding("X", None)];
    let items = completion(&vars, &ns, &builtins());
    let labels: Vec<&str> = items.iter().map(|i| i.label.as_str()).collect();
    assert_eq!(labels, vec!["x", "doThing", "time", "hint", "+"]);
    assert_eq!(items[0].kind, CompletionKind::Variable);
    assert_eq!(items[1].kind, CompletionKind::Function);
    assert_eq!(items[1].detail.as_deref(), Some("Code"));
    assert_eq!(items[2].kind, CompletionKind::Constant);
    assert_eq!(items[2].documentation.as_deref(), Some("* `Number`: the time"));
    assert_eq!(items[3].documentation.as_deref(), Some("* `hint Number -> Number`: shows a hint"));
    assert_eq!(items[4].detail.as_deref(), Some("adds"));
    assert_eq!(
        items[4].documentation.as_deref(),
        Some("* `Number + Number -> Number`: adds\n* `Number + Number -> Number`: sums")
    );
}

#[test]
fn outputs_are_described() {
    let params = vec![
        Parameter { name: "a".to_string(), type_: "Number".to_string() },
        Parameter { name: "b".to_string(), type_: "String".to_string() },
    ];
    assert_eq!(params_to_string(&params), "[a: Number, b: String]");
    let code = Some(Output::Code(Some(params), Some("Boolean".to_string())));
    assert_eq!(output_to_string(&code).as_deref(), Some("[a: Number, b: String] -> Boolean"));
    assert_eq!(output_to_string(&Some(Output::Type("Array".to_string()))).as_deref(), Some("Array"));
    assert_eq!(output_to_string(&None), None);
}

#[test]
fn hover_picks_the_narrowest_span() {
    let mut a = analysis();
    a.explanations = vec![
        Note { span: Span { start: 0, end: 10 }, text: "outer".to_string() },
        Note { span: Span { start: 2, end: 4 }, text: "inner".to_string() },
    ];
    assert_eq!(hover(&a, 3).as_deref(), Some("inner"));
    assert_eq!(hover(&a, 6).as_deref(), Some("outer"));
    assert_eq!(hover(&a, 10), None);
}

#[test]
fn definition_gives_the_origin_at_the_offset() {
    let mut a = analysis();
    a.origins = vec![OriginAt { span: Span { start: 5, end: 8 }, origin: Origin::External("/b".to_string(), None) }];
    match get_definition(&a, 6) {
        Some(Origin::External(p, None)) => assert_eq!(p, "/b"),
        _ => panic!("expected the external origin"),
    }
    assert!(get_definition(&a, 8).is_none());
}

#[test]
fn positions_follow_lines() {
    let rope = Rope::from_str("ab\ncd");
    assert_eq!(offset_to_position(4, &rope), Some(Position { line: 1, character: 1 }));
    assert_eq!(offset_to_position(0, &rope), Some(Position { line: 0, character: 0 }));
    assert_eq!(offset_to_position(6, &rope), None);
    assert_eq!(position_to_offset(Position { line: 1, character: 1 }, &rope), Some(4));
}

#[test]
fn session_queries_use_the_cached_text() {
    let mut s = Session::new();
    let path = "/m/a.sqf".to_string();
    let ns = s.open_text(&path, "x = 1;\ny = x;");
    assert!(ns.is_empty());
    let mut a = analysis();
    a.explanations = vec![Note { span: Span { start: 11, end: 12 }, text: "a number".to_string() }];
    a.origins = vec![OriginAt { span: Span { start: 11, end: 12 }, origin: Origin::InFile(Span { start: 0, end: 1 }) }];
    a.types = vec![TypeHint { span: Span { start: 0, end: 1 }, type_: Some("Number".to_string()) }];
    a.parameters = vec![Note { span: Span { start: 4, end: 5 }, text: "value".to_string() }];
    s.replace(path.clone(), a, vec![]);
    let at = Position { line: 1, character: 4 };
    assert_eq!(s.hover_at(&path, at).as_deref(), Some("a number"));
    let loc = s.definition_at(&path, at).unwrap();
    assert_eq!(loc.path, path);
    assert_eq!(loc.range.start, Position { line: 0, character: 0 });
    assert_eq!(loc.range.end, Position { line: 0, character: 1 });
    let hints = s.inlay(&path).unwrap();
    assert_eq!(hints.len(), 2);
    assert_eq!(hints[0].label, ": Number");
    assert_eq!(hints[0].kind, InlayKind::Type);
    assert_eq!(hints[0].position, Position { line: 0, character: 1 });
    assert_eq!(hints[1].label, "value: ");
    assert_eq!(hints[1].kind, InlayKind::Parameter);
    assert_eq!(hints[1].position, Position { line: 0, character: 4 });
    assert!(s.hover_at(&"/m/b.sqf".to_string(), at).is_none());
    let items = s.completion_at(&path, &builtins()).unwrap();
    assert_eq!(items.len(), 3);
}

#[test]
fn inlay_hints_come_in_order_of_position() {
    let mut s = Session::new();
    let path = "/m/b.sqf".to_string();
    s.open_text(&path, "a = 1;\nb = 2;");
    let mut a = analysis();
    a.types = vec![
        TypeHint { span: Span { start: 7, end: 8 }, type_: Some("Number".to_string()) },
        TypeHint { span: Span { start: 2, end: 3 }, type_: None },
        TypeHint { span: Span { start: 0, end: 1 }, type_: Some("Number".to_string()) },
    ];
    a.parameters = vec![
        Note { span: Span { start: 11, end: 12 }, text: "y".to_string() },
        Note { span: Span { start: 4, end: 5 }, text: "x".to_string() },
        Note { span: Span { start: 99, end: 100 }, text: "lost".to_string() },
    ];
    s.replace(path.clone(), a, vec![]);
    let hints = s.inlay(&path).unwrap();
    let v: Vec<(u32, u32, &str)> =
        hints.iter().map(|h| (h.position.line, h.position.character, h.label.as_str())).collect();
    assert_eq!(v, vec![(0, 1, ": Number"), (1, 1, ": Number"), (0, 4, "x: "), (1, 4, "y: ")]);
}

#[test]
fn positions_and_offsets_round_trip() {
    let rope = Rope::from_str("ab\ncd\n\nefg");
    for offset in 0..=10 {
        let p = offset_to_position(offset, &rope).unwrap();
        assert_eq!(position_to_offset(p, &rope), Some(offset));
    }
    assert_eq!(position_to_offset(Position { line: 9, character: 0 }, &rope), None);
}

#[test]
fn a_failed_analysis_leaves_no_globals() {
    let mut s = Session::new();
    let mut a = analysis();
    a.globals = vec![binding("g", None)];
    s.store(Entry { path: "/m/a.sqf".to_string(), export: Some("f".to_string()), analysis: a, tokens: vec![] });
    s.record_failure("/m/a.sqf".to_string());
    assert_eq!(s.entries.len(), 1);
    assert!(s.entries[0].analysis.globals.is_empty());
    assert_eq!(s.entries[0].export, Some("f".to_string()));
    let ns = s.namespace_for(&"/m/b.sqf".to_string());
    let names: Vec<&str> = ns.iter().map(|b| b.name.as_str()).collect();
    assert_eq!(names, vec!["f"]);
}
