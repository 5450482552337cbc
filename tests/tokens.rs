use sqf_analyzer_server::builtins::{Builtins, Operator};
use sqf_analyzer_server::model::{Binding, Origin, Output, Span};
use sqf_analyzer_server::semantic_token::{
    delta_encode, infer_st, semantic, semantic_tokens, Ast, SemanticTokenLocation, Token, TokenPoint, TokenType,
};
use ropey::Rope;

fn builtins() -> Builtins {
    Builtins {
        nullary: vec![],
        unary: vec![Operator { name: "hint".to_string(), forms: vec![] }],
        binary: vec![Operator { name: "call".to_string(), forms: vec![] }],
    }
}

fn mission() -> Vec<Binding> {
    vec![
        Binding { name: "init".to_string(), origin: Origin::External("/i".to_string(), None), output: Some(Output::Code(None, None)) },
        Binding { name: "count".to_string(), origin: Origin::External("/c".to_string(), None), output: Some(Output::Type("Number".to_string())) },
    ]
}

fn token(start: usize, text: &str) -> Token {
    Token { span: Span { start, end: start + text.len() }, text: text.to_string() }
}

fn span(start: usize, end: usize) -> Span {
    Span { start, end }
}

#[test]
fn terms_are_classified() {
    let b = builtins();
    let m = mission();
    assert_eq!(infer_st(&"\"hi\"".to_string(), &b, &m), TokenType::String);
    assert_eq!(infer_st(&"1.5".to_string(), &b, &m), TokenType::Number);
    assert_eq!(infer_st(&"CALL".to_string(), &b, &m), TokenType::Keyword);
    assert_eq!(infer_st(&"Init".to_string(), &b, &m), TokenType::Function);
    assert_eq!(infer_st(&"count".to_string(), &b, &m), TokenType::Variable);
    assert_eq!(infer_st(&"_local".to_string(), &b, &m), TokenType::Variable);
    assert_eq!(infer_st(&"\"".to_string(), &b, &m), TokenType::Variable);
}

#[test]
fn tokens_come_sorted_by_start() {
    // #ifdef A / init / #else / 2 / #endif, then a comment, then #define B(x) hint
    let tree = vec![
        Ast::Ifdef {
            keyword: span(0, 6),
            endif_keyword: span(30, 36),
            else_keyword: Some(span(20, 25)),
            then: vec![Ast::Term(token(10, "init"))],
            else_: vec![Ast::Term(token(26, "2"))],
        },
        Ast::Comment(span(40, 50)),
        Ast::Define { keyword: span(51, 58), name: span(59, 60), arguments: Some(vec![token(61, "hint")]) },
    ];
    let tokens = semantic_tokens(&tree, &builtins(), &mission());
    let starts: Vec<usize> = tokens.iter().map(|t| t.start).collect();
    assert_eq!(starts, vec![0, 10, 20, 26, 30, 40, 51, 59, 61]);
    assert!(starts.windows(2).all(|w| w[0] < w[1]));
    let types: Vec<usize> = tokens.iter().map(|t| t.token_type).collect();
    assert_eq!(types, vec![8, 0, 8, 4, 8, 3, 8, 1, 5]);
    assert_eq!(tokens[0], SemanticTokenLocation { start: 0, length: 6, token_type: 8 });
}

#[test]
fn if_directives_classify_their_condition() {
    let tree = vec![
        Ast::If {
            keyword: span(0, 3),
            expr: vec![Ast::Term(token(4, "count"))],
            endif_keyword: span(20, 26),
            then: vec![Ast::Include(span(10, 18), span(19, 20))],
            else_: vec![],
        },
        Ast::Undefine(span(30, 36), span(37, 38)),
    ];
    let tokens = semantic_tokens(&tree, &builtins(), &mission());
    let v: Vec<(usize, usize)> = tokens.iter().map(|t| (t.start, t.token_type)).collect();
    assert_eq!(v, vec![(0, 8), (4, 1), (10, 8), (19, 2), (20, 8), (30, 8), (37, 1)]);
}

#[test]
fn deltas_sum_back_to_positions() {
    let points = vec![
        TokenPoint { line: 0, column: 2, length: 1, token_type: 0 },
        TokenPoint { line: 0, column: 5, length: 2, token_type: 1 },
        TokenPoint { line: 2, column: 1, length: 3, token_type: 2 },
        TokenPoint { line: 2, column: 4, length: 1, token_type: 3 },
    ];
    let encoded = delta_encode(&points);
    let deltas: Vec<(u32, u32)> = encoded.iter().map(|t| (t.delta_line, t.delta_start)).collect();
    assert_eq!(deltas, vec![(0, 2), (0, 3), (2, 1), (0, 3)]);
    let (mut line, mut column) = (0u32, 0u32);
    for (t, p) in encoded.iter().zip(points.iter()) {
        if t.delta_line == 0 {
            column += t.delta_start;
        } else {
            line += t.delta_line;
            column = t.delta_start;
        }
        assert_eq!((line, column), (p.line, p.column));
    }
}

#[test]
fn semantic_tokens_are_placed_in_the_text() {
    let rope = Rope::from_str("a = 1;\nb = a;");
    let tokens = vec![
        SemanticTokenLocation { start: 0, length: 1, token_type: 1 },
        SemanticTokenLocation { start: 4, length: 1, token_type: 4 },
        SemanticTokenLocation { start: 11, length: 1, token_type: 1 },
        SemanticTokenLocation { start: 99, length: 1, token_type: 1 },
    ];
    let out = semantic(&tokens, &rope);
    let v: Vec<(u32, u32, u32)> = out.iter().map(|t| (t.delta_line, t.delta_start, t.token_type)).collect();
    assert_eq!(v, vec![(0, 0, 1), (0, 4, 4), (1, 4, 1)]);
}
