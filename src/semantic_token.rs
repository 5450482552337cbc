//! Classification of the preprocessed tokens of a file for highlighting,
//! and their encoding relative to one another.
use vstd::prelude::*;
use vstd::seq_lib::{to_multiset_insert, to_multiset_build};
use crate::builtins::Builtins;
use crate::literal::{is_number, is_number_literal};
use crate::model::{Binding, OutputModel, Span, bindings_model};
use crate::namespace::{lookup, lookup_model};
use crate::text::{
    byte_position, char_of_byte, lemma_char_of_byte_bounds, lemma_char_of_byte_monotone,
    line_of_char, lines_grow_to, position_of_offset, rope_text, utf8_len,
};
use ropey::Rope;

verus! {

/// The token classes, in the order of the legend that the server announces.
#[derive(Debug, Clone, Copy, PartialEq, Eq, Structural)]
pub enum TokenType {
    Function,
    Variable,
    String,
    Comment,
    Number,
    Keyword,
    Operator,
    Parameter,
    Macro,
    Type,
}

impl TokenType {
    pub open spec fn index_spec(self) -> usize {
        match self {
            TokenType::Function => 0,
            TokenType::Variable => 1,
            TokenType::String => 2,
            TokenType::Comment => 3,
            TokenType::Number => 4,
            TokenType::Keyword => 5,
            TokenType::Operator => 6,
            TokenType::Parameter => 7,
            TokenType::Macro => 8,
            TokenType::Type => 9,
        }
    }

    /// The position of the class in the legend.
    pub fn index(&self) -> (r: usize)
        ensures
            r == self.index_spec(),
    {
        match self {
            TokenType::Function => 0,
            TokenType::Variable => 1,
            TokenType::String => 2,
            TokenType::Comment => 3,
            TokenType::Number => 4,
            TokenType::Keyword => 5,
            TokenType::Operator => 6,
            TokenType::Parameter => 7,
            TokenType::Macro => 8,
            TokenType::Type => 9,
        }
    }
}

/// A classified token: where it starts, how long it is, and its class as
/// a position in the legend.
#[derive(Debug, Clone, Copy, PartialEq, Eq, Structural)]
pub struct SemanticTokenLocation {
    pub start: usize,
    pub length: usize,
    pub token_type: usize,
}

/// A term of script code with its text.
#[derive(Debug)]
pub struct Token {
    pub span: Span,
    pub text: String,
}

/// A file as the preprocessor sees it: directives with their branches,
/// comments, and terms of script code.
#[derive(Debug)]
pub enum Ast {
    /// `#ifdef` or `#ifndef`, with its keywords and branches.
    Ifdef {
        keyword: Span,
        endif_keyword: Span,
        else_keyword: Option<Span>,
        then: Vec<Ast>,
        else_: Vec<Ast>,
    },
    /// `#if`, with its condition, keywords and branches.
    If { keyword: Span, expr: Vec<Ast>, endif_keyword: Span, then: Vec<Ast>, else_: Vec<Ast> },
    /// `#define`, with the name it defines and the terms of its body.
    Define { keyword: Span, name: Span, arguments: Option<Vec<Token>> },
    /// `#undef` and the name it removes.
    Undefine(Span, Span),
    /// `#include` and the file it names.
    Include(Span, Span),
    Comment(Span),
    Term(Token),
}

/// The output is code, directly or by its type.
pub open spec fn is_code(o: OutputModel) -> bool {
    match o {
        OutputModel::Code(_, _) => true,
        OutputModel::Type(t) => t == seq!['C', 'o', 'd', 'e'],
    }
}

/// The class of a term of script code, given the builtins and the project
/// namespace.
pub open spec fn term_type(
    token: Seq<char>,
    builtins: Builtins,
    mission: Seq<crate::model::BindingModel>,
) -> TokenType {
    if token.len() >= 2 && token[0] == token.last() && token[0] == '"' {
        TokenType::String
    } else if is_number(token) {
        TokenType::Number
    } else if builtins.defines(token) {
        TokenType::Keyword
    } else {
        match lookup_model(mission, token) {
            Some(b) => match b.output {
                Some(o) => if is_code(o) {
                    TokenType::Function
                } else {
                    TokenType::Variable
                },
                None => TokenType::Variable,
            },
            None => TokenType::Variable,
        }
    }
}

fn is_code_exec(o: &crate::model::Output) -> (r: bool)
    ensures
        r == is_code(o@),
{
    match o {
        crate::model::Output::Code(_, _) => true,
        crate::model::Output::Type(t) => {
            let code = String::from_str("Code");
            proof {
                reveal_strlit("Code");
                assert(code@ =~= seq!['C', 'o', 'd', 'e']);
            }
            *t == code
        },
    }
}

/// The class of a term of script code.
pub fn infer_st(token: &String, builtins: &Builtins, mission: &Vec<Binding>) -> (r: TokenType)
    ensures
        r == term_type(token@, *builtins, bindings_model(mission@)),
{
    let n = token.as_str().unicode_len();
    if n >= 2 {
        let first = token.as_str().get_char(0);
        if first == token.as_str().get_char(n - 1) && first == '"' {
            return TokenType::String;
        }
    }
    if is_number_literal(token.as_str()) {
        return TokenType::Number;
    }
    if builtins.is_builtin(token) {
        return TokenType::Keyword;
    }
    match lookup(mission, token) {
        Some(b) => match &b.output {
            Some(o) => if is_code_exec(o) {
                TokenType::Function
            } else {
                TokenType::Variable
            },
            None => TokenType::Variable,
        },
        None => TokenType::Variable,
    }
}

/// The length of a span, or zero for a reversed one.
pub open spec fn span_length(s: Span) -> usize {
    if s.start <= s.end {
        (s.end - s.start) as usize
    } else {
        0
    }
}

/// The classified token of a span.
pub open spec fn st(span: Span, t: TokenType) -> SemanticTokenLocation {
    SemanticTokenLocation { start: span.start, length: span_length(span), token_type: t.index_spec() }
}

/// The classified token of a term.
pub open spec fn term_token(
    t: Token,
    builtins: Builtins,
    mission: Seq<crate::model::BindingModel>,
) -> SemanticTokenLocation {
    st(t.span, term_type(t.text@, builtins, mission))
}

pub open spec fn terms_tokens(
    ts: Seq<Token>,
    builtins: Builtins,
    mission: Seq<crate::model::BindingModel>,
) -> Seq<SemanticTokenLocation> {
    ts.map_values(|t: Token| term_token(t, builtins, mission))
}

/// The classified tokens of a preprocessor node: its keywords and names
/// first, then those of its branches, in order.
pub open spec fn ast_tokens(
    ast: Ast,
    builtins: Builtins,
    mission: Seq<crate::model::BindingModel>,
) -> Seq<SemanticTokenLocation>
    decreases ast,
{
    match ast {
        Ast::Ifdef { keyword, endif_keyword, else_keyword, then, else_ } => seq![
            st(keyword, TokenType::Macro),
            st(endif_keyword, TokenType::Macro),
        ] + match else_keyword {
            Some(e) => seq![st(e, TokenType::Macro)],
            None => Seq::empty(),
        } + list_tokens(then@, builtins, mission) + list_tokens(else_@, builtins, mission),
        Ast::If { keyword, expr, endif_keyword, then, else_ } => seq![st(keyword, TokenType::Macro)]
            + list_tokens(expr@, builtins, mission) + seq![st(endif_keyword, TokenType::Macro)]
            + list_tokens(then@, builtins, mission) + list_tokens(else_@, builtins, mission),
        Ast::Define { keyword, name, arguments } => seq![
            st(keyword, TokenType::Macro),
            st(name, TokenType::Variable),
        ] + match arguments {
            Some(a) => terms_tokens(a@, builtins, mission),
            None => Seq::empty(),
        },
        Ast::Undefine(keyword, name) => seq![
            st(keyword, TokenType::Macro),
            st(name, TokenType::Variable),
        ],
        Ast::Include(keyword, file) => seq![
            st(keyword, TokenType::Macro),
            st(file, TokenType::String),
        ],
        Ast::Comment(span) => seq![st(span, TokenType::Comment)],
        Ast::Term(t) => seq![term_token(t, builtins, mission)],
    }
}

/// The classified tokens of a sequence of preprocessor nodes, in order.
pub open spec fn list_tokens(
    s: Seq<Ast>,
    builtins: Builtins,
    mission: Seq<crate::model::BindingModel>,
) -> Seq<SemanticTokenLocation>
    decreases s,
{
    if s.len() == 0 {
        Seq::empty()
    } else {
        list_tokens(s.subrange(0, s.len() - 1), builtins, mission) + ast_tokens(
            s[s.len() - 1],
            builtins,
            mission,
        )
    }
}

/// Ordered by start offset.
pub open spec fn sorted_by_start(s: Seq<SemanticTokenLocation>) -> bool {
    forall|i: int, j: int| 0 <= i < j < s.len() ==> #[trigger] s[i].start <= #[trigger] s[j].start
}

fn to_st(span: Span, token_type: TokenType) -> (r: SemanticTokenLocation)
    ensures
        r == (SemanticTokenLocation {
            start: span.start,
            length: span_length(span),
            token_type: token_type.index_spec(),
        }),
{
    let length = if span.start <= span.end {
        span.end - span.start
    } else {
        0
    };
    SemanticTokenLocation { start: span.start, length, token_type: token_type.index() }
}

/// Appends the classified tokens of `ast` to `container`.
fn recurse(
    ast: &Ast,
    container: &mut Vec<SemanticTokenLocation>,
    builtins: &Builtins,
    mission: &Vec<Binding>,
)
    ensures
        final(container)@ == old(container)@ + ast_tokens(*ast, *builtins, bindings_model(mission@)),
    decreases ast,
{
    let ghost m = bindings_model(mission@);
    let ghost start = container@;
    match ast {
        Ast::Ifdef { keyword, endif_keyword, else_keyword, then, else_ } => {
            container.push(to_st(*keyword, TokenType::Macro));
            container.push(to_st(*endif_keyword, TokenType::Macro));
            match else_keyword {
                Some(e) => {
                    container.push(to_st(*e, TokenType::Macro));
                },
                None => {},
            }
            recurse_all(then, container, builtins, mission);
            recurse_all(else_, container, builtins, mission);
            assert(container@ =~= start + ast_tokens(*ast, *builtins, m));
        },
        Ast::If { keyword, expr, endif_keyword, then, else_ } => {
            container.push(to_st(*keyword, TokenType::Macro));
            recurse_all(expr, container, builtins, mission);
            container.push(to_st(*endif_keyword, TokenType::Macro));
            recurse_all(then, container, builtins, mission);
            recurse_all(else_, container, builtins, mission);
            assert(container@ =~= start + ast_tokens(*ast, *builtins, m));
        },
        Ast::Define { keyword, name, arguments } => {
            container.push(to_st(*keyword, TokenType::Macro));
            container.push(to_st(*name, TokenType::Variable));
            match arguments {
                Some(a) => {
                    let ghost before = container@;
                    let mut i: usize = 0;
                    while i < a.len()
                        invariant
                            i <= a@.len(),
                            m == bindings_model(mission@),
                            container@ == before + terms_tokens(a@, *builtins, m).subrange(0, i as int),
                        decreases a.len() - i,
                    {
                        let t = to_st(a[i].span, infer_st(&a[i].text, builtins, mission));
                        assert(t == terms_tokens(a@, *builtins, m)[i as int]);
                        container.push(t);
                        i = i + 1;
                        assert(container@ =~= before + terms_tokens(a@, *builtins, m).subrange(0, i as int));
                    }
                    assert(terms_tokens(a@, *builtins, m).subrange(0, i as int) =~= terms_tokens(a@, *builtins, m));
                },
                None => {},
            }
            assert(container@ =~= start + ast_tokens(*ast, *builtins, m));
        },
        Ast::Undefine(keyword, name) => {
            container.push(to_st(*keyword, TokenType::Macro));
            container.push(to_st(*name, TokenType::Variable));
            assert(container@ =~= start + ast_tokens(*ast, *builtins, m));
        },
        Ast::Include(keyword, file) => {
            container.push(to_st(*keyword, TokenType::Macro));
            container.push(to_st(*file, TokenType::String));
            assert(container@ =~= start + ast_tokens(*ast, *builtins, m));
        },
        Ast::Comment(span) => {
            container.push(to_st(*span, TokenType::Comment));
            assert(container@ =~= start + ast_tokens(*ast, *builtins, m));
        },
        Ast::Term(t) => {
            container.push(to_st(t.span, infer_st(&t.text, builtins, mission)));
            assert(container@ =~= start + ast_tokens(*ast, *builtins, m));
        },
    }
}

/// Appends the classified tokens of each of `asts`, in order.
fn recurse_all(
    asts: &Vec<Ast>,
    container: &mut Vec<SemanticTokenLocation>,
    builtins: &Builtins,
    mission: &Vec<Binding>,
)
    ensures
        final(container)@ == old(container)@ + list_tokens(asts@, *builtins, bindings_model(mission@)),
    decreases asts,
{
    let ghost m = bindings_model(mission@);
    let ghost start = container@;
    let mut i: usize = 0;
    assert(list_tokens(asts@.subrange(0, 0), *builtins, m) =~= Seq::empty());
    assert(container@ =~= start + list_tokens(asts@.subrange(0, 0), *builtins, m));
    while i < asts.len()
        invariant
            i <= asts@.len(),
            m == bindings_model(mission@),
            container@ == start + list_tokens(asts@.subrange(0, i as int), *builtins, m),
        decreases asts.len() - i,
    {
        recurse(&asts[i], container, builtins, mission);
        proof {
            let next = asts@.subrange(0, i + 1);
            assert(next.subrange(0, next.len() - 1) =~= asts@.subrange(0, i as int));
            assert(next[next.len() - 1] == asts@[i as int]);
        }
        i = i + 1;
        assert(container@ =~= start + list_tokens(asts@.subrange(0, i as int), *builtins, m));
    }
    assert(asts@.subrange(0, i as int) =~= asts@);
}

/// Inserts `x` after every token that starts no later than it.
fn insert_sorted(v: &mut Vec<SemanticTokenLocation>, x: SemanticTokenLocation)
    requires
        sorted_by_start(old(v)@),
    ensures
        sorted_by_start(final(v)@),
        final(v)@.to_multiset() == old(v)@.to_multiset().insert(x),
{
    let mut p: usize = 0;
    while p < v.len() && v[p].start <= x.start
        invariant
            p <= v@.len(),
            forall|k: int| 0 <= k < p ==> #[trigger] v@[k].start <= x.start,
        decreases v.len() - p,
    {
        p = p + 1;
    }
    let ghost before = v@;
    proof {
        to_multiset_insert(before, p as int, x);
    }
    v.insert(p, x);
    assert forall|i: int, j: int| 0 <= i < j < v@.len() implies #[trigger] v@[i].start
        <= #[trigger] v@[j].start by {
        if j < p {
            assert(v@[i] == before[i] && v@[j] == before[j]);
        } else if j == p {
            assert(v@[i] == before[i]);
        } else if i < p {
            assert(v@[i] == before[i] && v@[j] == before[j - 1]);
            assert(before[p as int].start > x.start || p as int == before.len());
            assert(before[i].start <= before[p as int].start);
        } else if i == p {
            assert(v@[j] == before[j - 1]);
            assert(before[p as int].start > x.start);
            if j - 1 > p {
                assert(before[p as int].start <= before[j - 1].start);
            }
        } else {
            assert(v@[i] == before[i - 1] && v@[j] == before[j - 1]);
        }
    }
}

/// The classified tokens of a file's preprocessor input, ordered by start
/// offset.
pub fn semantic_tokens(
    tokens: &Vec<Ast>,
    builtins: &Builtins,
    mission: &Vec<Binding>,
) -> (r: Vec<SemanticTokenLocation>)
    ensures
        sorted_by_start(r@),
        r@.to_multiset() == list_tokens(tokens@, *builtins, bindings_model(mission@)).to_multiset(),
{
    let mut found: Vec<SemanticTokenLocation> = Vec::new();
    recurse_all(tokens, &mut found, builtins, mission);
    let ghost all = found@;
    assert(all =~= list_tokens(tokens@, *builtins, bindings_model(mission@)));
    let mut container: Vec<SemanticTokenLocation> = Vec::new();
    let mut i: usize = 0;
    assert(container@ =~= all.subrange(0, 0));
    while i < found.len()
        invariant
            i <= found@.len(),
            all == found@,
            sorted_by_start(container@),
            container@.to_multiset() == all.subrange(0, i as int).to_multiset(),
        decreases found.len() - i,
    {
        let t = found[i];
        insert_sorted(&mut container, t);
        proof {
            assert(all.subrange(0, i + 1) =~= all.subrange(0, i as int).push(t));
            to_multiset_build(all.subrange(0, i as int), t);
        }
        i = i + 1;
    }
    assert(all.subrange(0, i as int) =~= all);
    container
}

/// A classified token placed at a line and a column.
#[derive(Debug, Clone, Copy, PartialEq, Eq, Structural)]
pub struct TokenPoint {
    pub line: u32,
    pub column: u32,
    pub length: u32,
    pub token_type: u32,
}

/// A token as the editor protocol sends it: its line relative to the
/// previous token's, and its column relative to the previous token's
/// when both share a line.
#[derive(Debug, Clone, Copy, PartialEq, Eq, Structural)]
pub struct SemanticToken {
    pub delta_line: u32,
    pub delta_start: u32,
    pub length: u32,
    pub token_type: u32,
    pub token_modifiers_bitset: u32,
}

/// `p` does not lie before the position `(line, column)`.
pub open spec fn goes_forward(line: u32, column: u32, p: TokenPoint) -> bool {
    p.line > line || (p.line == line && p.column >= column)
}

/// Each point lies at or after the one before it.
pub open spec fn ordered_points(ps: Seq<TokenPoint>) -> bool {
    forall|i: int| 0 < i < ps.len() ==> goes_forward(ps[i - 1].line, ps[i - 1].column, #[trigger] ps[i])
}

pub open spec fn delta_of(line: u32, column: u32, p: TokenPoint) -> SemanticToken {
    let delta_line = (p.line - line) as u32;
    SemanticToken {
        delta_line,
        delta_start: if delta_line == 0 {
            (p.column - column) as u32
        } else {
            p.column
        },
        length: p.length,
        token_type: p.token_type,
        token_modifiers_bitset: 0,
    }
}

/// Each point relative to the one before it, the first relative to the
/// start of the text.
pub open spec fn encoded(ps: Seq<TokenPoint>) -> Seq<SemanticToken> {
    Seq::new(
        ps.len(),
        |i: int|
            if i == 0 {
                delta_of(0, 0, ps[i])
            } else {
                delta_of(ps[i - 1].line, ps[i - 1].column, ps[i])
            },
    )
}

/// The absolute line and column of the `n`-th token, obtained by summing
/// the deltas of the tokens up to it.
pub open spec fn decoded(ts: Seq<SemanticToken>, n: int) -> (u32, u32)
    decreases n + 1,
{
    if n < 0 {
        (0, 0)
    } else {
        let (line, column) = decoded(ts, n - 1);
        let t = ts[n];
        if t.delta_line == 0 {
            (line, (column + t.delta_start) as u32)
        } else {
            ((line + t.delta_line) as u32, t.delta_start)
        }
    }
}

/// Encodes ordered points relative to one another.
pub fn delta_encode(points: &Vec<TokenPoint>) -> (r: Vec<SemanticToken>)
    requires
        ordered_points(points@),
    ensures
        r@ == encoded(points@),
{
    let mut r: Vec<SemanticToken> = Vec::new();
    let mut previous_line: u32 = 0;
    let mut previous_start: u32 = 0;
    let mut i: usize = 0;
    while i < points.len()
        invariant
            i <= points@.len(),
            ordered_points(points@),
            r@ == encoded(points@).subrange(0, i as int),
            i == 0 ==> previous_line == 0 && previous_start == 0,
            i > 0 ==> previous_line == points@[i - 1].line && previous_start == points@[i
                - 1].column,
        decreases points.len() - i,
    {
        let p = points[i];
        let delta_line = p.line - previous_line;
        let delta_start = if delta_line == 0 {
            p.column - previous_start
        } else {
            p.column
        };
        r.push(
            SemanticToken {
                delta_line,
                delta_start,
                length: p.length,
                token_type: p.token_type,
                token_modifiers_bitset: 0,
            },
        );
        previous_line = p.line;
        previous_start = p.column;
        i = i + 1;
        assert(r@ =~= encoded(points@).subrange(0, i as int));
    }
    assert(encoded(points@).subrange(0, i as int) =~= encoded(points@));
    r
}

/// Summing the deltas of the encoding of ordered points gives back each
/// point's absolute line and column.
pub proof fn lemma_decode_encoded(ps: Seq<TokenPoint>, n: int)
    requires
        ordered_points(ps),
        0 <= n < ps.len(),
    ensures
        decoded(encoded(ps), n) == (ps[n].line, ps[n].column),
    decreases n,
{
    let ts = encoded(ps);
    if n > 0 {
        lemma_decode_encoded(ps, n - 1);
        assert(goes_forward(ps[n - 1].line, ps[n - 1].column, ps[n]));
        assert(ts[n] == delta_of(ps[n - 1].line, ps[n - 1].column, ps[n]));
    } else {
        assert(decoded(ts, -1) == (0u32, 0u32));
        assert(ts[0] == delta_of(0, 0, ps[0]));
    }
}


/// The point of token `t` of `text`: the position of the character that
/// holds its first byte, with its length and class. None when the text
/// does not hold that byte.
pub open spec fn point_of(t: SemanticTokenLocation, text: Seq<char>) -> Option<TokenPoint> {
    if t.start <= utf8_len(text) {
        match position_of_offset(text, char_of_byte(text, t.start as int)) {
            Some(pos) => Some(
                TokenPoint {
                    line: pos.line,
                    column: pos.character,
                    length: t.length as u32,
                    token_type: t.token_type as u32,
                },
            ),
            None => None,
        }
    } else {
        None
    }
}

/// The points of the tokens, in order: a token whose first byte the text
/// does not hold, or whose point lies before the point kept last, is
/// left out.
pub open spec fn kept_points(tokens: Seq<SemanticTokenLocation>, text: Seq<char>) -> Seq<TokenPoint>
    decreases tokens.len(),
{
    if tokens.len() == 0 {
        Seq::empty()
    } else {
        let before = kept_points(tokens.drop_last(), text);
        match point_of(tokens.last(), text) {
            Some(p) => if before.len() == 0 || goes_forward(before.last().line, before.last().column, p) {
                before.push(p)
            } else {
                before
            },
            None => before,
        }
    }
}

/// Tokens ordered by start whose first bytes the text holds.
pub open spec fn in_text_and_ordered(tokens: Seq<SemanticTokenLocation>, text: Seq<char>) -> bool {
    &&& forall|i: int| 0 <= i < tokens.len() ==> (#[trigger] tokens[i]).start <= utf8_len(text)
    &&& forall|i: int| 0 < i < tokens.len() ==> tokens[i - 1].start <= (#[trigger] tokens[i]).start
}

/// The line and column of each token in the text, in the tokens' order.
/// A token whose offset the text does not hold, or that would lie before
/// the token kept last, is left out; when the tokens are ordered by start,
/// all lie in the text and the text fits in `u32`, none is left out.
pub fn token_points(tokens: &Vec<SemanticTokenLocation>, rope: &Rope) -> (r: Vec<TokenPoint>)
    ensures
        r@ == kept_points(tokens@, rope_text(*rope)),
        ordered_points(r@),
        in_text_and_ordered(tokens@, rope_text(*rope)) && rope_text(*rope).len() <= u32::MAX ==> r@.len()
            == tokens@.len() && forall|i: int|
            0 <= i < tokens@.len() ==> point_of(#[trigger] tokens@[i], rope_text(*rope)) == Some(r@[i]),
{
    let ghost text = rope_text(*rope);
    let mut r: Vec<TokenPoint> = Vec::new();
    let mut i: usize = 0;
    while i < tokens.len()
        invariant
            i <= tokens@.len(),
            text == rope_text(*rope),
            r@ == kept_points(tokens@.subrange(0, i as int), text),
            ordered_points(r@),
            in_text_and_ordered(tokens@, text) && text.len() <= u32::MAX ==> r@.len() == i && (forall|k: int|
                0 <= k < i ==> point_of(#[trigger] tokens@[k], text) == Some(r@[k])) && (i > 0
                ==> lines_grow_to(text, char_of_byte(text, tokens@[i - 1].start as int))),
        decreases tokens.len() - i,
    {
        let token = tokens[i];
        let ghost prefix = tokens@.subrange(0, i as int);
        let ghost next = tokens@.subrange(0, i + 1);
        assert(next.drop_last() =~= prefix);
        assert(next.last() == token);
        match byte_position(token.start, rope) {
            Some(pos) => {
                let p = TokenPoint {
                    line: pos.line,
                    column: pos.character,
                    length: #[verifier::truncate] (token.length as u32),
                    token_type: #[verifier::truncate] (token.token_type as u32),
                };
                assert(point_of(token, text) == Some(p));
                let forward = if r.len() == 0 {
                    true
                } else {
                    let last = r[r.len() - 1];
                    p.line > last.line || (p.line == last.line && p.column >= last.column)
                };
                proof {
                    if in_text_and_ordered(tokens@, text) && text.len() <= u32::MAX && i > 0 {
                        let b0 = tokens@[i - 1].start as int;
                        let b1 = token.start as int;
                        assert(tokens@[i as int] == token);
                        lemma_char_of_byte_monotone(text, b0, b1);
                        lemma_char_of_byte_bounds(text, b1);
                        lemma_char_of_byte_bounds(text, b0);
                        let c0 = char_of_byte(text, b0);
                        let c1 = char_of_byte(text, b1);
                        assert(line_of_char(text, c0) <= line_of_char(text, c1));
                        assert(r@[i - 1] == r@.last());
                        assert(forward);
                    }
                }
                if forward {
                    let ghost before = r@;
                    r.push(p);
                    proof {
                        assert forall|k: int| 0 < k < r@.len() implies goes_forward(
                            r@[k - 1].line,
                            r@[k - 1].column,
                            #[trigger] r@[k],
                        ) by {
                            if k < before.len() {
                                assert(r@[k] == before[k] && r@[k - 1] == before[k - 1]);
                            }
                        }
                    }
                }
            },
            None => {
                proof {
                    if in_text_and_ordered(tokens@, text) {
                        assert(tokens@[i as int] == token);
                        lemma_char_of_byte_bounds(text, token.start as int);
                    }
                }
            },
        }
        i = i + 1;
    }
    assert(tokens@.subrange(0, i as int) =~= tokens@);
    r
}

/// The tokens of a file as the editor protocol sends them: the kept points
/// of the tokens, each relative to the one before it.
pub fn semantic(tokens: &Vec<SemanticTokenLocation>, rope: &Rope) -> (r: Vec<SemanticToken>)
    ensures
        r@ == encoded(kept_points(tokens@, rope_text(*rope))),
        ordered_points(kept_points(tokens@, rope_text(*rope))),
        in_text_and_ordered(tokens@, rope_text(*rope)) && rope_text(*rope).len() <= u32::MAX ==> r@.len()
            == tokens@.len() && forall|i: int|
            0 <= i < tokens@.len() ==> point_of(#[trigger] tokens@[i], rope_text(*rope)) == Some(
                kept_points(tokens@, rope_text(*rope))[i],
            ),
{
    let points = token_points(tokens, rope);
    delta_encode(&points)
}

/// When no two classified tokens start at one offset, the sorted tokens
/// are strictly ordered by start offset.
pub proof fn lemma_tokens_strictly_ordered(c: Seq<SemanticTokenLocation>, r: Seq<SemanticTokenLocation>)
    requires
        forall|a: int, b: int| 0 <= a < b < c.len() ==> #[trigger] c[a].start != #[trigger] c[b].start,
        sorted_by_start(r),
        r.to_multiset() == c.to_multiset(),
    ensures
        forall|i: int, j: int| 0 <= i < j < r.len() ==> #[trigger] r[i].start < #[trigger] r[j].start,
{
    assert forall|i: int, j: int| 0 <= i < j < r.len() implies #[trigger] r[i].start < #[trigger] r[j].start by {
        if r[i].start == r[j].start {
            vstd::seq_lib::to_multiset_contains(r, r[i]);
            vstd::seq_lib::to_multiset_contains(r, r[j]);
            vstd::seq_lib::to_multiset_contains(c, r[i]);
            vstd::seq_lib::to_multiset_contains(c, r[j]);
            let a = choose|a: int| 0 <= a < c.len() && c[a] == r[i];
            let b = choose|b: int| 0 <= b < c.len() && c[b] == r[j];
            if a != b {
                if a < b {
                    assert(c[a].start != c[b].start);
                } else {
                    assert(c[b].start != c[a].start);
                }
            } else {
                assert forall|x: int, y: int| 0 <= x < y < c.len() implies c[x] != c[y] by {
                    assert(c[x].start != c[y].start);
                }
                c.lemma_multiset_has_no_duplicates();
                let rest = r.remove(j);
                vstd::seq_lib::to_multiset_remove(r, j);
                assert(rest[i] == r[i]);
                vstd::seq_lib::to_multiset_contains(rest, r[i]);
                assert(r.to_multiset().count(r[i]) >= 2);
            }
        }
    }
}

} // verus!
