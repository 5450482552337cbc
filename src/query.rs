//! The editor's questions about a file, answered from the session.
use vstd::prelude::*;
use crate::builtins::Builtins;
use crate::completion::{CompletionEntry, completion, candidates, deduplicated, entries_model};
use crate::model::{AnalysisResult, Note, Origin, OriginAt, Span, TypeHint};
use crate::semantic_token::{SemanticToken, encoded, kept_points, semantic};
use crate::session::{Session, document_model, entry_model, namespace_model};
use crate::text::{Position, Range, offset_to_position, offset_of_position, position_to_offset, position_of_offset, rope_text, span_to_range};
use crate::model::bindings_model;

verus! {

/// `i` is the first of the narrowest spans of `spans` that hold `offset`.
pub open spec fn narrowest(spans: Seq<Span>, offset: int, i: int) -> bool {
    &&& 0 <= i < spans.len()
    &&& spans[i].has(offset)
    &&& forall|j: int| 0 <= j < spans.len() && spans[j].has(offset) ==> spans[i].width() <= (
    #[trigger] spans[j]).width()
    &&& forall|j: int| 0 <= j < i && spans[j].has(offset) ==> spans[i].width() < (
    #[trigger] spans[j]).width()
}

pub open spec fn note_spans(notes: Seq<Note>) -> Seq<Span> {
    notes.map_values(|n: Note| n.span)
}

pub open spec fn origin_spans(origins: Seq<OriginAt>) -> Seq<Span> {
    origins.map_values(|o: OriginAt| o.span)
}

/// The first of the narrowest spans that hold `offset`.
fn narrowest_span(spans: &Vec<Span>, offset: usize) -> (r: Option<usize>)
    ensures
        match r {
            Some(i) => narrowest(spans@, offset as int, i as int),
            None => forall|j: int| 0 <= j < spans@.len() ==> !(#[trigger] spans@[j]).has(offset as int),
        },
{
    let mut best: Option<usize> = None;
    let mut i: usize = 0;
    while i < spans.len()
        invariant
            i <= spans@.len(),
            match best {
                Some(b) => narrowest(spans@.subrange(0, i as int), offset as int, b as int),
                None => forall|j: int| 0 <= j < i ==> !(#[trigger] spans@[j]).has(offset as int),
            },
        decreases spans.len() - i,
    {
        let ghost prefix = spans@.subrange(0, i as int);
        let ghost next = spans@.subrange(0, i + 1);
        if spans[i].contains(offset) {
            let take = match best {
                Some(b) => spans[i].end - spans[i].start < spans[b].end - spans[b].start,
                None => true,
            };
            if take {
                proof {
                    assert forall|j: int| 0 <= j < next.len() && next[j].has(offset as int) implies next[i as int].width()
                        <= (#[trigger] next[j]).width() by {
                        if j < i {
                            assert(next[j] == prefix[j]);
                        }
                    }
                }
                best = Some(i);
            } else {
                proof {
                    let b = best->Some_0;
                    assert forall|j: int| 0 <= j < next.len() && next[j].has(offset as int) implies next[b as int].width()
                        <= (#[trigger] next[j]).width() by {
                        if j < i {
                            assert(next[j] == prefix[j]);
                        }
                    }
                    assert forall|j: int| 0 <= j < b && next[j].has(offset as int) implies next[b as int].width()
                        < (#[trigger] next[j]).width() by {
                        assert(next[j] == prefix[j]);
                    }
                }
            }
        } else {
            proof {
                if best is Some {
                    let b = best->Some_0;
                    assert forall|j: int| 0 <= j < next.len() && next[j].has(offset as int) implies next[b as int].width()
                        <= (#[trigger] next[j]).width() by {
                        if j < i {
                            assert(next[j] == prefix[j]);
                        }
                    }
                    assert forall|j: int| 0 <= j < b && next[j].has(offset as int) implies next[b as int].width()
                        < (#[trigger] next[j]).width() by {
                        assert(next[j] == prefix[j]);
                    }
                }
            }
        }
        i = i + 1;
    }
    assert(spans@.subrange(0, i as int) =~= spans@);
    best
}

fn spans_of_notes(notes: &Vec<Note>) -> (r: Vec<Span>)
    ensures
        r@ == note_spans(notes@),
{
    let mut r: Vec<Span> = Vec::new();
    let mut i: usize = 0;
    while i < notes.len()
        invariant
            i <= notes@.len(),
            r@ == note_spans(notes@).subrange(0, i as int),
        decreases notes.len() - i,
    {
        r.push(notes[i].span);
        i = i + 1;
        assert(r@ =~= note_spans(notes@).subrange(0, i as int));
    }
    assert(note_spans(notes@).subrange(0, i as int) =~= note_spans(notes@));
    r
}

fn spans_of_origins(origins: &Vec<OriginAt>) -> (r: Vec<Span>)
    ensures
        r@ == origin_spans(origins@),
{
    let mut r: Vec<Span> = Vec::new();
    let mut i: usize = 0;
    while i < origins.len()
        invariant
            i <= origins@.len(),
            r@ == origin_spans(origins@).subrange(0, i as int),
        decreases origins.len() - i,
    {
        r.push(origins[i].span);
        i = i + 1;
        assert(r@ =~= origin_spans(origins@).subrange(0, i as int));
    }
    assert(origin_spans(origins@).subrange(0, i as int) =~= origin_spans(origins@));
    r
}

/// The explanation of the narrowest explained span that holds `offset`.
pub fn hover(state: &AnalysisResult, offset: usize) -> (r: Option<String>)
    ensures
        match r {
            Some(t) => exists|i: int|
                narrowest(note_spans(state.explanations@), offset as int, i) && #[trigger] state.explanations@[i].text
                    == t,
            None => forall|j: int|
                0 <= j < state.explanations@.len() ==> !(#[trigger] state.explanations@[j]).span.has(
                    offset as int,
                ),
        },
{
    let spans = spans_of_notes(&state.explanations);
    match narrowest_span(&spans, offset) {
        Some(i) => Some(state.explanations[i].text.clone()),
        None => {
            assert forall|j: int| 0 <= j < state.explanations@.len() implies !(
            #[trigger] state.explanations@[j]).span.has(offset as int) by {
                assert(spans@[j] == state.explanations@[j].span);
            }
            None
        },
    }
}

/// Where the symbol at `offset` was defined: the origin of the narrowest
/// span that holds `offset`.
pub fn get_definition(state: &AnalysisResult, offset: usize) -> (r: Option<Origin>)
    ensures
        match r {
            Some(o) => exists|i: int|
                narrowest(origin_spans(state.origins@), offset as int, i) && #[trigger] state.origins@[i].origin
                    == o,
            None => forall|j: int|
                0 <= j < state.origins@.len() ==> !(#[trigger] state.origins@[j]).span.has(
                    offset as int,
                ),
        },
{
    let spans = spans_of_origins(&state.origins);
    match narrowest_span(&spans, offset) {
        Some(i) => Some(state.origins[i].origin.clone()),
        None => {
            assert forall|j: int| 0 <= j < state.origins@.len() implies !(
            #[trigger] state.origins@[j]).span.has(offset as int) by {
                assert(spans@[j] == state.origins@[j].span);
            }
            None
        },
    }
}


/// A place in a file.
#[derive(Debug)]
pub struct Location {
    pub path: String,
    pub range: Range,
}

/// What an inlay hint shows.
#[derive(Debug, Clone, Copy, PartialEq, Eq, Structural)]
pub enum InlayKind {
    /// An inferred type, after the term.
    Type,
    /// A parameter name, before the argument.
    Parameter,
}

/// A hint shown inside the text.
#[derive(Debug)]
pub struct InlayHint {
    pub position: Position,
    pub label: String,
    pub kind: InlayKind,
}

pub open spec fn zero_range() -> Range {
    Range { start: Position { line: 0, character: 0 }, end: Position { line: 0, character: 0 } }
}

/// The file and span an origin points to, seen from the file at `path`.
pub open spec fn origin_target(o: Origin, path: String) -> (String, Option<Span>) {
    match o {
        Origin::InFile(s) => (path, Some(s)),
        Origin::External(p, s) => (p, s),
    }
}

/// `h` is the type hint of `t` in `text`.
pub open spec fn is_type_hint(h: InlayHint, t: TypeHint, text: Seq<char>) -> bool {
    &&& t.type_ matches Some(name) && h.label@ == ": "@ + name@
    &&& h.kind == InlayKind::Type
    &&& Some(h.position) == position_of_offset(text, t.span.end as int)
}

/// `h` is the hint of the parameter `p` in `text`.
pub open spec fn is_parameter_hint(h: InlayHint, p: Note, text: Seq<char>) -> bool {
    &&& h.label@ == p.text@ + ": "@
    &&& h.kind == InlayKind::Parameter
    &&& Some(h.position) == position_of_offset(text, p.span.start as int)
}

/// The range of a span in a text, or the empty range at the start of the
/// file when the text does not hold the span.
pub open spec fn range_in(text: Seq<char>, s: Span) -> Range {
    match (position_of_offset(text, s.start as int), position_of_offset(text, s.end as int)) {
        (Some(a), Some(b)) => Range { start: a, end: b },
        _ => zero_range(),
    }
}

/// `loc` is where `o`, seen from the file at `path`, points: its file, and
/// the range of its span in that file's cached text; the empty range at
/// the start of the file when the span is unknown, the text is not cached
/// or does not hold the span.
pub open spec fn locates(loc: Location, o: Origin, path: String, docs: Seq<crate::session::Document>) -> bool {
    let (target, span) = origin_target(o, path);
    &&& loc.path == target
    &&& loc.range == match span {
        Some(s) => match document_model(docs, target@) {
            Some(t) => range_in(rope_text(t), s),
            None => zero_range(),
        },
        None => zero_range(),
    }
}

/// `h` is the hint of one of the typed terms or of one of the parameters.
pub open spec fn hint_of(h: InlayHint, types: Seq<TypeHint>, params: Seq<Note>, text: Seq<char>) -> bool {
    (exists|i: int| 0 <= i < types.len() && is_type_hint(h, #[trigger] types[i], text)) || (exists|i: int|
        0 <= i < params.len() && is_parameter_hint(h, #[trigger] params[i], text))
}

impl Session {
    /// The explanation shown when hovering at a position of a file.
    pub fn hover_at(&self, path: &String, position: Position) -> (r: Option<String>)
        ensures
            match (entry_model(self.entries@, path@), document_model(self.documents@, path@)) {
                (Some(e), Some(d)) => match offset_of_position(rope_text(d), position) {
                    Some(o) => match r {
                        Some(t) => exists|i: int|
                            narrowest(note_spans(e.analysis.explanations@), o, i)
                                && #[trigger] e.analysis.explanations@[i].text == t,
                        None => forall|j: int|
                            0 <= j < e.analysis.explanations@.len()
                                ==> !(#[trigger] e.analysis.explanations@[j]).span.has(o),
                    },
                    None => r is None,
                },
                _ => r is None,
            },
    {
        let rope = match self.document(path) {
            Some(d) => d,
            None => return None,
        };
        let entry = match self.entry(path) {
            Some(e) => e,
            None => return None,
        };
        let offset = match position_to_offset(position, rope) {
            Some(o) => o,
            None => return None,
        };
        hover(&entry.analysis, offset)
    }

    /// Where the symbol at a position of a file was defined. The range is
    /// empty at the start of the target when its text is not cached or
    /// does not hold the span.
    pub fn definition_at(&self, path: &String, position: Position) -> (r: Option<Location>)
        ensures
            match (entry_model(self.entries@, path@), document_model(self.documents@, path@)) {
                (Some(e), Some(d)) => match offset_of_position(rope_text(d), position) {
                    Some(o) => match r {
                        Some(loc) => exists|i: int|
                            narrowest(origin_spans(e.analysis.origins@), o, i) && locates(
                                loc,
                                #[trigger] e.analysis.origins@[i].origin,
                                *path,
                                self.documents@,
                            ),
                        None => forall|j: int|
                            0 <= j < e.analysis.origins@.len()
                                ==> !(#[trigger] e.analysis.origins@[j]).span.has(o),
                    },
                    None => r is None,
                },
                _ => r is None,
            },
    {
        let rope = match self.document(path) {
            Some(d) => d,
            None => return None,
        };
        let entry = match self.entry(path) {
            Some(e) => e,
            None => return None,
        };
        let offset = match position_to_offset(position, rope) {
            Some(o) => o,
            None => return None,
        };
        let origin = match get_definition(&entry.analysis, offset) {
            Some(o) => o,
            None => return None,
        };
        let ghost o = origin;
        let ghost i = choose|i: int|
            narrowest(origin_spans(entry.analysis.origins@), offset as int, i)
                && #[trigger] entry.analysis.origins@[i].origin == o;
        let (target, span) = match origin {
            Origin::InFile(s) => (path.clone(), Some(s)),
            Origin::External(p, s) => (p, s),
        };
        let zero = Position { line: 0, character: 0 };
        let range = match span {
            Some(s) => match self.document(&target) {
                Some(t) => match span_to_range(s.start, s.end, t) {
                    Some(g) => g,
                    None => Range { start: zero, end: zero },
                },
                None => Range { start: zero, end: zero },
            },
            None => Range { start: zero, end: zero },
        };
        assert(origin_target(o, *path).0 == target);
        let loc = Location { path: target, range };
        assert(locates(loc, entry.analysis.origins@[i].origin, *path, self.documents@));
        Some(loc)
    }

    /// The highlighting of a file, as the editor protocol sends it.
    pub fn semantic_at(&self, path: &String) -> (r: Option<Vec<SemanticToken>>)
        ensures
            match (entry_model(self.entries@, path@), document_model(self.documents@, path@)) {
                (Some(e), Some(d)) => r matches Some(v) && v@ == encoded(
                    kept_points(e.tokens@, rope_text(d)),
                ),
                _ => r is None,
            },
    {
        let entry = match self.entry(path) {
            Some(e) => e,
            None => return None,
        };
        let rope = match self.document(path) {
            Some(d) => d,
            None => return None,
        };
        Some(semantic(&entry.tokens, rope))
    }

    /// The names on offer in a file: its variables, the names the rest of
    /// the project makes visible now, and the builtin operators.
    pub fn completion_at(&self, path: &String, builtins: &Builtins) -> (r: Option<Vec<CompletionEntry>>)
        ensures
            match entry_model(self.entries@, path@) {
                Some(e) => r matches Some(v) && exists|ns: Seq<crate::model::Binding>|
                    bindings_model(ns) == namespace_model(self.entries@, path@) && entries_model(v@)
                        == deduplicated(candidates(e.analysis.variables@, ns, *builtins)),
                None => r is None,
            },
    {
        let entry = match self.entry(path) {
            Some(e) => e,
            None => return None,
        };
        let ns = self.namespace_for(path);
        let r = completion(&entry.analysis.variables, &ns, builtins);
        assert(bindings_model(ns@) == namespace_model(self.entries@, path@));
        Some(r)
    }

    /// The inlay hints of a file: the inferred types, after their terms,
    /// then the parameter names, before their arguments, each stream in
    /// the order of positions. A hint whose place the text does not hold is
    /// left out.
    pub fn inlay(&self, path: &String) -> (r: Option<Vec<InlayHint>>)
        ensures
            match (entry_model(self.entries@, path@), document_model(self.documents@, path@)) {
                (Some(e), Some(d)) => r matches Some(v) && (forall|k: int|
                    0 <= k < v@.len() ==> hint_of(
                        #[trigger] v@[k],
                        e.analysis.types@,
                        e.analysis.parameters@,
                        rope_text(d),
                    )) && two_streams(v@) && complete_hints(
                        v@,
                        e.analysis.types@,
                        e.analysis.parameters@,
                        rope_text(d),
                    ),
                _ => r is None,
            },
    {
        let document = match self.document(path) {
            Some(d) => d,
            None => return None,
        };
        let entry = match self.entry(path) {
            Some(e) => e,
            None => return None,
        };
        let ghost text = rope_text(*document);
        let types = &entry.analysis.types;
        let params = &entry.analysis.parameters;
        let mut r: Vec<InlayHint> = Vec::new();
        let mut i: usize = 0;
        while i < types.len()
            invariant
                i <= types@.len(),
                text == rope_text(*document),
                positions_sorted(r@),
                forall|k: int| 0 <= k < r@.len() ==> (#[trigger] r@[k]).kind == InlayKind::Type,
                forall|k: int| 0 <= k < r@.len() ==> hint_of(#[trigger] r@[k], types@, params@, text),
                forall|j: int|
                    0 <= j < i && (#[trigger] types@[j]).type_ is Some && types@[j].span.end <= text.len()
                        ==> has_type_hint(r@, types@[j], text),
            decreases types.len() - i,
        {
            match &types[i].type_ {
                Some(t) => match offset_to_position(types[i].span.end, document) {
                    Some(position) => {
                        let mut label = String::from_str(": ");
                        label.append(t.as_str());
                        let h = InlayHint { position, label, kind: InlayKind::Type };
                        assert(is_type_hint(h, types@[i as int], text));
                        assert(hint_of(h, types@, params@, text));
                        let ghost before = r@;
                        let ghost hv = h;
                        insert_by_position(&mut r, h);
                        proof {
                            let p = choose|p: int| 0 <= p <= before.len() && r@ == before.insert(p, hv);
                            assert(r@[p] == hv);
                            assert forall|j: int|
                                0 <= j <= i && (#[trigger] types@[j]).type_ is Some && types@[j].span.end
                                    <= text.len() implies has_type_hint(r@, types@[j], text) by {
                                if j < i {
                                    let k = choose|k: int| 0 <= k < before.len() && is_type_hint(before[k], types@[j], text);
                                    if k < p {
                                        assert(r@[k] == before[k]);
                                    } else {
                                        assert(r@[k + 1] == before[k]);
                                    }
                                }
                            }
                        }
                    },
                    None => {},
                },
                None => {},
            }
            i = i + 1;
        }
        let mut q: Vec<InlayHint> = Vec::new();
        let mut i: usize = 0;
        while i < params.len()
            invariant
                i <= params@.len(),
                text == rope_text(*document),
                positions_sorted(q@),
                forall|k: int| 0 <= k < q@.len() ==> (#[trigger] q@[k]).kind == InlayKind::Parameter,
                forall|k: int| 0 <= k < q@.len() ==> hint_of(#[trigger] q@[k], types@, params@, text),
                forall|j: int|
                    0 <= j < i && (#[trigger] params@[j]).span.start <= text.len() ==> has_parameter_hint(
                        q@,
                        params@[j],
                        text,
                    ),
            decreases params.len() - i,
        {
            match offset_to_position(params[i].span.start, document) {
                Some(position) => {
                    let mut label = params[i].text.clone();
                    label.append(": ");
                    let h = InlayHint { position, label, kind: InlayKind::Parameter };
                    assert(is_parameter_hint(h, params@[i as int], text));
                    assert(hint_of(h, types@, params@, text));
                    let ghost before = q@;
                    let ghost hv = h;
                    insert_by_position(&mut q, h);
                    proof {
                        let p = choose|p: int| 0 <= p <= before.len() && q@ == before.insert(p, hv);
                        assert(q@[p] == hv);
                        assert forall|j: int|
                            0 <= j <= i && (#[trigger] params@[j]).span.start <= text.len() implies has_parameter_hint(
                                q@,
                                params@[j],
                                text,
                            ) by {
                            if j < i {
                                let k = choose|k: int| 0 <= k < before.len() && is_parameter_hint(before[k], params@[j], text);
                                if k < p {
                                    assert(q@[k] == before[k]);
                                } else {
                                    assert(q@[k + 1] == before[k]);
                                }
                            }
                        }
                    }
                },
                None => {},
            }
            i = i + 1;
        }
        let ghost first = r@;
        let ghost second = q@;
        r.append(&mut q);
        proof {
            assert(r@ =~= first + second);
            assert(r@.subrange(0, first.len() as int) =~= first);
            assert(r@.subrange(first.len() as int, r@.len() as int) =~= second);
            assert forall|k: int| 0 <= k < r@.len() implies hint_of(#[trigger] r@[k], types@, params@, text) by {
                if k < first.len() {
                    assert(r@[k] == first[k]);
                } else {
                    assert(r@[k] == second[k - first.len()]);
                }
            }
            assert forall|j: int|
                0 <= j < types@.len() && (#[trigger] types@[j]).type_ is Some && types@[j].span.end <= text.len()
                    implies has_type_hint(r@, types@[j], text) by {
                let k = choose|k: int| 0 <= k < first.len() && is_type_hint(first[k], types@[j], text);
                assert(r@[k] == first[k]);
            }
            assert forall|j: int|
                0 <= j < params@.len() && (#[trigger] params@[j]).span.start <= text.len()
                    implies has_parameter_hint(r@, params@[j], text) by {
                let k = choose|k: int| 0 <= k < second.len() && is_parameter_hint(second[k], params@[j], text);
                assert(r@[first.len() + k] == second[k]);
            }
            assert forall|k: int| 0 <= k < first.len() implies (#[trigger] r@[k]).kind == InlayKind::Type by {
                assert(r@[k] == first[k]);
            }
            assert forall|k: int| first.len() <= k < r@.len() implies (#[trigger] r@[k]).kind
                == InlayKind::Parameter by {
                assert(r@[k] == second[k - first.len()]);
            }
        }
        Some(r)
    }
}

/// Some hint of `v` is the type hint of `t`.
pub open spec fn has_type_hint(v: Seq<InlayHint>, t: TypeHint, text: Seq<char>) -> bool {
    exists|k: int| 0 <= k < v.len() && is_type_hint(#[trigger] v[k], t, text)
}

/// Some hint of `v` is the hint of the parameter `p`.
pub open spec fn has_parameter_hint(v: Seq<InlayHint>, p: Note, text: Seq<char>) -> bool {
    exists|k: int| 0 <= k < v.len() && is_parameter_hint(#[trigger] v[k], p, text)
}

/// Every typed term and every parameter whose offset the text holds has
/// its hint.
pub open spec fn complete_hints(v: Seq<InlayHint>, types: Seq<TypeHint>, params: Seq<Note>, text: Seq<char>) -> bool {
    &&& forall|j: int|
        0 <= j < types.len() && (#[trigger] types[j]).type_ is Some && types[j].span.end <= text.len()
            ==> has_type_hint(v, types[j], text)
    &&& forall|j: int|
        0 <= j < params.len() && (#[trigger] params[j]).span.start <= text.len() ==> has_parameter_hint(
            v,
            params[j],
            text,
        )
}

/// `a` is not after `b`.
pub open spec fn position_le(a: Position, b: Position) -> bool {
    a.line < b.line || (a.line == b.line && a.character <= b.character)
}

/// Hints in the order of their positions.
pub open spec fn positions_sorted(v: Seq<InlayHint>) -> bool {
    forall|i: int, j: int| 0 <= i < j < v.len() ==> position_le(#[trigger] v[i].position, #[trigger] v[j].position)
}

/// The type hints, in the order of positions, then the parameter hints,
/// in the order of positions.
pub open spec fn two_streams(v: Seq<InlayHint>) -> bool {
    exists|n: int|
        0 <= n <= v.len() && positions_sorted(v.subrange(0, n)) && positions_sorted(v.subrange(n, v.len() as int))
            && (forall|k: int| 0 <= k < n ==> (#[trigger] v[k]).kind == InlayKind::Type) && (forall|k: int|
            n <= k < v.len() ==> (#[trigger] v[k]).kind == InlayKind::Parameter)
}

/// Inserts `h` after every hint placed no later than it.
fn insert_by_position(v: &mut Vec<InlayHint>, h: InlayHint)
    requires
        positions_sorted(old(v)@),
    ensures
        positions_sorted(final(v)@),
        exists|p: int| 0 <= p <= old(v)@.len() && final(v)@ == old(v)@.insert(p, h),
{
    let mut p: usize = 0;
    while p < v.len() && (v[p].position.line < h.position.line || (v[p].position.line == h.position.line
        && v[p].position.character <= h.position.character))
        invariant
            p <= v@.len(),
            forall|k: int| 0 <= k < p ==> position_le(#[trigger] v@[k].position, h.position),
        decreases v.len() - p,
    {
        p = p + 1;
    }
    let ghost before = v@;
    let ghost hv = h;
    v.insert(p, h);
    assert(v@ == before.insert(p as int, hv));
    assert forall|i: int, j: int| 0 <= i < j < v@.len() implies position_le(
        #[trigger] v@[i].position,
        #[trigger] v@[j].position,
    ) by {
        if j < p {
            assert(v@[i] == before[i] && v@[j] == before[j]);
        } else if j == p {
            assert(v@[i] == before[i]);
        } else if i < p {
            assert(v@[i] == before[i] && v@[j] == before[j - 1]);
            assert(position_le(before[i].position, before[j - 1].position));
        } else if i == p {
            assert(v@[j] == before[j - 1]);
            assert(!position_le(before[p as int].position, hv.position));
            if j - 1 > p {
                assert(position_le(before[p as int].position, before[j - 1].position));
            }
        } else {
            assert(v@[i] == before[i - 1] && v@[j] == before[j - 1]);
        }
    }
}

} // verus!
