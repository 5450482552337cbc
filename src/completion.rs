//! Completion: the names a file can use, with what is known of each.
use vstd::prelude::*;
use crate::builtins::{Builtins, Form, Operator};
use crate::model::{Binding, Output, OutputModel, Parameter};
use crate::names::{names_match, eq_ignore_case};

verus! {

/// What a completion offers.
#[derive(Debug, Clone, Copy, PartialEq, Eq, Structural)]
pub enum CompletionKind {
    Variable,
    Function,
    Constant,
}

/// One name offered for completion.
#[derive(Debug)]
pub struct CompletionEntry {
    pub label: String,
    pub kind: CompletionKind,
    /// A one-line description.
    pub detail: Option<String>,
    /// A longer description, in Markdown.
    pub documentation: Option<String>,
}

/// A completion entry, its texts seen as sequences.
pub struct EntryModel {
    pub label: Seq<char>,
    pub kind: CompletionKind,
    pub detail: Option<Seq<char>>,
    pub documentation: Option<Seq<char>>,
}

pub open spec fn opt_view(s: Option<String>) -> Option<Seq<char>> {
    match s {
        Some(x) => Some(x@),
        None => None,
    }
}

impl View for CompletionEntry {
    type V = EntryModel;

    open spec fn view(&self) -> EntryModel {
        EntryModel {
            label: self.label@,
            kind: self.kind,
            detail: opt_view(self.detail),
            documentation: opt_view(self.documentation),
        }
    }
}

pub open spec fn parameter_text(p: Parameter) -> Seq<char> {
    p.name@ + ": "@ + p.type_@
}

/// The parameters, separated by commas.
pub open spec fn parameters_text(ps: Seq<Parameter>) -> Seq<char>
    decreases ps.len(),
{
    if ps.len() == 0 {
        Seq::empty()
    } else if ps.len() == 1 {
        parameter_text(ps[0])
    } else {
        parameters_text(ps.drop_last()) + ", "@ + parameter_text(ps.last())
    }
}

/// What an output is, as completion describes it: its type, or the
/// parameters and return type of code.
pub open spec fn output_text(o: OutputModel) -> Seq<char> {
    match o {
        OutputModel::Type(t) => t,
        OutputModel::Code(params, ret) => match params {
            Some(ps) => match ret {
                Some(r) => "["@ + parameters_text(ps) + "]"@ + " -> "@ + r,
                None => "["@ + parameters_text(ps) + "]"@,
            },
            None => seq!['C', 'o', 'd', 'e'],
        },
    }
}

/// The parameters in brackets, separated by commas.
pub fn params_to_string(params: &Vec<Parameter>) -> (r: String)
    ensures
        r@ == "["@ + parameters_text(params@) + "]"@,
{
    let mut r = String::from_str("[");
    let mut i: usize = 0;
    while i < params.len()
        invariant
            i <= params@.len(),
            r@ == "["@ + parameters_text(params@.subrange(0, i as int)),
        decreases params.len() - i,
    {
        let ghost before = r@;
        let ghost prefix = params@.subrange(0, i as int);
        if i > 0 {
            r.append(", ");
        }
        r.append(params[i].name.as_str());
        r.append(": ");
        r.append(params[i].type_.as_str());
        i = i + 1;
        proof {
            let next = params@.subrange(0, i as int);
            assert(next.drop_last() =~= prefix);
            if i == 1 {
                assert(prefix.len() == 0);
                assert(parameters_text(prefix) =~= Seq::<char>::empty());
                assert(r@ =~= "["@ + parameters_text(next));
            } else {
                assert(r@ =~= "["@ + parameters_text(next));
            }
        }
    }
    assert(params@.subrange(0, i as int) =~= params@);
    r.append("]");
    r
}

/// What an output is, as completion describes it.
pub fn output_to_string(output: &Option<Output>) -> (r: Option<String>)
    ensures
        match output {
            Some(o) => r matches Some(s) && s@ == output_text(o@),
            None => r is None,
        },
{
    match output {
        None => None,
        Some(Output::Type(t)) => Some(t.clone()),
        Some(Output::Code(params, ret)) => match params {
            Some(ps) => {
                let mut s = params_to_string(ps);
                match ret {
                    Some(o) => {
                        s.append(" -> ");
                        s.append(o.as_str());
                    },
                    None => {},
                }
                Some(s)
            },
            None => {
                let s = String::from_str("Code");
                proof {
                    reveal_strlit("Code");
                    assert(s@ =~= seq!['C', 'o', 'd', 'e']);
                }
                Some(s)
            },
        },
    }
}

/// The entry of a variable or a project name.
pub open spec fn binding_entry(name: Seq<char>, output: Option<OutputModel>) -> EntryModel {
    EntryModel {
        label: name,
        kind: match output {
            Some(o) => if o is Code {
                CompletionKind::Function
            } else {
                CompletionKind::Variable
            },
            None => CompletionKind::Variable,
        },
        detail: match output {
            Some(o) => Some(output_text(o)),
            None => None,
        },
        documentation: None,
    }
}

/// How many sides an operator reads.
#[derive(Debug, Clone, Copy, PartialEq, Eq, Structural)]
pub enum Arity {
    Nullary,
    Unary,
    Binary,
}

/// One line of an operator's documentation.
pub open spec fn form_line(arity: Arity, name: Seq<char>, f: Form) -> Seq<char> {
    match arity {
        Arity::Nullary => "* `"@ + f.output@ + "`: "@ + f.explanation@,
        Arity::Unary => "* `"@ + name + " "@ + f.right@ + " -> "@ + f.output@ + "`: "@
            + f.explanation@,
        Arity::Binary => "* `"@ + f.left@ + " "@ + name + " "@ + f.right@ + " -> "@ + f.output@
            + "`: "@ + f.explanation@,
    }
}

/// The lines of an operator's documentation, one per form.
pub open spec fn forms_text(arity: Arity, name: Seq<char>, fs: Seq<Form>) -> Seq<char>
    decreases fs.len(),
{
    if fs.len() == 0 {
        Seq::empty()
    } else if fs.len() == 1 {
        form_line(arity, name, fs[0])
    } else {
        forms_text(arity, name, fs.drop_last()) + "\n"@ + form_line(arity, name, fs.last())
    }
}

/// The entry of a builtin operator.
pub open spec fn operator_entry(arity: Arity, op: Operator) -> EntryModel {
    EntryModel {
        label: op.name@,
        kind: if arity == Arity::Nullary {
            CompletionKind::Constant
        } else {
            CompletionKind::Function
        },
        detail: if op.forms@.len() > 0 {
            Some(op.forms@[0].explanation@)
        } else {
            None
        },
        documentation: Some(forms_text(arity, op.name@, op.forms@)),
    }
}

fn form_line_exec(arity: Arity, name: &String, f: &Form) -> (r: String)
    ensures
        r@ == form_line(arity, name@, *f),
{
    let mut s = String::from_str("* `");
    match arity {
        Arity::Nullary => {
            s.append(f.output.as_str());
        },
        Arity::Unary => {
            s.append(name.as_str());
            s.append(" ");
            s.append(f.right.as_str());
            s.append(" -> ");
            s.append(f.output.as_str());
        },
        Arity::Binary => {
            s.append(f.left.as_str());
            s.append(" ");
            s.append(name.as_str());
            s.append(" ");
            s.append(f.right.as_str());
            s.append(" -> ");
            s.append(f.output.as_str());
        },
    }
    s.append("`: ");
    s.append(f.explanation.as_str());
    proof {
        reveal_strlit("* `");
    }
    s
}

fn operator_entry_exec(arity: Arity, op: &Operator) -> (r: CompletionEntry)
    ensures
        r@ == operator_entry(arity, *op),
{
    let mut doc = String::new();
    let mut i: usize = 0;
    while i < op.forms.len()
        invariant
            i <= op.forms@.len(),
            doc@ == forms_text(arity, op.name@, op.forms@.subrange(0, i as int)),
        decreases op.forms.len() - i,
    {
        let ghost prefix = op.forms@.subrange(0, i as int);
        if i > 0 {
            doc.append("\n");
        }
        let line = form_line_exec(arity, &op.name, &op.forms[i]);
        doc.append(line.as_str());
        i = i + 1;
        proof {
            let next = op.forms@.subrange(0, i as int);
            assert(next.drop_last() =~= prefix);
            if i == 1 {
                assert(forms_text(arity, op.name@, prefix) =~= Seq::<char>::empty());
            }
            assert(doc@ =~= forms_text(arity, op.name@, next));
        }
    }
    assert(op.forms@.subrange(0, i as int) =~= op.forms@);
    let detail = if op.forms.len() > 0 {
        Some(op.forms[0].explanation.clone())
    } else {
        None
    };
    let kind = match arity {
        Arity::Nullary => CompletionKind::Constant,
        _ => CompletionKind::Function,
    };
    CompletionEntry { label: op.name.clone(), kind, detail, documentation: Some(doc) }
}

fn binding_entry_exec(b: &Binding) -> (r: CompletionEntry)
    ensures
        r@ == binding_entry(b.name@, b@.output),
{
    let kind = match &b.output {
        Some(Output::Code(_, _)) => CompletionKind::Function,
        _ => CompletionKind::Variable,
    };
    CompletionEntry {
        label: b.name.clone(),
        kind,
        detail: output_to_string(&b.output),
        documentation: None,
    }
}

/// Every name on offer, in order: the file's variables, the project's
/// names, then the builtin operators by arity.
pub open spec fn candidates(
    variables: Seq<Binding>,
    mission: Seq<Binding>,
    builtins: Builtins,
) -> Seq<EntryModel> {
    variables.map_values(|b: Binding| binding_entry(b.name@, b@.output)) + mission.map_values(
        |b: Binding| binding_entry(b.name@, b@.output),
    ) + builtins.nullary@.map_values(|o: Operator| operator_entry(Arity::Nullary, o))
        + builtins.unary@.map_values(|o: Operator| operator_entry(Arity::Unary, o))
        + builtins.binary@.map_values(|o: Operator| operator_entry(Arity::Binary, o))
}

/// The first entry of each name, in order.
pub open spec fn deduplicated(cs: Seq<EntryModel>) -> Seq<EntryModel>
    decreases cs.len(),
{
    if cs.len() == 0 {
        Seq::empty()
    } else {
        let before = deduplicated(cs.drop_last());
        if exists|i: int| 0 <= i < before.len() && names_match(#[trigger] before[i].label, cs.last().label) {
            before
        } else {
            before.push(cs.last())
        }
    }
}

pub open spec fn entries_model(v: Seq<CompletionEntry>) -> Seq<EntryModel> {
    v.map_values(|e: CompletionEntry| e@)
}

/// Adds `e` unless an entry of the same name is there.
fn add_entry(r: &mut Vec<CompletionEntry>, e: CompletionEntry)
    ensures
        entries_model(final(r)@) == if exists|i: int|
            0 <= i < old(r)@.len() && names_match(#[trigger] entries_model(old(r)@)[i].label, e@.label) {
            entries_model(old(r)@)
        } else {
            entries_model(old(r)@).push(e@)
        },
{
    let ghost m = entries_model(r@);
    let mut i: usize = 0;
    while i < r.len()
        invariant
            i <= r@.len(),
            m == entries_model(r@),
            forall|k: int| 0 <= k < i ==> !names_match(#[trigger] m[k].label, e@.label),
        decreases r.len() - i,
    {
        if eq_ignore_case(r[i].label.as_str(), e.label.as_str()) {
            assert(names_match(m[i as int].label, e@.label));
            return;
        }
        i = i + 1;
    }
    let ghost em = e@;
    r.push(e);
    assert(entries_model(r@) =~= m.push(em));
}

/// Adds an entry for each of `bs`, unless one of the same name is there.
fn add_bindings(r: &mut Vec<CompletionEntry>, bs: &Vec<Binding>, ghost_cs: Ghost<Seq<EntryModel>>)
    requires
        entries_model(old(r)@) == deduplicated(ghost_cs@),
    ensures
        entries_model(final(r)@) == deduplicated(
            ghost_cs@ + bs@.map_values(|b: Binding| binding_entry(b.name@, b@.output)),
        ),
{
    let ghost cs = ghost_cs@;
    let ghost added = bs@.map_values(|b: Binding| binding_entry(b.name@, b@.output));
    let mut i: usize = 0;
    while i < bs.len()
        invariant
            i <= bs@.len(),
            added == bs@.map_values(|b: Binding| binding_entry(b.name@, b@.output)),
            entries_model(r@) == deduplicated(cs + added.subrange(0, i as int)),
        decreases bs.len() - i,
    {
        let e = binding_entry_exec(&bs[i]);
        add_entry(r, e);
        proof {
            let next = cs + added.subrange(0, i + 1);
            assert(next.drop_last() =~= cs + added.subrange(0, i as int));
            assert(next.last() == e@);
        }
        i = i + 1;
    }
    assert(added.subrange(0, i as int) =~= added);
}

/// Adds an entry for each of `ops`, unless one of the same name is there.
fn add_operators(
    r: &mut Vec<CompletionEntry>,
    arity: Arity,
    ops: &Vec<Operator>,
    ghost_cs: Ghost<Seq<EntryModel>>,
)
    requires
        entries_model(old(r)@) == deduplicated(ghost_cs@),
    ensures
        entries_model(final(r)@) == deduplicated(
            ghost_cs@ + ops@.map_values(|o: Operator| operator_entry(arity, o)),
        ),
{
    let ghost cs = ghost_cs@;
    let ghost added = ops@.map_values(|o: Operator| operator_entry(arity, o));
    let mut i: usize = 0;
    while i < ops.len()
        invariant
            i <= ops@.len(),
            added == ops@.map_values(|o: Operator| operator_entry(arity, o)),
            entries_model(r@) == deduplicated(cs + added.subrange(0, i as int)),
        decreases ops.len() - i,
    {
        let e = operator_entry_exec(arity, &ops[i]);
        add_entry(r, e);
        proof {
            let next = cs + added.subrange(0, i + 1);
            assert(next.drop_last() =~= cs + added.subrange(0, i as int));
            assert(next.last() == e@);
        }
        i = i + 1;
    }
    assert(added.subrange(0, i as int) =~= added);
}

/// The names on offer in a file: its variables, the project's names and
/// the builtin operators, the first entry of each name only.
pub fn completion(variables: &Vec<Binding>, mission: &Vec<Binding>, builtins: &Builtins) -> (r: Vec<
    CompletionEntry,
>)
    ensures
        entries_model(r@) == deduplicated(candidates(variables@, mission@, *builtins)),
{
    let mut r: Vec<CompletionEntry> = Vec::new();
    let ghost c0 = Seq::<EntryModel>::empty();
    assert(entries_model(r@) =~= deduplicated(c0));
    add_bindings(&mut r, variables, Ghost(c0));
    let ghost c1 = c0 + variables@.map_values(|b: Binding| binding_entry(b.name@, b@.output));
    add_bindings(&mut r, mission, Ghost(c1));
    let ghost c2 = c1 + mission@.map_values(|b: Binding| binding_entry(b.name@, b@.output));
    add_operators(&mut r, Arity::Nullary, &builtins.nullary, Ghost(c2));
    let ghost c3 = c2 + builtins.nullary@.map_values(|o: Operator| operator_entry(Arity::Nullary, o));
    add_operators(&mut r, Arity::Unary, &builtins.unary, Ghost(c3));
    let ghost c4 = c3 + builtins.unary@.map_values(|o: Operator| operator_entry(Arity::Unary, o));
    add_operators(&mut r, Arity::Binary, &builtins.binary, Ghost(c4));
    assert(c0 + variables@.map_values(|b: Binding| binding_entry(b.name@, b@.output))
        =~= variables@.map_values(|b: Binding| binding_entry(b.name@, b@.output)));
    r
}


/// Some entry of `d` has the name `label`.
pub open spec fn offered(d: Seq<EntryModel>, label: Seq<char>) -> bool {
    exists|i: int| 0 <= i < d.len() && names_match(#[trigger] d[i].label, label)
}

/// The completion offers no name twice, offers every name on offer, and
/// offers only entries that are on offer.
pub proof fn lemma_completion_union(cs: Seq<EntryModel>)
    ensures
        forall|i: int, j: int|
            0 <= i < j < deduplicated(cs).len() ==> !names_match(
                #[trigger] deduplicated(cs)[i].label,
                #[trigger] deduplicated(cs)[j].label,
            ),
        forall|k: int|
            0 <= k < cs.len() ==> offered(deduplicated(cs), #[trigger] cs[k].label),
        forall|i: int|
            0 <= i < deduplicated(cs).len() ==> exists|k: int|
                0 <= k < cs.len() && #[trigger] deduplicated(cs)[i] == #[trigger] cs[k],
    decreases cs.len(),
{
    if cs.len() > 0 {
        let p = cs.drop_last();
        lemma_completion_union(p);
        let before = deduplicated(p);
        let d = deduplicated(cs);
        assert forall|k: int| 0 <= k < cs.len() implies offered(d, #[trigger] cs[k].label) by {
            if k < cs.len() - 1 {
                assert(cs[k] == p[k]);
                assert(offered(before, p[k].label));
                let i = choose|i: int|
                    0 <= i < before.len() && names_match(#[trigger] before[i].label, p[k].label);
                assert(d[i] == before[i]);
            } else if exists|i: int| 0 <= i < before.len() && names_match(#[trigger] before[i].label, cs.last().label) {
                let i = choose|i: int| 0 <= i < before.len() && names_match(#[trigger] before[i].label, cs.last().label);
                assert(d[i] == before[i]);
            } else {
                crate::names::lemma_names_match_reflexive(cs[k].label);
                assert(d[before.len() as int] == cs[k]);
            }
        }
        assert forall|i: int| 0 <= i < d.len() implies exists|k: int|
            0 <= k < cs.len() && #[trigger] d[i] == #[trigger] cs[k] by {
            if i < before.len() {
                assert(d[i] == before[i]);
                let k = choose|k: int| 0 <= k < p.len() && #[trigger] before[i] == #[trigger] p[k];
                assert(p[k] == cs[k]);
            } else {
                assert(d[i] == cs[cs.len() - 1]);
            }
        }
        assert forall|i: int, j: int| 0 <= i < j < d.len() implies !names_match(
            #[trigger] d[i].label,
            #[trigger] d[j].label,
        ) by {
            if j < before.len() {
                assert(d[i] == before[i] && d[j] == before[j]);
            } else {
                assert(d[i] == before[i]);
            }
        }
    }
}

} // verus!
