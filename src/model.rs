//! The values that the analysis engine produces for one file, as plain data.
use vstd::prelude::*;

verus! {

/// A half-open range `[start, end)` of offsets into a file's text.
#[derive(Debug, Clone, Copy, PartialEq, Eq, Structural)]
pub struct Span {
    pub start: usize,
    pub end: usize,
}

impl Span {
    pub open spec fn has(self, offset: int) -> bool {
        self.start <= offset && offset < self.end
    }

    pub open spec fn width(self) -> int {
        self.end - self.start
    }

    /// Whether `offset` lies inside the span.
    pub fn contains(&self, offset: usize) -> (r: bool)
        ensures
            r == self.has(offset as int),
    {
        offset >= self.start && offset < self.end
    }
}


/// A named, typed parameter of a script function.
#[derive(Debug)]
pub struct Parameter {
    pub name: String,
    pub type_: String,
}

impl Clone for Parameter {
    fn clone(&self) -> (r: Self)
        ensures
            r == *self,
    {
        Parameter { name: self.name.clone(), type_: self.type_.clone() }
    }
}

/// Clones a list of parameters element by element.
pub fn clone_parameters(v: &Vec<Parameter>) -> (r: Vec<Parameter>)
    ensures
        r@ == v@,
{
    let r = v.clone();
    assert(r@ =~= v@);
    r
}

/// What a symbol evaluates to: a plain type, or code with an optional
/// parameter list and an optional return type. Types are held by name.
#[derive(Debug)]
pub enum Output {
    Type(String),
    Code(Option<Vec<Parameter>>, Option<String>),
}

/// `Output` with its parameter list seen as a sequence.
pub enum OutputModel {
    Type(Seq<char>),
    Code(Option<Seq<Parameter>>, Option<Seq<char>>),
}

impl View for Output {
    type V = OutputModel;

    open spec fn view(&self) -> OutputModel {
        match *self {
            Output::Type(t) => OutputModel::Type(t@),
            Output::Code(p, r) => OutputModel::Code(
                match p {
                    Some(v) => Some(v@),
                    None => None,
                },
                match r {
                    Some(t) => Some(t@),
                    None => None,
                },
            ),
        }
    }
}

pub open spec fn output_model(o: Option<Output>) -> Option<OutputModel> {
    match o {
        Some(x) => Some(x@),
        None => None,
    }
}

impl Clone for Output {
    fn clone(&self) -> (r: Self)
        ensures
            r@ == self@,
    {
        match self {
            Output::Type(t) => Output::Type(t.clone()),
            Output::Code(params, ret) => {
                let p = match params {
                    Some(v) => Some(clone_parameters(v)),
                    None => None,
                };
                Output::Code(p, ret.clone())
            },
        }
    }
}

/// Clones an optional output.
pub fn clone_output(o: &Option<Output>) -> (r: Option<Output>)
    ensures
        output_model(r) == output_model(*o),
{
    match o {
        Some(x) => Some(x.clone()),
        None => None,
    }
}

/// Where a symbol was defined.
#[derive(Debug)]
pub enum Origin {
    /// At a span of the file being analyzed.
    InFile(Span),
    /// In another file, at a span when that span is known.
    External(String, Option<Span>),
}

impl Clone for Origin {
    fn clone(&self) -> (r: Self)
        ensures
            r == *self,
    {
        match self {
            Origin::InFile(s) => Origin::InFile(*s),
            Origin::External(p, s) => Origin::External(p.clone(), *s),
        }
    }
}

/// One entry of a namespace: a name, where it comes from and what it is.
#[derive(Debug)]
pub struct Binding {
    pub name: String,
    pub origin: Origin,
    pub output: Option<Output>,
}

pub struct BindingModel {
    pub name: String,
    pub origin: Origin,
    pub output: Option<OutputModel>,
}

impl View for Binding {
    type V = BindingModel;

    open spec fn view(&self) -> BindingModel {
        BindingModel { name: self.name, origin: self.origin, output: output_model(self.output) }
    }
}

/// The models of a sequence of bindings.
pub open spec fn bindings_model(s: Seq<Binding>) -> Seq<BindingModel> {
    s.map_values(|b: Binding| b@)
}

impl Clone for Binding {
    fn clone(&self) -> (r: Self)
        ensures
            r@ == self@,
    {
        Binding {
            name: self.name.clone(),
            origin: self.origin.clone(),
            output: clone_output(&self.output),
        }
    }
}

/// The kinds of problem that configuration can filter or grade.
#[derive(Debug, Clone, Copy, PartialEq, Eq, Structural)]
pub enum ErrorKind {
    UndefinedVariable,
    PrivateAssignedToMission,
    UnusedVariable,
    Other,
}

/// A problem found while analyzing a file. `origin`, when present, names
/// the file the problem belongs to in place of the file that produced it.
#[derive(Debug)]
pub struct Error {
    pub kind: ErrorKind,
    pub message: String,
    pub span: Span,
    pub origin: Option<String>,
}

impl Clone for Error {
    fn clone(&self) -> (r: Self)
        ensures
            r == *self,
    {
        Error {
            kind: self.kind,
            message: self.message.clone(),
            span: self.span,
            origin: self.origin.clone(),
        }
    }
}

/// The signature a script file exports when it is a declared function.
#[derive(Debug)]
pub struct Signature {
    pub parameters: Option<Vec<Parameter>>,
    pub return_type: Option<String>,
}

/// A span-indexed text: the explanation of a term, or the name of a parameter.
#[derive(Debug)]
pub struct Note {
    pub span: Span,
    pub text: String,
}

/// The inferred type of the term at a span, when one was inferred.
#[derive(Debug)]
pub struct TypeHint {
    pub span: Span,
    pub type_: Option<String>,
}

/// Where the symbol used at a span was defined.
#[derive(Debug)]
pub struct OriginAt {
    pub span: Span,
    pub origin: Origin,
}

/// What the analysis engine found in one file that parsed.
#[derive(Debug)]
pub struct AnalysisResult {
    pub explanations: Vec<Note>,
    pub origins: Vec<OriginAt>,
    pub types: Vec<TypeHint>,
    pub parameters: Vec<Note>,
    /// The variables of the file's scopes, innermost scope first.
    pub variables: Vec<Binding>,
    /// The symbols that the file makes visible to the rest of the project.
    pub globals: Vec<Binding>,
    pub signature: Option<Signature>,
}

} // verus!
