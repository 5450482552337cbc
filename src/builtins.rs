//! The operators that the dialect defines, as the engine describes them.
use vstd::prelude::*;
use crate::names::{names_match, eq_ignore_case};

verus! {

/// One typing of an operator: `left name right -> output`. A nullary
/// operator reads neither side, a unary one only `right`.
#[derive(Debug)]
pub struct Form {
    pub left: String,
    pub right: String,
    pub output: String,
    pub explanation: String,
}

/// A builtin operator and its typings, in the engine's order.
#[derive(Debug)]
pub struct Operator {
    pub name: String,
    pub forms: Vec<Form>,
}

/// The builtin operators, by arity.
#[derive(Debug)]
pub struct Builtins {
    pub nullary: Vec<Operator>,
    pub unary: Vec<Operator>,
    pub binary: Vec<Operator>,
}

pub open spec fn names_one_of(ops: Seq<Operator>, name: Seq<char>) -> bool {
    exists|i: int| 0 <= i < ops.len() && names_match(#[trigger] ops[i].name@, name)
}

impl Builtins {
    /// `name` is a builtin operator of some arity.
    pub open spec fn defines(&self, name: Seq<char>) -> bool {
        names_one_of(self.nullary@, name) || names_one_of(self.unary@, name) || names_one_of(
            self.binary@,
            name,
        )
    }

    /// Whether `name` is a builtin operator of some arity.
    pub fn is_builtin(&self, name: &String) -> (r: bool)
        ensures
            r == self.defines(name@),
    {
        any_named(&self.nullary, name) || any_named(&self.unary, name) || any_named(
            &self.binary,
            name,
        )
    }
}

fn any_named(ops: &Vec<Operator>, name: &String) -> (r: bool)
    ensures
        r == names_one_of(ops@, name@),
{
    let mut i: usize = 0;
    while i < ops.len()
        invariant
            i <= ops@.len(),
            forall|k: int| 0 <= k < i ==> !names_match(#[trigger] ops@[k].name@, name@),
        decreases ops.len() - i,
    {
        if eq_ignore_case(ops[i].name.as_str(), name.as_str()) {
            return true;
        }
        i = i + 1;
    }
    false
}

} // verus!
