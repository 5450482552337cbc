//! A project namespace: bindings with pairwise distinct names, where a
//! later binding of a name replaces the earlier one.
use vstd::prelude::*;
use crate::model::{Binding, BindingModel, bindings_model};
use crate::names::{names_match, eq_ignore_case};

verus! {

/// The index of the first binding of `s` whose name matches `name`.
pub open spec fn position_of(s: Seq<BindingModel>, name: Seq<char>) -> Option<int>
    decreases s.len(),
{
    if s.len() == 0 {
        None
    } else {
        match position_of(s.drop_last(), name) {
            Some(i) => Some(i),
            None => if names_match(s.last().name@, name) {
                Some(s.len() - 1)
            } else {
                None
            },
        }
    }
}

/// Binds `b` in `s`: replaces the binding of the same name, or appends.
pub open spec fn insert_model(s: Seq<BindingModel>, b: BindingModel) -> Seq<BindingModel> {
    match position_of(s, b.name@) {
        Some(i) => s.update(i, b),
        None => s.push(b),
    }
}

/// Binds each of `adds` in order, so that the last of a name wins.
pub open spec fn merge_model(s: Seq<BindingModel>, adds: Seq<BindingModel>) -> Seq<BindingModel>
    decreases adds.len(),
{
    if adds.len() == 0 {
        s
    } else {
        insert_model(merge_model(s, adds.drop_last()), adds.last())
    }
}

/// What `name` is bound to in `s`.
pub open spec fn lookup_model(s: Seq<BindingModel>, name: Seq<char>) -> Option<BindingModel> {
    match position_of(s, name) {
        Some(i) => Some(s[i]),
        None => None,
    }
}

pub proof fn lemma_position_bounds(s: Seq<BindingModel>, name: Seq<char>)
    ensures
        match position_of(s, name) {
            Some(i) => 0 <= i < s.len() && names_match(s[i].name@, name) && forall|k: int|
                0 <= k < i ==> !names_match(#[trigger] s[k].name@, name),
            None => forall|k: int| 0 <= k < s.len() ==> !names_match(#[trigger] s[k].name@, name),
        },
    decreases s.len(),
{
    if s.len() > 0 {
        lemma_position_bounds(s.drop_last(), name);
        match position_of(s.drop_last(), name) {
            Some(i) => {
                assert forall|k: int| 0 <= k < i implies !names_match(#[trigger] s[k].name@, name) by {
                    assert(s[k] == s.drop_last()[k]);
                }
            },
            None => {
                assert forall|k: int| 0 <= k < s.len() - 1 implies !names_match(
                    #[trigger] s[k].name@,
                    name,
                ) by {
                    assert(s[k] == s.drop_last()[k]);
                }
            },
        }
    }
}

/// A first match found by a scan from the front is what `position_of` gives.
pub proof fn lemma_position_first(s: Seq<BindingModel>, name: Seq<char>, i: int)
    requires
        0 <= i < s.len(),
        names_match(s[i].name@, name),
        forall|k: int| 0 <= k < i ==> !names_match(#[trigger] s[k].name@, name),
    ensures
        position_of(s, name) == Some(i),
    decreases s.len(),
{
    lemma_position_bounds(s, name);
    if i < s.len() - 1 {
        lemma_position_first(s.drop_last(), name, i);
    } else {
        lemma_position_bounds(s.drop_last(), name);
        assert forall|k: int| 0 <= k < s.len() - 1 implies !names_match(
            #[trigger] s.drop_last()[k].name@,
            name,
        ) by {
            assert(s[k] == s.drop_last()[k]);
        }
    }
}

/// The index in `v` of the binding named `name`, scanning from the front.
pub fn find_binding(v: &Vec<Binding>, name: &String) -> (r: Option<usize>)
    ensures
        match r {
            Some(i) => i < v@.len() && position_of(bindings_model(v@), name@) == Some(i as int),
            None => position_of(bindings_model(v@), name@) == None::<int>,
        },
{
    let ghost m = bindings_model(v@);
    let mut i: usize = 0;
    while i < v.len()
        invariant
            i <= v.len(),
            m == bindings_model(v@),
            forall|k: int| 0 <= k < i ==> !names_match(#[trigger] m[k].name@, name@),
        decreases v.len() - i,
    {
        if eq_ignore_case(v[i].name.as_str(), name.as_str()) {
            proof {
                lemma_position_first(m, name@, i as int);
            }
            return Some(i);
        }
        i = i + 1;
    }
    proof {
        lemma_position_bounds(m, name@);
        if position_of(m, name@) is Some {
            let j = position_of(m, name@)->Some_0;
            assert(names_match(m[j].name@, name@));
        }
    }
    None
}

/// Binds `b` in `ns`, replacing a binding of the same name.
pub fn insert_binding(ns: &mut Vec<Binding>, b: Binding)
    ensures
        bindings_model(final(ns)@) == insert_model(bindings_model(old(ns)@), b@),
{
    let ghost before = bindings_model(ns@);
    let ghost bm = b@;
    match find_binding(ns, &b.name) {
        Some(i) => {
            ns.set(i, b);
            assert(bindings_model(ns@) =~= before.update(i as int, bm));
        },
        None => {
            ns.push(b);
            assert(bindings_model(ns@) =~= before.push(bm));
        },
    }
}

/// Binds a copy of each of `adds` in `ns`, in order.
pub fn merge_bindings(ns: &mut Vec<Binding>, adds: &Vec<Binding>)
    ensures
        bindings_model(final(ns)@) == merge_model(bindings_model(old(ns)@), bindings_model(adds@)),
{
    let ghost start = bindings_model(ns@);
    let mut i: usize = 0;
    while i < adds.len()
        invariant
            i <= adds.len(),
            bindings_model(ns@) == merge_model(start, bindings_model(adds@).subrange(0, i as int)),
        decreases adds.len() - i,
    {
        let b = adds[i].clone();
        insert_binding(ns, b);
        proof {
            let a = bindings_model(adds@);
            assert(a.subrange(0, i + 1).drop_last() =~= a.subrange(0, i as int));
        }
        i = i + 1;
    }
    assert(bindings_model(adds@).subrange(0, adds.len() as int) =~= bindings_model(adds@));
}

/// What `name` is bound to in `ns`.
pub fn lookup<'a>(ns: &'a Vec<Binding>, name: &String) -> (r: Option<&'a Binding>)
    ensures
        match r {
            Some(b) => lookup_model(bindings_model(ns@), name@) == Some(b@),
            None => lookup_model(bindings_model(ns@), name@) == None::<BindingModel>,
        },
{
    match find_binding(ns, name) {
        Some(i) => Some(&ns[i]),
        None => None,
    }
}

} // verus!
