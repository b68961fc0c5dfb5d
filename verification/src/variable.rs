use vstd::prelude::*;

verus! {

/// One named cell of a formula's symbol table.
///
/// Every occurrence of a letter in a formula refers to the single cell of
/// that name, so changing `value` or `set` here changes it for all of them.
#[derive(Debug, PartialEq, Eq)]
pub struct Variable {
    pub name: char,
    pub value: bool,
    pub set: Option<Vec<i32>>,
}

impl Variable {
    /// A fresh cell: false, with no set assigned.
    pub fn new(name: char) -> (r: Self)
        ensures
            r.name == name,
            !r.value,
            r.set is None,
    {
        Variable { name, value: false, set: None }
    }
}

impl Clone for Variable {
    fn clone(&self) -> (r: Self)
        ensures
            r.name == self.name,
            r.value == self.value,
            r.set is Some == self.set is Some,
            r.set is Some ==> r.set->0@ == self.set->0@,
    {
        let set = match &self.set {
            Some(values) => {
                let copy = values.clone();
                Some(copy)
            },
            None => None,
        };
        Variable { name: self.name, value: self.value, set }
    }
}

/// The names of a symbol table, in its order.
pub open spec fn names_of(variables: Seq<Variable>) -> Seq<char> {
    Seq::new(variables.len(), |i: int| variables[i].name)
}

/// The truth value that `variables` gives to the letter `name`: that of the
/// first cell of that name, and false when there is none.
pub open spec fn bound_value(variables: Seq<Variable>, name: char) -> bool
    decreases variables.len(),
{
    if variables.len() == 0 {
        false
    } else if variables[0].name == name {
        variables[0].value
    } else {
        bound_value(variables.drop_first(), name)
    }
}

/// The assignment that makes every letter false.
pub open spec fn all_false() -> spec_fn(char) -> bool {
    |name: char| false
}

/// The assignment that a symbol table denotes.
pub open spec fn assignment(variables: Seq<Variable>) -> spec_fn(char) -> bool {
    |name: char| bound_value(variables, name)
}

/// The set that `variables` assigns to the letter `name`: that of the first
/// cell of that name, and `None` when there is no cell or it has no set.
pub open spec fn bound_set(variables: Seq<Variable>, name: char) -> Option<Seq<i32>>
    decreases variables.len(),
{
    if variables.len() == 0 {
        None
    } else if variables[0].name == name {
        match variables[0].set {
            Some(values) => Some(values@),
            None => None,
        }
    } else {
        bound_set(variables.drop_first(), name)
    }
}

/// The assignment that makes a letter true when `x` belongs to the set that
/// `variables` assigns to it.
pub open spec fn membership(variables: Seq<Variable>, x: i32) -> spec_fn(char) -> bool {
    |name: char| bound_set(variables, name) matches Some(values) && values.contains(x)
}

/// The position of the first cell named `name`, if there is one.
pub fn find_variable(variables: &Vec<Variable>, name: char) -> (r: Option<usize>)
    ensures
        match r {
            Some(i) => {
                &&& i < variables.len()
                &&& variables[i as int].name == name
                &&& forall|j: int| 0 <= j < i ==> variables[j].name != name
                &&& bound_value(variables@, name) == variables[i as int].value
                &&& bound_set(variables@, name) == match variables[i as int].set {
                    Some(values) => Some(values@),
                    None => None,
                }
            },
            None => {
                &&& forall|j: int| 0 <= j < variables.len() ==> variables[j].name != name
                &&& !bound_value(variables@, name)
                &&& bound_set(variables@, name) is None
            },
        },
{
    let mut i: usize = 0;
    assert(variables@.skip(0) =~= variables@);
    while i < variables.len()
        invariant
            i <= variables.len(),
            forall|j: int| 0 <= j < i ==> variables[j].name != name,
            bound_value(variables@, name) == bound_value(variables@.skip(i as int), name),
            bound_set(variables@, name) == bound_set(variables@.skip(i as int), name),
        decreases variables.len() - i,
    {
        let ghost rest = variables@.skip(i as int);
        assert(rest.drop_first() =~= variables@.skip(i + 1));
        if variables[i].name == name {
            return Some(i);
        }
        i += 1;
    }
    None
}

} // verus!
