use vstd::prelude::*;

use crate::defs::{DefinitionKind, ResolvedDefinition};

verus! {

/// The read-only lookup façade over resolved-plus-builtin definitions that
/// downstream type checking and code generation consume: a name resolves to
/// the compiled document's own definition first, and to a builtin otherwise.
pub struct TDoc {
    pub name: String,
    pub definitions: Vec<(usize, ResolvedDefinition)>,
    pub builtins: Vec<(usize, ResolvedDefinition)>,
}

/// The first definition bound to a symbol in a list.
pub open spec fn spec_lookup(ds: Seq<(usize, ResolvedDefinition)>, sym: usize) -> Option<int>
    decreases ds.len(),
{
    if ds.len() == 0 {
        None
    } else if ds[0].0 == sym {
        Some(0)
    } else {
        match spec_lookup(ds.drop_first(), sym) {
            None => None,
            Some(i) => Some(i + 1),
        }
    }
}

fn lookup_in(ds: &Vec<(usize, ResolvedDefinition)>, sym: usize) -> (r: Option<
    &ResolvedDefinition,
>)
    ensures
        match spec_lookup(ds@, sym) {
            Some(i) => r matches Some(d) && d == &ds@[i].1,
            None => r is None,
        },
{
    let n = ds.len();
    let mut i: usize = 0;
    proof {
        assert(ds@.subrange(0, n as int) =~= ds@);
    }
    while i < n
        invariant
            n == ds@.len(),
            i <= n,
            ({
                let whole = spec_lookup(ds@, sym);
                let rest = spec_lookup(ds@.subrange(i as int, n as int), sym);
                match (whole, rest) {
                    (Some(w), Some(q)) => w == i + q,
                    (None, None) => true,
                    _ => false,
                }
            }),
        decreases n - i,
    {
        let ghost rem = ds@.subrange(i as int, n as int);
        proof {
            assert(rem[0] == ds@[i as int]);
            assert(rem.drop_first() =~= ds@.subrange(i + 1 as int, n as int));
        }
        if ds[i].0 == sym {
            return Some(&ds[i].1);
        }
        i += 1;
    }
    proof {
        assert(ds@.subrange(n as int, n as int) =~= Seq::<(usize, ResolvedDefinition)>::empty());
    }
    None
}

impl TDoc {
    /// The definition a symbol resolves to: the document's own first, a
    /// builtin as the fallback.
    pub fn get(&self, sym: usize) -> (r: Option<&ResolvedDefinition>)
        ensures
            match spec_lookup(self.definitions@, sym) {
                Some(i) => r matches Some(d) && d == &self.definitions@[i].1,
                None => match spec_lookup(self.builtins@, sym) {
                    Some(i) => r matches Some(d) && d == &self.builtins@[i].1,
                    None => r is None,
                },
            },
    {
        match lookup_in(&self.definitions, sym) {
            Some(d) => Some(d),
            None => lookup_in(&self.builtins, sym),
        }
    }

    /// The symbol's definition when it is a function definition.
    pub fn get_opt_function(&self, sym: usize) -> (r: Option<&ResolvedDefinition>)
        ensures
            match r {
                Some(d) => d.kind == DefinitionKind::Function,
                None => true,
            },
    {
        match self.get(sym) {
            Some(d) if matches!(d.kind, DefinitionKind::Function) => Some(d),
            _ => None,
        }
    }

    /// The symbol's definition when it is a record definition.
    pub fn get_opt_record(&self, sym: usize) -> (r: Option<&ResolvedDefinition>)
        ensures
            match r {
                Some(d) => d.kind == DefinitionKind::Record,
                None => true,
            },
    {
        match self.get(sym) {
            Some(d) if matches!(d.kind, DefinitionKind::Record) => Some(d),
            _ => None,
        }
    }

    /// The symbol's definition when it is a component definition.
    pub fn get_opt_component(&self, sym: usize) -> (r: Option<&ResolvedDefinition>)
        ensures
            match r {
                Some(d) => d.kind == DefinitionKind::Component,
                None => true,
            },
    {
        match self.get(sym) {
            Some(d) if matches!(d.kind, DefinitionKind::Component) => Some(d),
            _ => None,
        }
    }

    /// The name of the document this façade reads for.
    pub fn name(&self) -> (r: &str)
        ensures
            r@ == self.name@,
    {
        self.name.as_str()
    }
}

} // verus!
