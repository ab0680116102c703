use vstd::prelude::*;
use crate::frame::{Bindings, Frame};
use crate::json::JsonView;
use crate::value::Value;

verus! {

/// A built-in used in a binding mode whose solutions cannot be enumerated.
#[derive(Debug, Clone, Copy, PartialEq, Eq, Structural)]
pub enum QueryError {
    UnboundedSolutionSpace,
}

/// An argument of a built-in: a free variable, or a value.
#[derive(Debug)]
pub enum VarOrValue {
    Var(String),
    Value(Value),
}

/// The mathematical value of a built-in argument.
pub enum Arg {
    Free(Seq<char>),
    Bound(JsonView),
}

impl View for VarOrValue {
    type V = Arg;

    open spec fn view(&self) -> Arg {
        match self {
            VarOrValue::Var(n) => Arg::Free(n@),
            VarOrValue::Value(v) => Arg::Bound(v.json@),
        }
    }
}

/// An argument as a frame sees it: a variable that the frame binds is bound.
pub open spec fn resolve(a: Arg, f: Bindings) -> Arg {
    match a {
        Arg::Free(n) => if f.contains_key(n) {
            Arg::Bound(f[n])
        } else {
            Arg::Free(n)
        },
        Arg::Bound(v) => Arg::Bound(v),
    }
}

pub open spec fn args_view(a: Seq<VarOrValue>) -> Seq<Arg> {
    a.map_values(|x: VarOrValue| x@)
}

impl VarOrValue {
    pub open spec fn wf(&self) -> bool {
        match self {
            VarOrValue::Value(v) => v.wf(),
            _ => true,
        }
    }

    pub fn is_var(&self) -> (r: bool)
        ensures
            r == self@ is Free,
    {
        match self {
            VarOrValue::Value(_) => false,
            _ => true,
        }
    }

    pub fn as_value(&self) -> (r: Option<&Value>)
        ensures
            match self {
                VarOrValue::Value(x) => r == Some(x),
                VarOrValue::Var(_) => r is None,
            },
    {
        match self {
            VarOrValue::Value(x) => Some(x),
            _ => None,
        }
    }

    pub fn get_var_name(&self) -> (r: Option<&String>)
        ensures
            match self@ {
                Arg::Free(n) => r.is_some() && r.unwrap()@ == n,
                _ => r.is_none(),
            },
    {
        match self {
            VarOrValue::Value(_) => None,
            VarOrValue::Var(x) => Some(x),
        }
    }

    /// This argument as `frame` sees it.
    pub fn match_in_frame(&self, frame: &Frame) -> (r: VarOrValue)
        requires
            frame.wf(),
            self.wf(),
        ensures
            r@ == resolve(self@, frame@),
            r.wf(),
    {
        match self {
            VarOrValue::Var(x) => match frame.get(x.as_str()) {
                Some(y) => VarOrValue::Value(y.clone()),
                None => VarOrValue::Var(x.clone()),
            },
            VarOrValue::Value(v) => VarOrValue::Value(v.clone()),
        }
    }
}

/// The built-in relations.
#[derive(Debug, Clone, Copy, PartialEq, Eq, Structural)]
pub enum Builtin {
    SplitBy,
}

/// The table of built-ins by name, built once and then only read.
pub struct GenericQueries {
    pub entries: Vec<(String, Builtin)>,
}

/// The first built-in registered under `name`.
pub open spec fn builtin_of(entries: Seq<(Seq<char>, Builtin)>, name: Seq<char>) -> Option<Builtin>
    decreases entries.len(),
{
    if entries.len() == 0 {
        None
    } else if entries[0].0 == name {
        Some(entries[0].1)
    } else {
        builtin_of(entries.drop_first(), name)
    }
}

impl GenericQueries {
    pub open spec fn table(&self) -> Seq<(Seq<char>, Builtin)> {
        self.entries@.map_values(|e: (String, Builtin)| (e.0@, e.1))
    }

    /// An empty table.
    pub fn new() -> (r: GenericQueries)
        ensures
            r.table() == Seq::<(Seq<char>, Builtin)>::empty(),
    {
        let r = GenericQueries { entries: Vec::new() };
        assert(r.table() =~= Seq::<(Seq<char>, Builtin)>::empty());
        r
    }

    /// The table of the built-ins this library provides.
    pub fn with_builtins() -> (r: GenericQueries)
        ensures
            r.table() == seq![("split_by"@, Builtin::SplitBy)],
    {
        let mut entries: Vec<(String, Builtin)> = Vec::new();
        entries.push(("split_by".to_owned(), Builtin::SplitBy));
        let r = GenericQueries { entries };
        assert(r.table() =~= seq![("split_by"@, Builtin::SplitBy)]);
        r
    }

    /// The built-in registered under `name`.
    pub fn get(&self, name: &str) -> (r: Option<Builtin>)
        ensures
            r == builtin_of(self.table(), name@),
    {
        let ghost t = self.table();
        let wanted = name.to_owned();
        let mut i: usize = 0;
        assert(t.subrange(0, t.len() as int) =~= t);
        while i < self.entries.len()
            invariant
                t == self.table(),
                wanted@ == name@,
                i <= self.entries.len(),
                builtin_of(t, name@) == builtin_of(t.subrange(i as int, t.len() as int), name@),
            decreases self.entries.len() - i,
        {
            assert(t.subrange(i as int, t.len() as int).drop_first() =~= t.subrange(i + 1, t.len() as int));
            if self.entries[i].0 == wanted {
                return Some(self.entries[i].1);
            }
            i = i + 1;
        }
        None
    }
}

impl Default for GenericQueries {
    /// The table of the built-ins this library provides.
    fn default() -> (r: GenericQueries)
        ensures
            r.table() == seq![("split_by"@, Builtin::SplitBy)],
    {
        GenericQueries::with_builtins()
    }
}

} // verus!
