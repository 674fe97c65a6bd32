//! What a build hands to the virtual machine and to its error reports.

use vstd::prelude::*;
use crate::front::ast::Stmt;
use crate::front::lines::Lines;
use crate::front::Span;
use crate::symbol::Symbol;
use crate::Function;

verus! {

/// What a name stands for in code.
#[derive(Clone, Copy, Debug, PartialEq, Eq, Structural)]
pub enum Prototype {
    Script { id: i32 },
    Native { arity: usize, variadic: bool },
    Member,
}

/// The syntax tree of one function.
#[derive(Debug)]
pub struct Unit {
    pub program: (Stmt, Span),
}

/// What a build hands to the virtual machine: the functions, and for each
/// name that the engine defines the handle of its native function, of its
/// getter and of its setter.
#[derive(Debug)]
pub struct Assets {
    pub code: Vec<(Function, Unit)>,
    pub api: Vec<(Symbol, usize)>,
    pub get: Vec<(Symbol, usize)>,
    pub set: Vec<(Symbol, usize)>,
}

/// Where the code of one function came from.
#[derive(Debug)]
pub struct Locations {
    pub lines: Lines,
}

/// The names of the scripts and objects of a project, by index, and the
/// locations of each function that was compiled.
#[derive(Debug)]
pub struct Debug {
    pub scripts: Vec<Symbol>,
    pub objects: Vec<Symbol>,
    pub locations: Vec<(Function, Locations)>,
}

/// The index of the first entry, from index `from` on, that belongs to
/// `function`.
pub open spec fn entry_of(
    locations: Seq<(Function, Locations)>,
    function: Function,
    from: int,
) -> Option<int>
    decreases locations.len() - from,
{
    if from < 0 || from >= locations.len() {
        None
    } else if locations[from].0 == function {
        Some(from)
    } else {
        entry_of(locations, function, from + 1)
    }
}

impl Debug {
    /// Whether the function is one that was compiled, and whose script or
    /// object has a name.
    pub open spec fn knows(&self, function: Function) -> bool {
        &&& entry_of(self.locations@, function, 0).is_some()
        &&& match function {
            Function::Event { object_index, .. } => 0 <= object_index < self.objects@.len(),
            Function::Script { id } => 0 <= id < self.scripts@.len(),
        }
    }

    /// The locations of a function.
    pub open spec fn locations_of(&self, function: Function) -> Locations
        recommends
            self.knows(function),
    {
        self.locations@[entry_of(self.locations@, function, 0).unwrap()].1
    }

    /// The entry of a function, if it was compiled.
    pub fn find(&self, function: Function) -> (r: Option<usize>)
        ensures
            match r {
                Some(i) => entry_of(self.locations@, function, 0) == Some(i as int) && i
                    < self.locations@.len(),
                None => entry_of(self.locations@, function, 0).is_none(),
            },
    {
        let mut i: usize = 0;
        while i < self.locations.len()
            invariant
                i <= self.locations@.len(),
                entry_of(self.locations@, function, 0) == entry_of(
                    self.locations@,
                    function,
                    i as int,
                ),
            decreases self.locations@.len() - i,
        {
            if self.locations[i].0 == function {
                return Some(i);
            }
            i = i + 1;
        }
        None
    }

    /// Whether the function is one that was compiled, and whose script or
    /// object has a name.
    pub fn has(&self, function: Function) -> (r: bool)
        ensures
            r == self.knows(function),
    {
        let named = match function {
            Function::Event { object_index, .. } => 0 <= object_index && (object_index as usize)
                < self.objects.len(),
            Function::Script { id } => 0 <= id && (id as usize) < self.scripts.len(),
        };
        named && self.find(function).is_some()
    }
}

} // verus!
