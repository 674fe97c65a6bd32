//! The parts of a project that are compiled: scripts, and objects with
//! their events, which are lists of actions.

use vstd::prelude::*;

verus! {

/// A script: its name and its source text.
#[derive(Debug)]
pub struct Script {
    pub name: Vec<u8>,
    pub body: Vec<u8>,
}

/// What an action does.
#[derive(Clone, Copy, Debug, PartialEq, Eq, Structural)]
pub enum ActionKind {
    /// Calls a function with the arguments.
    Normal,
    /// Opens a block of actions.
    Begin,
    /// Closes a block of actions.
    End,
    /// Stands before the action that is run when a question is denied.
    Else,
    /// Ends the event.
    Exit,
    /// Repeats the next action; the first argument tells how often.
    Repeat,
    /// Sets the variable of the first argument to the second.
    Variable,
    /// Runs the code of the first argument.
    Code,
}

/// To whom an action applies.
#[derive(Clone, Copy, Debug, PartialEq, Eq, Structural)]
pub enum Target {
    Own,
    Other,
    Object(u32),
}

/// One step of an event.
#[derive(Debug)]
pub struct Action {
    pub kind: ActionKind,
    /// Whether the function is a question that decides over the next
    /// action.
    pub question: bool,
    /// Whether the answer to the question is turned round.
    pub negate: bool,
    /// Whether the value of a variable is added to, not replaced.
    pub relative: bool,
    pub target: Target,
    /// The name of the function.
    pub name: Vec<u8>,
    /// The texts of the arguments.
    pub arguments: Vec<Vec<u8>>,
}

/// An event of an object: its type and kind, and its actions.
#[derive(Debug)]
pub struct Event {
    pub event_type: u32,
    pub event_kind: i32,
    pub actions: Vec<Action>,
}

/// An object: its name and its events.
#[derive(Debug)]
pub struct Object {
    pub name: Vec<u8>,
    pub events: Vec<Event>,
}

/// A project.
#[derive(Debug)]
pub struct Game {
    pub scripts: Vec<Script>,
    pub objects: Vec<Object>,
}

/// An action as plain values.
pub struct Act {
    pub kind: ActionKind,
    pub question: bool,
    pub negate: bool,
    pub relative: bool,
    pub target: Target,
    pub name: Seq<u8>,
    pub arguments: Seq<Seq<u8>>,
}

impl Action {
    pub open spec fn view(&self) -> Act {
        Act {
            kind: self.kind,
            question: self.question,
            negate: self.negate,
            relative: self.relative,
            target: self.target,
            name: self.name@,
            arguments: Seq::new(self.arguments@.len(), |j: int| self.arguments@[j]@),
        }
    }
}

/// A list of actions as plain values.
pub open spec fn acts(actions: Seq<Action>) -> Seq<Act> {
    Seq::new(actions.len(), |i: int| actions[i]@)
}

/// How many offsets the first `j` arguments of an action take up: one for
/// each byte, and one behind each argument.
pub open spec fn width(arguments: Seq<Seq<u8>>, j: int) -> nat
    decreases j,
{
    if j <= 0 {
        0
    } else {
        width(arguments, j - 1) + arguments[j - 1].len() + 1
    }
}

/// The offset at which the arguments of the action with index `i` begin:
/// each action begins where the one before it ends.
pub open spec fn base(list: Seq<Act>, i: int) -> nat
    decreases i,
{
    if i <= 0 {
        0
    } else {
        base(list, i - 1) + width(list[i - 1].arguments, list[i - 1].arguments.len() as int)
    }
}

/// The offsets of a list of actions fit a machine word.
pub open spec fn fits(list: Seq<Act>) -> bool {
    base(list, list.len() as int) < usize::MAX
}

/// The widths of the arguments rise with their number.
pub proof fn lemma_width_rises(arguments: Seq<Seq<u8>>, j: int, k: int)
    requires
        0 <= j <= k,
    ensures
        width(arguments, j) <= width(arguments, k),
    decreases k - j,
{
    if j < k {
        lemma_width_rises(arguments, j, k - 1);
    }
}

/// The offsets of the actions rise with their index.
pub proof fn lemma_base_rises(list: Seq<Act>, i: int, k: int)
    requires
        0 <= i <= k,
    ensures
        base(list, i) <= base(list, k),
    decreases k - i,
{
    if i < k {
        lemma_base_rises(list, i, k - 1);
    }
}

} // verus!
