//! The line index: from a byte offset to an action, an argument, a line
//! and a column.
//!
//! A source text is one part, whose offsets begin at 0. The arguments of
//! the actions of an event are one part each; their offsets follow one
//! another, with one offset between two parts, so that the end of each
//! argument has an offset of its own.

use vstd::prelude::*;
use crate::front::lexer::NEWLINE;
use crate::project::{
    acts, base, lemma_base_rises, lemma_width_rises, width, Act, Action, ActionKind,
};

verus! {

/// Where a byte stands: in which action and argument of an event, and in
/// which line and column of a text. Actions, arguments, lines and columns
/// are counted from one.
#[derive(Clone, Copy, Debug, PartialEq, Eq, Structural)]
pub struct Position {
    pub action: Option<usize>,
    pub argument: Option<usize>,
    pub line: Option<usize>,
    pub column: Option<usize>,
}

/// A part of the offsets, as plain values: where it begins, to which
/// action and argument it belongs, whether it is code, and at which offsets
/// its lines begin, the first of which is the part's own.
pub struct Part {
    pub start: usize,
    pub action: Option<usize>,
    pub argument: Option<usize>,
    pub code: bool,
    pub starts: Seq<usize>,
}

/// The offsets at which the lines of the first `n` bytes of `code` begin,
/// where the code itself begins at `start`: the start, and the offset after
/// each line feed.
pub open spec fn starts_within(code: Seq<u8>, start: int, n: nat) -> Seq<usize>
    decreases n,
{
    if n == 0 {
        seq![start as usize]
    } else if code[n - 1] == NEWLINE {
        starts_within(code, start, (n - 1) as nat).push((start + n) as usize)
    } else {
        starts_within(code, start, (n - 1) as nat)
    }
}

/// The index of the last of `starts`, from index `k` on, that is not past
/// `offset`.
pub open spec fn last_start(starts: Seq<usize>, offset: int, k: int) -> int
    decreases starts.len() - k,
{
    if 0 <= k && k + 1 < starts.len() && starts[k + 1] <= offset {
        last_start(starts, offset, k + 1)
    } else {
        k
    }
}

/// The index of the last part, from index `k` on, that does not begin past
/// `offset`.
pub open spec fn last_part(parts: Seq<Part>, offset: int, k: int) -> int
    decreases parts.len() - k,
{
    if 0 <= k && k + 1 < parts.len() && parts[k + 1].start <= offset {
        last_part(parts, offset, k + 1)
    } else {
        k
    }
}

/// The position of `offset`: the action and the argument of the last part
/// that does not begin past it and, if that part is code, the line and the
/// column in it. An offset past the end counts as the end; where there is
/// no part, nothing is known.
pub open spec fn locate(parts: Seq<Part>, length: int, offset: int) -> Position {
    let at = if offset < length {
        offset
    } else {
        length
    };
    if parts.len() == 0 {
        Position { action: None, argument: None, line: None, column: None }
    } else {
        let part = parts[last_part(parts, at, 0)];
        if part.code {
            let k = last_start(part.starts, at, 0);
            Position {
                action: part.action,
                argument: part.argument,
                line: Some((k + 1) as usize),
                column: Some((at - part.starts[k] + 1) as usize),
            }
        } else {
            Position { action: part.action, argument: part.argument, line: None, column: None }
        }
    }
}

/// The starts are in strictly rising order, from `start` to at most
/// `length`.
pub open spec fn rising(starts: Seq<usize>, start: int, length: int) -> bool {
    &&& starts.len() >= 1
    &&& starts[0] == start
    &&& starts.len() <= length - start + 1
    &&& forall|i: int, j: int| 0 <= i < j < starts.len() ==> starts[i] < starts[j]
    &&& forall|i: int| 0 <= i < starts.len() ==> starts[i] <= length
}

/// The parts begin at 0 and in rising order within the length, and the
/// lines of each begin in rising order.
pub open spec fn well_formed(parts: Seq<Part>, length: int) -> bool {
    &&& length < usize::MAX
    &&& parts.len() > 0 ==> parts[0].start == 0
    &&& forall|i: int, j: int| 0 <= i < j < parts.len() ==> parts[i].start <= parts[j].start
    &&& forall|i: int|
        0 <= i < parts.len() ==> (#[trigger] parts[i]).start <= length && rising(
            parts[i].starts,
            parts[i].start as int,
            length,
        )
}

/// The line starts of a text are in rising order.
pub proof fn lemma_starts_rising(code: Seq<u8>, start: int, n: nat)
    requires
        n <= code.len(),
        0 <= start,
        start + code.len() <= usize::MAX,
    ensures
        rising(starts_within(code, start, n), start, start + n),
    decreases n,
{
    if n > 0 {
        lemma_starts_rising(code, start, (n - 1) as nat);
    }
}

/// What belongs to one part of the offsets.
#[derive(Debug)]
struct Segment {
    start: usize,
    action: Option<usize>,
    argument: Option<usize>,
    code: bool,
    starts: Vec<usize>,
}

impl Segment {
    spec fn view(&self) -> Part {
        Part {
            start: self.start,
            action: self.action,
            argument: self.argument,
            code: self.code,
            starts: self.starts@,
        }
    }
}

/// The offsets at which the lines of a text begin that itself begins at
/// `start`.
fn line_starts(code: &[u8], start: usize) -> (r: Vec<usize>)
    requires
        start + code@.len() < usize::MAX,
    ensures
        r@ == starts_within(code@, start as int, code@.len()),
{
    let mut starts: Vec<usize> = Vec::new();
    starts.push(start);
    let mut i: usize = 0;
    while i < code.len()
        invariant
            i <= code@.len(),
            start + code@.len() < usize::MAX,
            starts@ == starts_within(code@, start as int, i as nat),
        decreases code@.len() - i,
    {
        if code[i] == NEWLINE {
            starts.push(start + i + 1);
        }
        i = i + 1;
    }
    starts
}

/// The line index of a source text or of the actions of an event.
#[derive(Debug)]
pub struct Lines {
    segments: Vec<Segment>,
    length: usize,
}

/// The part of the argument with index `j` of the action with index `i`.
/// The first argument of an action that runs code is code.
pub open spec fn part_of(list: Seq<Act>, i: int, j: int) -> Part {
    let start = base(list, i) + width(list[i].arguments, j);
    let code = list[i].kind == ActionKind::Code && j == 0;
    Part {
        start: start as usize,
        action: Some((i + 1) as usize),
        argument: if code {
            None
        } else {
            Some((j + 1) as usize)
        },
        code,
        starts: if code {
            starts_within(list[i].arguments[j], start as int, list[i].arguments[j].len())
        } else {
            seq![start as usize]
        },
    }
}

/// The parts of the first `j` arguments of the action with index `i`,
/// behind those of the actions before it.
pub open spec fn parts_of(list: Seq<Act>, i: int, j: int) -> Seq<Part>
    decreases i, j,
{
    if i < 0 {
        Seq::empty()
    } else if j <= 0 {
        if i == 0 {
            Seq::empty()
        } else {
            parts_of(list, i - 1, list[i - 1].arguments.len() as int)
        }
    } else {
        parts_of(list, i, j - 1).push(part_of(list, i, j - 1))
    }
}

impl Lines {
    /// The parts of the offsets.
    pub closed spec fn parts(&self) -> Seq<Part> {
        Seq::new(self.segments@.len(), |i: int| self.segments@[i]@)
    }

    /// The offset of the end.
    pub closed spec fn length(&self) -> int {
        self.length as int
    }

    /// The parts are well formed.
    pub open spec fn wf(&self) -> bool {
        well_formed(self.parts(), self.length())
    }

    /// The position of a byte offset.
    pub open spec fn position(&self, offset: usize) -> Position {
        locate(self.parts(), self.length(), offset as int)
    }

    /// The line index of a source text: one part, which is code.
    pub fn from_code(code: &[u8]) -> (r: Lines)
        requires
            code@.len() < usize::MAX,
        ensures
            r.wf(),
            r.parts() == seq![
                Part {
                    start: 0,
                    action: None,
                    argument: None,
                    code: true,
                    starts: starts_within(code@, 0, code@.len()),
                },
            ],
            r.length() == code@.len(),
    {
        let starts = line_starts(code, 0);
        let mut segments: Vec<Segment> = Vec::new();
        segments.push(Segment { start: 0, action: None, argument: None, code: true, starts });
        let r = Lines { segments, length: code.len() };
        proof {
            lemma_starts_rising(code@, 0, code@.len());
            assert(r.parts() =~= seq![
                Part {
                    start: 0,
                    action: None,
                    argument: None,
                    code: true,
                    starts: starts_within(code@, 0, code@.len()),
                },
            ]);
        }
        r
    }

    /// The line index of the actions of an event: one part for each
    /// argument of each action, in their order.
    pub fn from_actions(actions: &[Action]) -> (r: Lines)
        requires
            crate::project::fits(acts(actions@)),
        ensures
            r.wf(),
            r.parts() == parts_of(acts(actions@), actions@.len() as int, 0),
            r.length() == base(acts(actions@), actions@.len() as int),
    {
        let ghost list = acts(actions@);
        let mut segments: Vec<Segment> = Vec::new();
        let mut offset: usize = 0;
        let count = actions.len();
        let mut i: usize = 0;
        while i < count
            invariant
                i <= count == actions@.len(),
                list == acts(actions@),
                crate::project::fits(list),
                offset == base(list, i as int),
                segments@.len() == 0 ==> offset == 0,
                Seq::new(segments@.len(), |k: int| segments@[k]@) =~= parts_of(list, i as int, 0),
                well_formed(Seq::new(segments@.len(), |k: int| segments@[k]@), offset as int),
            decreases count - i,
        {
            let action = &actions[i];
            let arity = action.arguments.len();
            let ghost arguments = list[i as int].arguments;
            proof {
                lemma_base_rises(list, i + 1, actions@.len() as int);
            }
            let mut j: usize = 0;
            let ghost begin = offset;
            while j < arity
                invariant
                    i < count == actions@.len(),
                    j <= arity == action.arguments@.len(),
                    list == acts(actions@),
                    action == actions@[i as int],
                    arguments == list[i as int].arguments,
                    arguments.len() == action.arguments@.len(),
                    begin == base(list, i as int),
                    begin + width(arguments, arguments.len() as int) < usize::MAX,
                    offset == begin + width(arguments, j as int),
                    segments@.len() == 0 ==> offset == 0,
                    Seq::new(segments@.len(), |k: int| segments@[k]@) =~= parts_of(
                        list,
                        i as int,
                        j as int,
                    ),
                    well_formed(Seq::new(segments@.len(), |k: int| segments@[k]@), offset as int),
                decreases arity - j,
            {
                let text = action.arguments[j].as_slice();
                proof {
                    assert(text@ == arguments[j as int]);
                    lemma_width_rises(arguments, j + 1, arguments.len() as int);
                    lemma_starts_rising(text@, offset as int, text@.len());
                }
                let code = matches!(action.kind, ActionKind::Code) && j == 0;
                let starts = if code {
                    line_starts(text, offset)
                } else {
                    let mut one: Vec<usize> = Vec::new();
                    one.push(offset);
                    one
                };
                let ghost before = Seq::new(segments@.len(), |k: int| segments@[k]@);
                segments.push(
                    Segment {
                        start: offset,
                        action: Some(i + 1),
                        argument: if code {
                            None
                        } else {
                            Some(j + 1)
                        },
                        code,
                        starts,
                    },
                );
                offset = offset + text.len() + 1;
                proof {
                    let after = Seq::new(segments@.len(), |k: int| segments@[k]@);
                    assert(after =~= before.push(part_of(list, i as int, j as int)));
                    assert forall|a: int, b: int| 0 <= a < b < after.len() implies after[a].start
                        <= after[b].start by {
                        if b == after.len() - 1 && a < b {
                            assert(after[a] == before[a]);
                        } else {
                            assert(after[a] == before[a]);
                            assert(after[b] == before[b]);
                        }
                    }
                    assert forall|a: int| 0 <= a < after.len() implies (#[trigger] after[a]).start
                        <= offset && rising(after[a].starts, after[a].start as int, offset as int) by {
                        if a < after.len() - 1 {
                            assert(after[a] == before[a]);
                        }
                    }
                    if before.len() > 0 {
                        assert(after[0] == before[0]);
                    }
                }
                j = j + 1;
            }
            i = i + 1;
        }
        let r = Lines { segments, length: offset };
        assert(r.parts() =~= parts_of(list, actions@.len() as int, 0));
        r
    }

    /// The action, the argument, the line and the column of a byte offset.
    pub fn get_position(&self, offset: usize) -> (r: Position)
        requires
            self.wf(),
        ensures
            r == self.position(offset),
    {
        let at = if offset < self.length {
            offset
        } else {
            self.length
        };
        if self.segments.len() == 0 {
            return Position { action: None, argument: None, line: None, column: None };
        }
        let mut p: usize = 0;
        while self.segments.len() - p > 1 && self.segments[p + 1].start <= at
            invariant
                self.wf(),
                p < self.segments@.len(),
                self.segments@[p as int].start <= at,
                last_part(self.parts(), at as int, 0) == last_part(self.parts(), at as int, p as int),
            decreases self.segments@.len() - p,
        {
            assert(self.parts()[p + 1].start == self.segments@[p + 1].start);
            p = p + 1;
        }
        assert(self.parts()[p as int] == self.segments@[p as int]@);
        assert(p + 1 < self.segments@.len() ==> self.parts()[p + 1].start
            == self.segments@[p + 1].start);
        let segment = &self.segments[p];
        if !segment.code {
            return Position {
                action: segment.action,
                argument: segment.argument,
                line: None,
                column: None,
            };
        }
        let mut k: usize = 0;
        while segment.starts.len() - k > 1 && segment.starts[k + 1] <= at
            invariant
                rising(segment.starts@, segment.start as int, self.length as int),
                segment.start <= at <= self.length < usize::MAX,
                k < segment.starts@.len(),
                segment.starts@[k as int] <= at,
                last_start(segment.starts@, at as int, 0) == last_start(
                    segment.starts@,
                    at as int,
                    k as int,
                ),
            decreases segment.starts@.len() - k,
        {
            k = k + 1;
        }
        Position {
            action: segment.action,
            argument: segment.argument,
            line: Some(k + 1),
            column: Some(at - segment.starts[k] + 1),
        }
    }
}

impl Default for Lines {
    /// The line index of the empty text.
    fn default() -> (r: Lines)
        ensures
            r.wf(),
            r.length() == 0,
            r.parts() == seq![
                Part { start: 0, action: None, argument: None, code: true, starts: seq![0usize] },
            ],
    {
        let mut starts: Vec<usize> = Vec::new();
        starts.push(0);
        let mut segments: Vec<Segment> = Vec::new();
        segments.push(Segment { start: 0, action: None, argument: None, code: true, starts });
        let r = Lines { segments, length: 0 };
        assert(r.parts() =~= seq![
            Part { start: 0, action: None, argument: None, code: true, starts: seq![0usize] },
        ]);
        r
    }
}

} // verus!
