//! The front end of a compiler for GML, the scripting language of Game
//! Maker projects, and the instances that its programs run on.
//!
//! A build interns the names of a project, gives each name its prototype,
//! and parses every script and every event into a syntax tree; what it
//! finds wrong it reports, one line for each diagnostic. What each step
//! yields is stated by functions on plain values: `front::lexer` for the
//! tokens of a source text, `front::grammar` for the tree of a list of
//! tokens, `front::actions` for the tree of the actions of an event, and
//! `diagnostics` for the lines that are written.

use vstd::prelude::*;

pub mod symbol;
pub mod front;
pub mod vm;
pub mod diagnostics;
pub mod project;
pub mod world;

pub use diagnostics::{display_event, ErrorPrinter, EventDisplay, FunctionDisplay};

use crate::front::ast::{stmt_tree, well_spanned, Stmt};
use crate::front::grammar::{program, Log, Parsed};
use crate::front::lexer::{state_after, stream, Lexer};
use crate::front::actions::{event, ActionParser, Gen};
use crate::front::lines::{parts_of, starts_within, Lines, Part};
use crate::front::parser::Parser;
use crate::front::Span;
use crate::project::{acts, Act, Action, Game};
use crate::diagnostics::rendered;
use crate::project::base;
use crate::symbol::{extends, interned, lemma_interned, Interner, Symbol};
use crate::vm::{Assets, Locations, Prototype, Unit};

verus! {

/// The name of a single executable unit of GML or D&D actions.
#[derive(Clone, Copy, Debug, PartialEq, Eq, Hash, Structural)]
pub enum Function {
    Event { object_index: i32, event_type: u32, event_kind: i32 },
    Script { id: i32 },
}

/// An entity defined by the engine: a native function, by the handle under
/// which the engine keeps it, with its arity and whether it takes more
/// arguments; or a member, by the handles of its getter and its setter.
#[derive(Clone, Copy, Debug, PartialEq, Eq, Structural)]
pub enum Item {
    Native(usize, usize, bool),
    Member(Option<usize>, Option<usize>),
}

/// What compiling one source text gives.
pub struct Compiled {
    /// The syntax tree.
    pub program: (Stmt, Span),
    /// The line index of the source.
    pub locations: Locations,
    /// How many diagnostics were reported.
    pub count: u32,
    /// The interner, with the names of the source.
    pub interner: Interner,
    /// The lines of the diagnostics, after what `write` held.
    pub write: Vec<u8>,
}

/// What the parser builds of a source text with the names `names`: the
/// program of its tokens, with an empty log.
pub open spec fn parsed(code: Seq<u8>, names: Seq<Seq<u8>>) -> Parsed {
    program(stream(code, 0, 0, names), 0, Log { reports: Seq::empty(), count: 0 })
}

/// The names that the interner holds after a source text has been parsed.
pub open spec fn names_after(code: Seq<u8>, names: Seq<Seq<u8>>) -> Seq<Seq<u8>> {
    state_after(code, 0, 0, names, parsed(code, names).used + 1).1
}

/// The parts of the line index of a source text: one part, which is code.
pub open spec fn code_parts(code: Seq<u8>) -> Seq<Part> {
    seq![
        Part {
            start: 0,
            action: None,
            argument: None,
            code: true,
            starts: starts_within(code, 0, code.len()),
        },
    ]
}

/// Parses the program of a source text and reports its diagnostics under
/// `name`.
pub fn compile_program(
    name: FunctionDisplay,
    code: &[u8],
    interner: Interner,
    write: Vec<u8>,
) -> (r: Compiled)
    requires
        code@.len() < usize::MAX,
        interner.wf(),
        name.known(interner@),
    ensures
        extends(r.interner@, interner@),
        r.write@ == write@ + rendered(
            name,
            code_parts(code@),
            code@.len() as int,
            r.interner@,
            parsed(code@, interner@).log.reports,
            0,
            parsed(code@, interner@).log.reports.len() as int,
        ),
        stmt_tree(r.program.0, r.program.1) == parsed(code@, interner@).tree,
        well_spanned(stmt_tree(r.program.0, r.program.1)),
        r.count == parsed(code@, interner@).log.count,
        r.locations.lines.wf(),
        r.locations.lines.parts() == code_parts(code@),
        r.interner.wf(),
        r.interner@ == names_after(code@, interner@),
{
    let lines = Lines::from_code(code);
    let errors = ErrorPrinter::new(name, &lines, write);
    let reader = Lexer::new(code, 0, interner);
    let mut parser = Parser::new(reader, errors);
    proof {
        parser.lemma_wf();
    }
    let program = parser.parse_program();
    proof {
        parser.lemma_wf();
    }
    let (reader, errors) = parser.into_parts();
    let count = errors.count;
    let write = errors.write;
    let interner = reader.into_interner();
    Compiled { program, locations: Locations { lines }, count, interner, write }
}

/// The names and the empty log with which the parsing of an event begins.
pub open spec fn fresh(names: Seq<Seq<u8>>) -> Gen {
    Gen { names, log: Log { reports: Seq::empty(), count: 0 } }
}

/// Parses the actions of an event and reports its diagnostics under
/// `name`.
pub fn compile_event(
    name: FunctionDisplay,
    actions: &[Action],
    interner: Interner,
    write: Vec<u8>,
) -> (r: Compiled)
    requires
        crate::project::fits(acts(actions@)),
        interner.wf(),
        name.known(interner@),
    ensures
        extends(r.interner@, interner@),
        r.write@ == write@ + rendered(
            name,
            parts_of(acts(actions@), actions@.len() as int, 0),
            base(acts(actions@), actions@.len() as int) as int,
            r.interner@,
            event(acts(actions@), fresh(interner@)).1.log.reports,
            0,
            event(acts(actions@), fresh(interner@)).1.log.reports.len() as int,
        ),
        stmt_tree(r.program.0, r.program.1) == event(acts(actions@), fresh(interner@)).0,
        well_spanned(stmt_tree(r.program.0, r.program.1)),
        r.count == event(acts(actions@), fresh(interner@)).1.log.count,
        r.locations.lines.wf(),
        r.locations.lines.parts() == parts_of(acts(actions@), actions@.len() as int, 0),
        r.interner.wf(),
        r.interner@ == event(acts(actions@), fresh(interner@)).1.names,
{
    let lines = Lines::from_actions(actions);
    let errors = ErrorPrinter::new(name, &lines, write);
    let parser = ActionParser::new(actions, interner, errors);
    let (program, interner, errors) = parser.parse_event();
    let count = errors.count;
    let write = errors.write;
    Compiled { program, locations: Locations { lines }, count, interner, write }
}

/// What a build gives: the assets and the debug index, or the number of
/// diagnostics where there are any; the prototypes of the names; the
/// interner; and the lines of the diagnostics.
pub struct Built {
    pub result: Result<(Assets, crate::vm::Debug), u32>,
    pub prototypes: Vec<(Symbol, Prototype)>,
    pub interner: Interner,
    pub write: Vec<u8>,
}

/// A sum of two counts that stops at the largest `u32`.
pub open spec fn plus(a: u32, b: u32) -> u32 {
    if a + b <= u32::MAX {
        (a + b) as u32
    } else {
        u32::MAX
    }
}

/// The names of the first `n` entries of a list, interned one after
/// another: the table of names, and the handles.
pub open spec fn interned_all(names: Seq<Seq<u8>>, list: Seq<Seq<u8>>, n: nat) -> (
    Seq<Seq<u8>>,
    Seq<Symbol>,
)
    decreases n,
{
    if n == 0 {
        (names, Seq::empty())
    } else {
        let before = interned_all(names, list, (n - 1) as nat);
        let one = interned(before.0, list[n - 1]);
        (one.0, before.1.push(Symbol { index: one.1 as usize }))
    }
}

/// The first `n` of a list of source texts, compiled one after another:
/// the table of names, and the sum of the counts of their diagnostics.
pub open spec fn compiled(names: Seq<Seq<u8>>, bodies: Seq<Seq<u8>>, n: nat) -> (
    Seq<Seq<u8>>,
    u32,
)
    decreases n,
{
    if n == 0 {
        (names, 0)
    } else {
        let before = compiled(names, bodies, (n - 1) as nat);
        (
            names_after(bodies[n - 1], before.0),
            plus(before.1, parsed(bodies[n - 1], before.0).log.count),
        )
    }
}

/// The first `n` of a list of events, compiled one after another, from a
/// table of names and a count of diagnostics on: the table, and the count.
pub open spec fn compiled_events(
    names: Seq<Seq<u8>>,
    total: u32,
    events: Seq<(Function, Seq<Act>)>,
    n: nat,
) -> (Seq<Seq<u8>>, u32)
    decreases n,
{
    if n == 0 {
        (names, total)
    } else {
        let before = compiled_events(names, total, events, (n - 1) as nat);
        let one = event(events[n - 1].1, fresh(before.0)).1;
        (one.names, plus(before.1, one.log.count))
    }
}

/// What the first `n` events compile to depends on them alone.
pub proof fn lemma_compiled_events(
    names: Seq<Seq<u8>>,
    total: u32,
    a: Seq<(Function, Seq<Act>)>,
    b: Seq<(Function, Seq<Act>)>,
    n: nat,
)
    requires
        n <= a.len(),
        n <= b.len(),
        forall|k: int| 0 <= k < n ==> a[k] == b[k],
    ensures
        compiled_events(names, total, a, n) == compiled_events(names, total, b, n),
    decreases n,
{
    if n > 0 {
        lemma_compiled_events(names, total, a, b, (n - 1) as nat);
    }
}

/// The lines of the diagnostics of the first `n` of a list of source
/// texts, compiled one after another as the scripts of the given handles.
pub open spec fn written_scripts(
    symbols: Seq<Symbol>,
    names: Seq<Seq<u8>>,
    bodies: Seq<Seq<u8>>,
    n: nat,
) -> Seq<u8>
    decreases n,
{
    if n == 0 {
        Seq::empty()
    } else {
        let before = compiled(names, bodies, (n - 1) as nat).0;
        let body = bodies[n - 1];
        written_scripts(symbols, names, bodies, (n - 1) as nat) + rendered(
            FunctionDisplay::Script { script: symbols[n - 1] },
            code_parts(body),
            body.len() as int,
            names_after(body, before),
            parsed(body, before).log.reports,
            0,
            parsed(body, before).log.reports.len() as int,
        )
    }
}

/// How an event is named in its diagnostics, with the handles of the names
/// of the objects.
pub open spec fn event_name(function: Function, objects: Seq<Symbol>) -> FunctionDisplay {
    match function {
        Function::Event { object_index, event_type, event_kind } => FunctionDisplay::Event {
            object: objects[object_index as int],
            event_type,
            event_kind: EventDisplay::Id(event_kind),
        },
        Function::Script { id } => FunctionDisplay::Script { script: objects[id as int] },
    }
}

/// The lines of the diagnostics of the first `n` of a list of events,
/// compiled one after another.
pub open spec fn written_events(
    objects: Seq<Symbol>,
    names: Seq<Seq<u8>>,
    total: u32,
    events: Seq<(Function, Seq<Act>)>,
    n: nat,
) -> Seq<u8>
    decreases n,
{
    if n == 0 {
        Seq::empty()
    } else {
        let before = compiled_events(names, total, events, (n - 1) as nat).0;
        let list = events[n - 1].1;
        let one = event(list, fresh(before)).1;
        written_events(objects, names, total, events, (n - 1) as nat) + rendered(
            event_name(events[n - 1].0, objects),
            parts_of(list, list.len() as int, 0),
            base(list, list.len() as int) as int,
            one.names,
            one.log.reports,
            0,
            one.log.reports.len() as int,
        )
    }
}

/// What the first `n` events write depends on them alone.
pub proof fn lemma_written_events(
    objects: Seq<Symbol>,
    names: Seq<Seq<u8>>,
    total: u32,
    a: Seq<(Function, Seq<Act>)>,
    b: Seq<(Function, Seq<Act>)>,
    n: nat,
)
    requires
        n <= a.len(),
        n <= b.len(),
        forall|k: int| 0 <= k < n ==> a[k] == b[k],
    ensures
        written_events(objects, names, total, a, n) == written_events(objects, names, total, b, n),
    decreases n,
{
    if n > 0 {
        lemma_written_events(objects, names, total, a, b, (n - 1) as nat);
        lemma_compiled_events(names, total, a, b, (n - 1) as nat);
    }
}

impl Game {
    /// The events of the objects before the one with index `i` and the
    /// first `j` events of that one, each with the function that it is.
    pub open spec fn events(&self, i: int, j: int) -> Seq<(Function, Seq<Act>)>
        decreases i, j,
    {
        if i < 0 {
            Seq::empty()
        } else if j <= 0 {
            if i == 0 {
                Seq::empty()
            } else {
                self.events(i - 1, self.objects@[i - 1].events@.len() as int)
            }
        } else {
            let e = self.objects@[i].events@[j - 1];
            self.events(i, j - 1).push(
                (
                    Function::Event {
                        object_index: i as i32,
                        event_type: e.event_type,
                        event_kind: e.event_kind,
                    },
                    acts(e.actions@),
                ),
            )
        }
    }

    /// All the events, in the order of their objects.
    pub open spec fn all_events(&self) -> Seq<(Function, Seq<Act>)> {
        self.events(self.objects@.len() as int, 0)
    }

    /// The names of the scripts.
    pub open spec fn script_names(&self) -> Seq<Seq<u8>> {
        Seq::new(self.scripts@.len(), |i: int| self.scripts@[i].name@)
    }

    /// The source texts of the scripts.
    pub open spec fn script_bodies(&self) -> Seq<Seq<u8>> {
        Seq::new(self.scripts@.len(), |i: int| self.scripts@[i].body@)
    }

    /// The names of the objects.
    pub open spec fn object_names(&self) -> Seq<Seq<u8>> {
        Seq::new(self.objects@.len(), |i: int| self.objects@[i].name@)
    }

    /// The table of names once the names of the scripts and of the objects
    /// are interned.
    pub open spec fn named(&self, names: Seq<Seq<u8>>) -> Seq<Seq<u8>> {
        interned_all(
            interned_all(names, self.script_names(), self.scripts@.len()).0,
            self.object_names(),
            self.objects@.len(),
        ).0
    }

    /// There are no more scripts than there are script ids, and each
    /// source text is short of the largest machine word.
    pub open spec fn fits(&self) -> bool {
        &&& self.scripts@.len() <= i32::MAX
        &&& self.objects@.len() <= i32::MAX
        &&& forall|i: int|
            0 <= i < self.scripts@.len() ==> (#[trigger] self.scripts@[i]).body@.len()
                < usize::MAX
        &&& forall|i: int, j: int|
            0 <= i < self.objects@.len() && 0 <= j < self.objects@[i].events@.len()
                ==> crate::project::fits(acts((#[trigger] self.objects@[i].events@[j]).actions@))
    }

    /// What the scripts compile to: the table of names and the count of
    /// diagnostics behind the last of them.
    pub open spec fn scripted(&self, names: Seq<Seq<u8>>) -> (Seq<Seq<u8>>, u32) {
        compiled(self.named(names), self.script_bodies(), self.scripts@.len())
    }

    /// The lines of the diagnostics of the scripts and then of the events.
    pub open spec fn output(&self, names: Seq<Seq<u8>>) -> Seq<u8> {
        written_scripts(
            interned_all(names, self.script_names(), self.scripts@.len()).1,
            self.named(names),
            self.script_bodies(),
            self.scripts@.len(),
        ) + written_events(
            interned_all(
                interned_all(names, self.script_names(), self.scripts@.len()).0,
                self.object_names(),
                self.objects@.len(),
            ).1,
            self.scripted(names).0,
            self.scripted(names).1,
            self.all_events(),
            self.all_events().len(),
        )
    }

    /// What the scripts and then the events compile to.
    pub open spec fn finished(&self, names: Seq<Seq<u8>>) -> (Seq<Seq<u8>>, u32) {
        compiled_events(
            self.scripted(names).0,
            self.scripted(names).1,
            self.all_events(),
            self.all_events().len(),
        )
    }
}

/// Interning keeps an interner well formed.
pub proof fn lemma_interned_all(names: Seq<Seq<u8>>, list: Seq<Seq<u8>>, n: nat)
    requires
        crate::symbol::distinct(names),
        n <= list.len(),
    ensures
        crate::symbol::distinct(interned_all(names, list, n).0),
        crate::symbol::has_keywords(names) ==> crate::symbol::has_keywords(
            interned_all(names, list, n).0,
        ),
        interned_all(names, list, n).1.len() == n,
    decreases n,
{
    if n > 0 {
        lemma_interned_all(names, list, (n - 1) as nat);
        crate::symbol::lemma_interned(interned_all(names, list, (n - 1) as nat).0, list[n - 1]);
    }
}

/// Builds a project: gives each name its prototype, parses each script and
/// each event of each object, and counts the diagnostics. The result is
/// the number of diagnostics if there are any, else the assets and the
/// debug index.
pub fn build(game: &Game, engine: &Vec<(Symbol, Item)>, interner: Interner) -> (r: Built)
    requires
        game.fits(),
        interner.wf(),
    ensures
        r.interner.wf(),
        r.interner@ == game.finished(interner@).0,
        r.write@ == game.output(interner@),
        match r.result {
            Err(n) => n > 0 && n == game.finished(interner@).1,
            Ok((assets, debug)) => {
                &&& game.finished(interner@).1 == 0
                &&& debug.scripts@ == interned_all(
                    interner@,
                    game.script_names(),
                    game.scripts@.len(),
                ).1
                &&& debug.objects@ == interned_all(
                    interned_all(interner@, game.script_names(), game.scripts@.len()).0,
                    game.object_names(),
                    game.objects@.len(),
                ).1
                &&& assets.api@ == natives(engine@, engine@.len())
                &&& assets.get@ == getters(engine@, engine@.len())
                &&& assets.set@ == setters(engine@, engine@.len())
                &&& assets.code@.len() == game.scripts@.len() + game.all_events().len()
                &&& debug.locations@.len() == assets.code@.len()
                &&& forall|i: int|
                    0 <= i < assets.code@.len() ==> (#[trigger] debug.locations@[i]).0
                        == assets.code@[i].0
                &&& forall|i: int|
                    0 <= i < game.scripts@.len() ==> (#[trigger] debug.locations@[i]).1.lines.parts()
                        == code_parts(game.script_bodies()[i])
                &&& forall|k: int|
                    0 <= k < game.all_events().len() ==> (#[trigger] debug.locations@[
                        game.scripts@.len() + k
                    ]).1.lines.parts() == parts_of(
                        game.all_events()[k].1,
                        game.all_events()[k].1.len() as int,
                        0,
                    )
                &&& forall|i: int|
                    0 <= i < game.scripts@.len() ==> (#[trigger] assets.code@[i]).0
                        == (Function::Script { id: i as i32 }) && stmt_tree(
                        assets.code@[i].1.program.0,
                        assets.code@[i].1.program.1,
                    ) == parsed(
                        game.script_bodies()[i],
                        compiled(game.named(interner@), game.script_bodies(), i as nat).0,
                    ).tree
                &&& forall|k: int|
                    0 <= k < game.all_events().len() ==> (#[trigger] assets.code@[
                        game.scripts@.len() + k
                    ]).0 == game.all_events()[k].0 && stmt_tree(
                        assets.code@[game.scripts@.len() + k].1.program.0,
                        assets.code@[game.scripts@.len() + k].1.program.1,
                    ) == event(
                        game.all_events()[k].1,
                        fresh(
                            compiled_events(
                                game.scripted(interner@).0,
                                game.scripted(interner@).1,
                                game.all_events(),
                                k as nat,
                            ).0,
                        ),
                    ).0
            },
        },
        forall|name: Symbol|
            !interned_all(interner@, game.script_names(), game.scripts@.len()).1.contains(name)
                ==> #[trigger] value_of(r.prototypes@, name) == match value_of(engine@, name) {
                Some(item) => Some(prototype_of(item)),
                None => None,
            },
{
    let mut interner = interner;
    let mut api: Vec<(Symbol, usize)> = Vec::new();
    let mut get: Vec<(Symbol, usize)> = Vec::new();
    let mut set: Vec<(Symbol, usize)> = Vec::new();
    let mut code: Vec<(Function, Unit)> = Vec::new();
    let mut table: Vec<(Symbol, Prototype)> = Vec::new();
    let mut names: Vec<Symbol> = Vec::new();
    let mut objects: Vec<Symbol> = Vec::new();
    let mut locations: Vec<(Function, Locations)> = Vec::new();
    let ghost names0 = interner@;

    let mut e: usize = 0;
    while e < engine.len()
        invariant
            e <= engine@.len(),
            api@ == natives(engine@, e as nat),
            get@ == getters(engine@, e as nat),
            set@ == setters(engine@, e as nat),
            forall|name: Symbol|
                #[trigger] value_of(table@, name) == match value_of(
                    engine@.subrange(0, e as int),
                    name,
                ) {
                    Some(item) => Some(prototype_of(item)),
                    None => None,
                },
        decreases engine@.len() - e,
    {
        let (name, item) = engine[e];
        proof {
            assert(engine@.subrange(0, e + 1).drop_last() =~= engine@.subrange(0, e as int));
        }
        match item {
            Item::Native(handle, arity, variadic) => {
                define(&mut api, name, handle);
                define(&mut table, name, Prototype::Native { arity, variadic });
            },
            Item::Member(getter, setter) => {
                if let Some(getter) = getter {
                    define(&mut get, name, getter);
                }
                if let Some(setter) = setter {
                    define(&mut set, name, setter);
                }
                define(&mut table, name, Prototype::Member);
            },
        }
        e = e + 1;
    }
    proof {
        assert(engine@.subrange(0, e as int) =~= engine@);
    }
    let mut prototypes: Vec<(Symbol, Prototype)> = table;
    let ghost first = prototypes@;

    let mut i: usize = 0;
    while i < game.scripts.len()
        invariant
            i <= game.scripts@.len() <= i32::MAX,
            interner.wf(),
            interner@ == interned_all(names0, game.script_names(), i as nat).0,
            names@ == interned_all(names0, game.script_names(), i as nat).1,
            names@.len() == i,
            forall|k: int| 0 <= k < i ==> (#[trigger] names@[k]).index < interner@.len(),
            forall|name: Symbol|
                !names@.contains(name) ==> #[trigger] value_of(prototypes@, name) == value_of(
                    first,
                    name,
                ),
        decreases game.scripts@.len() - i,
    {
        proof {
            lemma_interned(interner@, game.scripts@[i as int].name@);
        }
        let name = interner.intern(game.scripts[i].name.as_slice());
        define(&mut prototypes, name, Prototype::Script { id: i as i32 });
        let ghost before = names@;
        names.push(name);
        assert forall|k: int| 0 <= k <= i implies (#[trigger] names@[k]).index
            < interner@.len() by {
            if k < i {
                assert(names@[k] == before[k]);
            }
        }
        assert forall|other: Symbol| !names@.contains(other) implies #[trigger] value_of(
            prototypes@,
            other,
        ) == value_of(first, other) by {
            assert(names@[i as int] == name);
            assert forall|j: int| 0 <= j < i implies before[j] != other by {
                assert(names@[j] == before[j]);
            }
        }
        i = i + 1;
    }
    let ghost names1 = interner@;

    let mut o: usize = 0;
    while o < game.objects.len()
        invariant
            o <= game.objects@.len(),
            interner.wf(),
            interner@ == interned_all(names1, game.object_names(), o as nat).0,
            objects@ == interned_all(names1, game.object_names(), o as nat).1,
            objects@.len() == o,
            forall|k: int| 0 <= k < names@.len() ==> (#[trigger] names@[k]).index < interner@.len(),
            forall|k: int| 0 <= k < o ==> (#[trigger] objects@[k]).index < interner@.len(),
        decreases game.objects@.len() - o,
    {
        proof {
            lemma_interned(interner@, game.objects@[o as int].name@);
        }
        let name = interner.intern(game.objects[o].name.as_slice());
        let ghost before = objects@;
        objects.push(name);
        assert forall|k: int| 0 <= k <= o implies (#[trigger] objects@[k]).index
            < interner@.len() by {
            if k < o {
                assert(objects@[k] == before[k]);
            }
        }
        o = o + 1;
    }
    let ghost names2 = interner@;
    proof {
        lemma_interned_all(names0, game.script_names(), game.scripts@.len());
    }

    let mut total: u32 = 0;
    let mut write: Vec<u8> = Vec::new();
    let mut id: usize = 0;
    while id < game.scripts.len()
        invariant
            id <= game.scripts@.len() <= i32::MAX,
            game.fits(),
            interner.wf(),
            names@.len() == game.scripts@.len(),
            forall|k: int| 0 <= k < names@.len() ==> (#[trigger] names@[k]).index < interner@.len(),
            forall|k: int|
                0 <= k < objects@.len() ==> (#[trigger] objects@[k]).index < interner@.len(),
            (interner@, total) == compiled(names2, game.script_bodies(), id as nat),
            write@ == written_scripts(names@, names2, game.script_bodies(), id as nat),
            code@.len() == id,
            locations@.len() == id,
            forall|k: int|
                0 <= k < id ==> (#[trigger] locations@[k]).0 == (Function::Script {
                    id: k as i32,
                }) && locations@[k].1.lines.parts() == code_parts(game.script_bodies()[k]),
            forall|k: int|
                0 <= k < id ==> (#[trigger] code@[k]).0 == (Function::Script { id: k as i32 })
                    && stmt_tree(code@[k].1.program.0, code@[k].1.program.1) == parsed(
                    game.script_bodies()[k],
                    compiled(names2, game.script_bodies(), k as nat).0,
                ).tree,
        decreases game.scripts@.len() - id,
    {
        let function = Function::Script { id: id as i32 };
        let name = FunctionDisplay::Script { script: names[id] };
        let done = compile_program(name, game.scripts[id].body.as_slice(), interner, write);
        interner = done.interner;
        write = done.write;
        code.push((function, Unit { program: done.program }));
        locations.push((function, done.locations));
        total = if total > u32::MAX - done.count {
            u32::MAX
        } else {
            total + done.count
        };
        id = id + 1;
    }
    let ghost scripted = (interner@, total);
    let ghost scripts_wrote = write@;
    let count = game.scripts.len();
    let mut o: usize = 0;
    while o < game.objects.len()
        invariant
            o <= game.objects@.len() <= i32::MAX,
            game.fits(),
            interner.wf(),
            count == game.scripts@.len(),
            objects@.len() == game.objects@.len(),
            forall|k: int|
                0 <= k < objects@.len() ==> (#[trigger] objects@[k]).index < interner@.len(),
            (interner@, total) == compiled_events(
                scripted.0,
                scripted.1,
                game.events(o as int, 0),
                game.events(o as int, 0).len(),
            ),
            write@ == scripts_wrote + written_events(
                objects@,
                scripted.0,
                scripted.1,
                game.events(o as int, 0),
                game.events(o as int, 0).len(),
            ),
            code@.len() == count + game.events(o as int, 0).len(),
            locations@.len() == code@.len(),
            forall|k: int| 0 <= k < code@.len() ==> (#[trigger] locations@[k]).0 == code@[k].0,
            forall|k: int|
                0 <= k < count ==> (#[trigger] locations@[k]).1.lines.parts() == code_parts(
                    game.script_bodies()[k],
                ),
            forall|k: int|
                0 <= k < game.events(o as int, 0).len() ==> (#[trigger] locations@[count
                    + k]).1.lines.parts() == parts_of(
                    game.events(o as int, 0)[k].1,
                    game.events(o as int, 0)[k].1.len() as int,
                    0,
                ),
            forall|k: int|
                0 <= k < count ==> (#[trigger] code@[k]).0 == (Function::Script { id: k as i32 })
                    && stmt_tree(code@[k].1.program.0, code@[k].1.program.1) == parsed(
                    game.script_bodies()[k],
                    compiled(names2, game.script_bodies(), k as nat).0,
                ).tree,
            forall|k: int|
                0 <= k < game.events(o as int, 0).len() ==> (#[trigger] code@[count + k]).0
                    == game.events(o as int, 0)[k].0 && stmt_tree(
                    code@[count + k].1.program.0,
                    code@[count + k].1.program.1,
                ) == event(
                    game.events(o as int, 0)[k].1,
                    fresh(
                        compiled_events(
                            scripted.0,
                            scripted.1,
                            game.events(o as int, 0),
                            k as nat,
                        ).0,
                    ),
                ).0,
        decreases game.objects@.len() - o,
    {
        let object = &game.objects[o];
        let mut v: usize = 0;
        while v < object.events.len()
            invariant
                o < game.objects@.len() <= i32::MAX,
                object == game.objects@[o as int],
                v <= object.events@.len(),
                game.fits(),
                interner.wf(),
                count == game.scripts@.len(),
                objects@.len() == game.objects@.len(),
                forall|k: int|
                    0 <= k < objects@.len() ==> (#[trigger] objects@[k]).index < interner@.len(),
                (interner@, total) == compiled_events(
                    scripted.0,
                    scripted.1,
                    game.events(o as int, v as int),
                    game.events(o as int, v as int).len(),
                ),
                write@ == scripts_wrote + written_events(
                    objects@,
                    scripted.0,
                    scripted.1,
                    game.events(o as int, v as int),
                    game.events(o as int, v as int).len(),
                ),
                code@.len() == count + game.events(o as int, v as int).len(),
                locations@.len() == code@.len(),
                forall|k: int|
                    0 <= k < code@.len() ==> (#[trigger] locations@[k]).0 == code@[k].0,
                forall|k: int|
                    0 <= k < count ==> (#[trigger] locations@[k]).1.lines.parts() == code_parts(
                        game.script_bodies()[k],
                    ),
                forall|k: int|
                    0 <= k < game.events(o as int, v as int).len() ==> (#[trigger] locations@[count
                        + k]).1.lines.parts() == parts_of(
                        game.events(o as int, v as int)[k].1,
                        game.events(o as int, v as int)[k].1.len() as int,
                        0,
                    ),
                forall|k: int|
                    0 <= k < count ==> (#[trigger] code@[k]).0 == (Function::Script {
                        id: k as i32,
                    }) && stmt_tree(code@[k].1.program.0, code@[k].1.program.1) == parsed(
                        game.script_bodies()[k],
                        compiled(names2, game.script_bodies(), k as nat).0,
                    ).tree,
                forall|k: int|
                    0 <= k < game.events(o as int, v as int).len() ==> (#[trigger] code@[count
                        + k]).0 == game.events(o as int, v as int)[k].0 && stmt_tree(
                        code@[count + k].1.program.0,
                        code@[count + k].1.program.1,
                    ) == event(
                        game.events(o as int, v as int)[k].1,
                        fresh(
                            compiled_events(
                                scripted.0,
                                scripted.1,
                                game.events(o as int, v as int),
                                k as nat,
                            ).0,
                        ),
                    ).0,
            decreases object.events@.len() - v,
        {
            let ghost before = game.events(o as int, v as int);
            let ghost after = game.events(o as int, v + 1);
            let ghost old_code = code@;
            let ghost old_locations = locations@;
            let one = &object.events[v];
            let function = Function::Event {
                object_index: o as i32,
                event_type: one.event_type,
                event_kind: one.event_kind,
            };
            let name = FunctionDisplay::Event {
                object: objects[o],
                event_type: one.event_type,
                event_kind: EventDisplay::Id(one.event_kind),
            };
            proof {
                assert(after == before.push((function, acts(one.actions@))));
                lemma_compiled_events(scripted.0, scripted.1, before, after, before.len());
                lemma_written_events(
                    objects@,
                    scripted.0,
                    scripted.1,
                    before,
                    after,
                    before.len(),
                );
                assert forall|k: int| 0 <= k < before.len() implies #[trigger] compiled_events(
                    scripted.0,
                    scripted.1,
                    after,
                    k as nat,
                ) == compiled_events(scripted.0, scripted.1, before, k as nat) by {
                    lemma_compiled_events(scripted.0, scripted.1, before, after, k as nat);
                }
            }
            let done = compile_event(name, one.actions.as_slice(), interner, write);
            interner = done.interner;
            write = done.write;
            proof {
                assert(write@ =~= scripts_wrote + written_events(
                    objects@,
                    scripted.0,
                    scripted.1,
                    after,
                    after.len(),
                ));
            }
            code.push((function, Unit { program: done.program }));
            locations.push((function, done.locations));
            total = if total > u32::MAX - done.count {
                u32::MAX
            } else {
                total + done.count
            };
            proof {
                assert forall|k: int| 0 <= k < after.len() implies (#[trigger] code@[count
                    + k]).0 == after[k].0 && stmt_tree(
                    code@[count + k].1.program.0,
                    code@[count + k].1.program.1,
                ) == event(
                    after[k].1,
                    fresh(compiled_events(scripted.0, scripted.1, after, k as nat).0),
                ).0 by {
                    if k < before.len() {
                        assert(code@[count + k] == old_code[count + k]);
                        assert(after[k] == before[k]);
                    }
                }
                assert forall|k: int| 0 <= k < count implies (
                #[trigger] locations@[k]).1.lines.parts() == code_parts(
                    game.script_bodies()[k],
                ) by {
                    assert(locations@[k] == old_locations[k]);
                }
                assert forall|k: int| 0 <= k < after.len() implies (#[trigger] locations@[count
                    + k]).1.lines.parts() == parts_of(after[k].1, after[k].1.len() as int, 0) by {
                    if k < before.len() {
                        assert(locations@[count + k] == old_locations[count + k]);
                        assert(after[k] == before[k]);
                    }
                }
                assert forall|k: int| 0 <= k < code@.len() implies (#[trigger] locations@[k]).0
                    == code@[k].0 by {
                    if k < old_code.len() {
                        assert(locations@[k] == old_locations[k]);
                        assert(code@[k] == old_code[k]);
                    }
                }
                assert forall|k: int| 0 <= k < count implies (#[trigger] code@[k]).0
                    == (Function::Script { id: k as i32 }) && stmt_tree(
                    code@[k].1.program.0,
                    code@[k].1.program.1,
                ) == parsed(
                    game.script_bodies()[k],
                    compiled(names2, game.script_bodies(), k as nat).0,
                ).tree by {
                    assert(code@[k] == old_code[k]);
                }
            }
            v = v + 1;
        }
        o = o + 1;
    }
    if total > 0 {
        Built { result: Err(total), prototypes, interner, write }
    } else {
        let assets = Assets { code, api, get, set };
        let debug = crate::vm::Debug { scripts: names, objects, locations };
        Built { result: Ok((assets, debug)), prototypes, interner, write }
    }
}

/// The handles of the native functions among the first `n` items of the
/// engine, each under its name.
pub open spec fn natives(engine: Seq<(Symbol, Item)>, n: nat) -> Seq<(Symbol, usize)>
    decreases n,
{
    if n == 0 {
        Seq::empty()
    } else {
        match engine[n - 1].1 {
            Item::Native(handle, _, _) => natives(engine, (n - 1) as nat).push(
                (engine[n - 1].0, handle),
            ),
            _ => natives(engine, (n - 1) as nat),
        }
    }
}

/// The handles of the getters among the first `n` items of the engine,
/// each under its name.
pub open spec fn getters(engine: Seq<(Symbol, Item)>, n: nat) -> Seq<(Symbol, usize)>
    decreases n,
{
    if n == 0 {
        Seq::empty()
    } else {
        match engine[n - 1].1 {
            Item::Member(Some(handle), _) => getters(engine, (n - 1) as nat).push(
                (engine[n - 1].0, handle),
            ),
            _ => getters(engine, (n - 1) as nat),
        }
    }
}

/// The handles of the setters among the first `n` items of the engine,
/// each under its name.
pub open spec fn setters(engine: Seq<(Symbol, Item)>, n: nat) -> Seq<(Symbol, usize)>
    decreases n,
{
    if n == 0 {
        Seq::empty()
    } else {
        match engine[n - 1].1 {
            Item::Member(_, Some(handle)) => setters(engine, (n - 1) as nat).push(
                (engine[n - 1].0, handle),
            ),
            _ => setters(engine, (n - 1) as nat),
        }
    }
}

/// The prototype of an item of the engine.
pub open spec fn prototype_of(item: Item) -> Prototype {
    match item {
        Item::Native(_, arity, variadic) => Prototype::Native { arity, variadic },
        Item::Member(_, _) => Prototype::Member,
    }
}

/// What a table gives for a name: the value of the last entry that has
/// the name.
pub open spec fn value_of<T>(table: Seq<(Symbol, T)>, name: Symbol) -> Option<T>
    decreases table.len(),
{
    if table.len() == 0 {
        None
    } else if table.last().0 == name {
        Some(table.last().1)
    } else {
        value_of(table.drop_last(), name)
    }
}

/// What a table gives for a name.
pub fn lookup<T: Copy>(table: &Vec<(Symbol, T)>, name: Symbol) -> (r: Option<T>)
    ensures
        r == value_of(table@, name),
{
    let mut i: usize = table.len();
    assert(table@.subrange(0, i as int) =~= table@);
    while i > 0
        invariant
            i <= table@.len(),
            value_of(table@, name) == value_of(table@.subrange(0, i as int), name),
        decreases i,
    {
        i = i - 1;
        assert(table@.subrange(0, i + 1).drop_last() =~= table@.subrange(0, i as int));
        if table[i].0 == name {
            return Some(table[i].1);
        }
    }
    None
}

/// Sets what a table gives for a name, and leaves what it gives for every
/// other name.
pub fn define<T: Copy>(table: &mut Vec<(Symbol, T)>, name: Symbol, value: T)
    ensures
        final(table)@ == old(table)@.push((name, value)),
        value_of(final(table)@, name) == Some(value),
        forall|other: Symbol|
            other != name ==> value_of(final(table)@, other) == value_of(old(table)@, other),
{
    table.push((name, value));
    assert(table@.drop_last() =~= old(table)@);
}

} // verus!
