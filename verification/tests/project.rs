use gml::front::ast::Stmt;
use gml::project::{Game, Object, Script};
use gml::symbol::{Interner, Symbol};
use gml::vm::Prototype;
use gml::{build, compile_program, define, lookup, Function, FunctionDisplay, Item};

fn script(name: &[u8], body: &[u8]) -> Script {
    Script { name: name.to_vec(), body: body.to_vec() }
}

#[test]
fn a_build_without_mistakes_gives_the_assets() {
    let game = Game {
        scripts: vec![
            script(b"first", b"{ return argument0 + 1 }"),
            script(b"second", b"x = first(2)"),
        ],
        objects: vec![Object { name: b"player".to_vec(), events: vec![] }],
    };
    let mut interner = Interner::new();
    let show = interner.intern(b"show");
    let x = interner.intern(b"x");
    let engine = vec![(show, Item::Native(7, 1, true)), (x, Item::Member(Some(1), None))];
    let built = build(&game, &engine, interner);
    assert!(built.write.is_empty());
    let first = built.interner.get(b"first").unwrap();
    let second = built.interner.get(b"second").unwrap();
    let player = built.interner.get(b"player").unwrap();
    assert_eq!(lookup(&built.prototypes, show), Some(Prototype::Native { arity: 1, variadic: true }));
    assert_eq!(lookup(&built.prototypes, x), Some(Prototype::Member));
    assert_eq!(lookup(&built.prototypes, first), Some(Prototype::Script { id: 0 }));
    assert_eq!(lookup(&built.prototypes, second), Some(Prototype::Script { id: 1 }));
    assert_eq!(lookup(&built.prototypes, player), None);
    let (assets, debug) = built.result.unwrap();
    assert_eq!(debug.scripts, vec![first, second]);
    assert_eq!(debug.objects, vec![player]);
    assert_eq!(assets.api, vec![(show, 7)]);
    assert_eq!(assets.get, vec![(x, 1)]);
    assert_eq!(assets.set, vec![]);
    assert_eq!(assets.code.len(), 2);
    assert_eq!(assets.code[0].0, Function::Script { id: 0 });
    assert_eq!(assets.code[1].0, Function::Script { id: 1 });
    assert!(matches!(assets.code[0].1.program.0, Stmt::Block(_)));
    assert_eq!(debug.locations.len(), 2);
    assert!(debug.has(Function::Script { id: 1 }));
}

#[test]
fn a_build_with_mistakes_gives_their_number() {
    let game = Game {
        scripts: vec![
            script(b"good", b"x = 1"),
            script(b"bad", b"x = \ny = )"),
            script(b"worse", b"var z = 1"),
        ],
        objects: vec![],
    };
    let built = build(&game, &vec![], Interner::new());
    assert_eq!(built.result.err(), Some(4));
    assert_eq!(
        String::from_utf8(built.write).unwrap(),
        "error in script bad:2:5: unexpected ); expected expression\n\
         error in script bad:2:5: unexpected ); expected expression\n\
         error in script worse:1:7: unexpected =; expected ;\n\
         error in script worse:1:10: unexpected end of input; expected ;\n"
    );
}

#[test]
fn a_script_takes_the_name_of_an_item_of_the_engine() {
    let game = Game { scripts: vec![script(b"show", b"")], objects: vec![] };
    let mut interner = Interner::new();
    let show = interner.intern(b"show");
    let built = build(&game, &vec![(show, Item::Native(0, 0, false))], interner);
    assert_eq!(lookup(&built.prototypes, show), Some(Prototype::Script { id: 0 }));
    assert!(built.result.is_ok());
}

#[test]
fn a_table_gives_the_last_value_set_for_a_name() {
    let a = Symbol { index: 40 };
    let b = Symbol { index: 41 };
    let mut table: Vec<(Symbol, u8)> = Vec::new();
    assert_eq!(lookup(&table, a), None);
    define(&mut table, a, 1);
    define(&mut table, b, 2);
    define(&mut table, a, 3);
    assert_eq!(lookup(&table, a), Some(3));
    assert_eq!(lookup(&table, b), Some(2));
}

#[test]
fn compiling_a_program_counts_its_diagnostics() {
    let mut interner = Interner::new();
    let script = interner.intern(b"s");
    let name = FunctionDisplay::Script { script };
    let done = compile_program(name, b"a = 1 +\n b c", interner, b"log:\n".to_vec());
    assert_eq!(done.count, 1);
    assert_eq!(
        String::from_utf8(done.write).unwrap(),
        "log:\nerror in script s:2:5: unexpected end of input; expected assignment operator\n"
    );
    assert!(done.interner.get(b"c").is_some());
    assert_eq!(done.locations.lines.get_position(9).line, Some(2));
}

/// Compiling a program twice gives the same tree and the same
/// diagnostics.
#[test]
fn compiling_twice_gives_the_same_result() {
    let source: &[u8] = b"{ var a; a = f(1, 2) + $10; if a then exit else b = }";
    let compile = || {
        let mut interner = Interner::new();
        let script = interner.intern(b"s");
        compile_program(FunctionDisplay::Script { script }, source, interner, Vec::new())
    };
    let first = compile();
    let second = compile();
    assert_eq!(first.program, second.program);
    assert_eq!(first.count, second.count);
    assert_eq!(first.write, second.write);
    assert_eq!(first.interner.len(), second.interner.len());
}
