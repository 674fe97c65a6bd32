use gml::project::{Game, Script};
use gml::symbol::Interner;
use gml::vm::Prototype;
use gml::{build, lookup, Built, Item};

fn build_scripts(scripts: &[(&[u8], &[u8])], natives: &[&[u8]], members: &[&[u8]]) -> Built {
    let mut interner = Interner::new();
    let mut engine = Vec::new();
    for (handle, name) in natives.iter().enumerate() {
        engine.push((interner.intern(name), Item::Native(handle, 2, false)));
    }
    for (handle, name) in members.iter().enumerate() {
        engine.push((interner.intern(name), Item::Member(Some(handle), Some(handle))));
    }
    let game = Game {
        scripts: scripts
            .iter()
            .map(|(name, body)| Script { name: name.to_vec(), body: body.to_vec() })
            .collect(),
        objects: Vec::new(),
    };
    build(&game, &engine, interner)
}

fn builds(name: &[u8], body: &[u8]) {
    let built = build_scripts(&[(name, body)], &[], &[]);
    assert_eq!(String::from_utf8(built.write).unwrap(), "");
    assert!(built.result.is_ok());
}

/// First write to a local is control-dependent.
#[test]
fn conditional_initialization() {
    builds(b"fibonacci", b"{
        var t;
        if (true) {
            t = 1
        }
        return t
    }");
}

/// Use of a local that is never written, in code that is never reached.
#[test]
fn dead_undef() {
    builds(b"switch", b"{
        var i;
        return 0
        return i
    }");
}

/// An empty switch statement.
#[test]
fn switch_empty() {
    builds(b"switch", b"{
        switch (argument0) {
        }
    }");
}

#[test]
fn programs_with_arguments_members_globals_and_arrays_build() {
    builds(b"select", b"{
        return argument0 + argument1
    }");
    builds(b"member", b"{
        a = 3
        b[3] = 5
        var c;
        c = self.a + self.b[3]
        return c
    }");
    builds(b"global", b"{
        a = 3
        global.a = 5
        globalvar a;
        return self.a + a
    }");
    builds(b"array", b"{
        var a, b, c;
        a[0] = 3
        a[1] = 5
        b = 8
        b[2] = 13
        c[1, 1] = 21
        return a + a[1] + b[0] + b[1] + b[2] + c + c[1, 1]
    }");
}

#[test]
fn programs_with_loops_and_switches_build() {
    builds(b"with", b"{
        var a, b;
        a = 100001
        b = 100002
        c = 3
        with (all) {
            n = other.c
            m = other.c
        }
        with (a) {
            n = 5
        }
        with (b) {
            m = 13
        }
        return a.n + b.n + a.m + b.m
    }");
    builds(b"factorial", b"{
        var i, j;
        j = 1
        for (i = 1; i <= 4; i += 1) {
            j *= i
        }
        return j
    }");
    builds(b"switch", b"{
        var i;
        switch (argument0) {
        case 3:
            return 5
        case 8:
            i = 13
            break
        default:
            return 21
        }
        return i
    }");
    builds(b"switch", b"{
        var i;
        i = 0
        switch (argument0) {
        case 1:
            i = 3
        case 2:
        case 3:
            i += 5
        }
        return i
    }");
}

#[test]
fn programs_that_call_scripts_and_the_engine_build() {
    let built = build_scripts(
        &[(b"id", b"return argument0"), (b"call", b"return id(3) + 5")],
        &[],
        &[],
    );
    assert!(built.result.is_ok());
    let id = built.interner.get(b"id").unwrap();
    assert_eq!(lookup(&built.prototypes, id), Some(Prototype::Script { id: 0 }));

    builds(b"fibonacci", b"{
        if (argument0 < 2) {
            return 1
        } else {
            return fibonacci(argument0 - 1) + fibonacci(argument0 - 2)
        }
    }");

    let built = build_scripts(&[(b"call", b"return add(3, 5) + 8")], &[b"add"], &[]);
    assert!(built.result.is_ok());
    let add = built.interner.get(b"add").unwrap();
    assert_eq!(
        lookup(&built.prototypes, add),
        Some(Prototype::Native { arity: 2, variadic: false })
    );

    let built = build_scripts(
        &[(b"builtin", b"{
        x = 3
        return x + 5
    }")],
        &[],
        &[b"x"],
    );
    assert!(built.result.is_ok());
    let x = built.interner.get(b"x").unwrap();
    assert_eq!(lookup(&built.prototypes, x), Some(Prototype::Member));
}
