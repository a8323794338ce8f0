use cabidge_code::func::{Arg, Def, Function, Match, MatchArm, Op, Synced, Terminal, Value};
use cabidge_code::gen::ModuleBuilder;
use cabidge_code::high::{self, LinkErr, ModMerge};
use cabidge_code::module::{Adapted, Module, Reference, TypeDesc, Use};

fn loader(uses: Vec<Op>) -> Function {
    let def = uses
        .into_iter()
        .enumerate()
        .map(|(i, op)| Def { dec: Value(i), op })
        .collect();
    Function { args: vec![], def, term: Terminal::Exec(Value(0)) }
}

fn load_func(r: Reference<Use<Function>>) -> Op {
    Op::LoadFunc(r)
}

fn library(entries: Vec<(&str, Module)>) -> Vec<(String, Module)> {
    entries.into_iter().map(|(p, m)| (p.to_string(), m)).collect()
}

fn not_module() -> Module {
    let mut b = ModuleBuilder::new();
    let t = b.create_atom("True".to_string(), 0).unwrap();
    let f = b.create_atom("False".to_string(), 0).unwrap();
    let bool_type = b.register_type(TypeDesc::AtomGroup(vec![
        Adapted { params: vec![], item: Reference::new(0) },
        Adapted { params: vec![], item: Reference::new(1) },
    ]));
    let not = b.create_function(Function {
        args: vec![Arg { val: Value(0), type_ref: Synced { adjusted_generics: vec![], desc: bool_type } }],
        def: vec![
            Def { dec: Value(1), op: Op::LoadAtom { atom_ref: f } },
            Def { dec: Value(2), op: Op::LoadAtom { atom_ref: t } },
        ],
        term: Terminal::MatchAtom(Match {
            arms: vec![MatchArm { val: t, branch: Value(1) }, MatchArm { val: f, branch: Value(2) }],
            default: Value(1),
        }),
    });
    b.export_function("not".to_string(), not);
    b.finish()
}

#[test]
fn standalone_not_links() {
    let lib = library(vec![("bool", not_module())]);
    let mut merge = ModMerge::new();
    merge.absorb("bool".to_string(), &lib).unwrap();
    let program = merge.finish().unwrap();
    assert_eq!(program.atoms.len(), 2);
    assert_eq!(program.funcs.len(), 1);
    assert_eq!(program.types.len(), 1);
    assert_eq!(program.exports.len(), 1);
    let (desc, slot) = program.exports[0];
    assert_eq!(program.symbols[desc.name.get_inner()], "not");
    assert_eq!(program.modules[desc.source.get_inner()], "bool");
    assert_eq!(slot, 0);
    let not = &program.funcs[0];
    assert_eq!(not.args.len(), 1);
    assert_eq!(not.args[0].type_ref.desc.get_inner(), 0);
    assert!(matches!(not.assgns[0].op, high::Op::LoadAtom(r) if r.get_inner() == 1));
    assert!(matches!(not.assgns[1].op, high::Op::LoadAtom(r) if r.get_inner() == 0));
    match &not.terminal {
        Terminal::MatchAtom(m) => {
            assert_eq!(m.arms.len(), 2);
            assert_eq!(m.arms[0].val.get_inner(), 0);
            assert_eq!(m.arms[1].val.get_inner(), 1);
            assert_eq!(m.default, Value(1));
        }
        _ => panic!("the terminal should stay a match"),
    }
    assert_eq!(program.symbols[program.atoms[0].desc.name.get_inner()], "True");
    assert_eq!(program.atoms[1].num_members, 0);
}

fn cyclic_library() -> Vec<(String, Module)> {
    let mut a = ModuleBuilder::new();
    let b_path = a.import_module("b".to_string());
    let g = a.import_function("g".to_string(), b_path);
    let f = a.create_function(loader(vec![load_func(g)]));
    a.export_function("f".to_string(), f);

    let mut b = ModuleBuilder::new();
    let a_path = b.import_module("a".to_string());
    let f_imported = b.import_function("f".to_string(), a_path);
    let g_def = b.create_function(loader(vec![load_func(f_imported)]));
    b.export_function("g".to_string(), g_def);

    library(vec![("a", a.finish()), ("b", b.finish())])
}

#[test]
fn import_cycle_terminates() {
    let lib = cyclic_library();
    let mut merge = ModMerge::new();
    merge.absorb("a".to_string(), &lib).unwrap();
    let absorbed = merge.absorbed_paths();
    assert_eq!(absorbed.len(), 2);
    assert!(merge.is_absorbed(&"a".to_string()));
    assert!(merge.is_absorbed(&"b".to_string()));
    merge.absorb("b".to_string(), &lib).unwrap();
    assert_eq!(merge.absorbed_paths().len(), 2);
    let program = merge.finish().unwrap();
    assert_eq!(program.funcs.len(), 2);
    // a's f loads b's g and b's g loads a's f
    assert!(matches!(program.funcs[0].assgns[0].op, high::Op::LoadFunc(r) if r.get_inner() == 1));
    assert!(matches!(program.funcs[1].assgns[0].op, high::Op::LoadFunc(r) if r.get_inner() == 0));
}

#[test]
fn re_exported_atom_is_merged_once() {
    let mut a = ModuleBuilder::new();
    let x = a.create_atom("x".to_string(), 1).unwrap();
    let fa = a.create_function(loader(vec![Op::LoadAtom { atom_ref: x }]));
    a.export_function("fa".to_string(), fa);

    let mut b = ModuleBuilder::new();
    let a_path = b.import_module("a".to_string());
    b.import_atom("x".to_string(), a_path);

    let mut c = ModuleBuilder::new();
    let b_path = c.import_module("b".to_string());
    let x_via_b = c.import_atom("x".to_string(), b_path);
    let fc = c.create_function(loader(vec![Op::LoadAtom { atom_ref: x_via_b }]));
    c.export_function("fc".to_string(), fc);

    let lib = library(vec![("a", a.finish()), ("b", b.finish()), ("c", c.finish())]);
    let mut merge = ModMerge::new();
    merge.absorb("c".to_string(), &lib).unwrap();
    assert_eq!(merge.absorbed_paths().len(), 3);
    let program = merge.finish().unwrap();
    assert_eq!(program.atoms.len(), 1);
    assert_eq!(program.funcs.len(), 2);
    let loaded = |f: &high::Function| match f.assgns[0].op {
        high::Op::LoadAtom(r) => r.get_inner(),
        _ => panic!("expected an atom load"),
    };
    assert_eq!(loaded(&program.funcs[0]), loaded(&program.funcs[1]));
    assert_eq!(loaded(&program.funcs[0]), 0);
}

#[test]
fn equal_types_of_two_modules_merge() {
    let make = |name: &str| {
        let mut b = ModuleBuilder::new();
        let int = b.register_type(TypeDesc::Int32);
        b.register_type(TypeDesc::Tuple(vec![int, int]));
        let f = b.create_function(Function {
            args: vec![Arg { val: Value(0), type_ref: Synced { adjusted_generics: vec![], desc: Reference::new(1) } }],
            def: vec![],
            term: Terminal::Exec(Value(0)),
        });
        b.export_function(name.to_string(), f);
        b.finish()
    };
    let mut root = ModuleBuilder::new();
    root.import_module("one".to_string());
    root.import_module("two".to_string());
    let lib = library(vec![("root", root.finish()), ("one", make("p")), ("two", make("q"))]);
    let mut merge = ModMerge::new();
    merge.absorb("root".to_string(), &lib).unwrap();
    let program = merge.finish().unwrap();
    assert_eq!(program.types.len(), 2);
    assert_eq!(program.funcs[0].args[0].type_ref.desc.get_inner(), 1);
    assert_eq!(program.funcs[1].args[0].type_ref.desc.get_inner(), 1);
}

#[test]
fn missing_module_is_unresolved() {
    let lib = library(vec![("bool", not_module())]);
    let mut merge = ModMerge::new();
    assert_eq!(merge.absorb("nowhere".to_string(), &lib), Err(LinkErr::UnresolvedImport));
}

#[test]
fn missing_import_target_is_unresolved() {
    let mut a = ModuleBuilder::new();
    let gone = a.import_module("gone".to_string());
    let g = a.import_function("g".to_string(), gone);
    a.create_function(loader(vec![load_func(g)]));
    let lib = library(vec![("a", a.finish())]);
    let mut merge = ModMerge::new();
    assert_eq!(merge.absorb("a".to_string(), &lib), Err(LinkErr::UnresolvedImport));
}

#[test]
fn missing_symbol_is_unresolved() {
    let mut a = ModuleBuilder::new();
    let b_path = a.import_module("b".to_string());
    let g = a.import_function("nothing".to_string(), b_path);
    a.create_function(loader(vec![load_func(g)]));
    let lib = library(vec![("a", a.finish()), ("b", not_module())]);
    let mut merge = ModMerge::new();
    assert_eq!(merge.absorb("a".to_string(), &lib), Err(LinkErr::UnresolvedImport));
}

#[test]
fn one_name_for_two_functions_collides() {
    let mut a = ModuleBuilder::new();
    let f = a.create_function(loader(vec![]));
    let g = a.create_function(loader(vec![]));
    a.export_function("same".to_string(), f);
    a.export_function("same".to_string(), g);
    let lib = library(vec![("a", a.finish())]);
    let mut merge = ModMerge::new();
    assert_eq!(merge.absorb("a".to_string(), &lib), Err(LinkErr::NameCollision));
}

#[test]
fn bad_reference_fails_and_blocks_the_program() {
    let mut a = ModuleBuilder::new();
    a.create_function(loader(vec![Op::LoadAtom { atom_ref: Reference::new(5) }]));
    let lib = library(vec![("a", a.finish())]);
    let mut merge = ModMerge::new();
    assert_eq!(merge.absorb("a".to_string(), &lib), Err(LinkErr::OutOfBoundsReference));
    assert!(matches!(merge.finish(), Err(LinkErr::OutOfBoundsReference)));
}

#[test]
fn bad_type_reference_yields_no_partial_program() {
    let mut a = ModuleBuilder::new();
    a.register_type(TypeDesc::Tuple(vec![Reference::new(3)]));
    let lib = library(vec![("a", a.finish())]);
    let mut merge = ModMerge::new();
    assert_eq!(merge.absorb("a".to_string(), &lib), Err(LinkErr::OutOfBoundsReference));
    assert!(matches!(merge.finish(), Err(LinkErr::OutOfBoundsReference)));
}

#[test]
fn failure_further_down_fails_the_link() {
    let mut a = ModuleBuilder::new();
    a.import_module("b".to_string());
    let mut b = ModuleBuilder::new();
    let c = b.import_module("c".to_string());
    b.import_atom("x".to_string(), c);
    let lib = library(vec![("a", a.finish()), ("b", b.finish())]);
    let mut merge = ModMerge::new();
    assert_eq!(merge.absorb("a".to_string(), &lib), Err(LinkErr::UnresolvedImport));
    assert!(merge.finish().is_err());
}

#[test]
fn absorbing_again_changes_nothing() {
    let lib = cyclic_library();
    let mut merge = ModMerge::new();
    merge.absorb("a".to_string(), &lib).unwrap();
    let before = merge.absorbed_paths();
    merge.absorb("b".to_string(), &lib).unwrap();
    merge.absorb("a".to_string(), &lib).unwrap();
    assert_eq!(merge.absorbed_paths(), before);
    assert_eq!(merge.finish().unwrap().funcs.len(), 2);
}

#[test]
fn empty_link_gives_empty_program() {
    let merge = ModMerge::new();
    let program = merge.finish().unwrap();
    assert_eq!(program.funcs.len(), 0);
    assert_eq!(program.atoms.len(), 0);
}

#[test]
fn imports_are_absorbed_depth_first() {
    let module = |imports: Vec<&str>, name: &str| {
        let mut b = ModuleBuilder::new();
        for i in imports {
            b.import_module(i.to_string());
        }
        let f = b.create_function(loader(vec![]));
        b.export_function(name.to_string(), f);
        b.finish()
    };
    let lib = library(vec![
        ("y", module(vec![], "fy")),
        ("z", module(vec![], "fz")),
        ("x", module(vec!["z"], "fx")),
        ("root", module(vec!["x", "y"], "froot")),
    ]);
    let mut merge = ModMerge::new();
    merge.absorb("root".to_string(), &lib).unwrap();
    let program = merge.finish().unwrap();
    let slot_of = |name: &str| {
        program
            .exports
            .iter()
            .find(|(d, _)| program.symbols[d.name.get_inner()] == name)
            .map(|(_, slot)| *slot)
            .unwrap()
    };
    assert_eq!(slot_of("froot"), 0);
    assert_eq!(slot_of("fx"), 1);
    assert_eq!(slot_of("fz"), 2);
    assert_eq!(slot_of("fy"), 3);
    assert_eq!(program.modules, vec!["root".to_string(), "x".to_string(), "y".to_string(), "z".to_string()]);
}

#[test]
fn reordered_groups_of_two_modules_merge() {
    let make = |first: &str, second: &str, reverse: bool| {
        let mut b = ModuleBuilder::new();
        b.create_atom(first.to_string(), 0).unwrap();
        b.create_atom(second.to_string(), 0).unwrap();
        let members = if reverse {
            vec![Adapted { params: vec![], item: Reference::new(1) }, Adapted { params: vec![], item: Reference::new(0) }]
        } else {
            vec![Adapted { params: vec![], item: Reference::new(0) }, Adapted { params: vec![], item: Reference::new(1) }]
        };
        b.register_type(TypeDesc::AtomGroup(members));
        b.finish()
    };
    let mut root = ModuleBuilder::new();
    root.import_module("one".to_string());
    let lib = library(vec![("root", root.finish()), ("one", make("p", "q", false)), ("two", make("p", "q", true))]);
    let mut merge = ModMerge::new();
    merge.absorb("root".to_string(), &lib).unwrap();
    merge.absorb("two".to_string(), &lib).unwrap();
    let program = merge.finish().unwrap();
    // the atoms of "one" and "two" differ, so the groups differ, but each stays sorted
    assert_eq!(program.types.len(), 2);
    for t in &program.types {
        match t {
            TypeDesc::AtomGroup(v) => assert!(v[0].item.get_inner() < v[1].item.get_inner()),
            _ => panic!("expected a group"),
        }
    }
}
