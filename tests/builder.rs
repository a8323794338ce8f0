use cabidge_code::err::Bounds;
use cabidge_code::func::{Arg, Def, Function, Match, MatchArm, Op, Synced, Terminal, Value};
use cabidge_code::gen::{CodeGenErr, IndexMap, IndexSet, IndexVec, ModuleBuilder, RefSet};
use cabidge_code::module::{Adapted, ArgType, Reference, TypeDesc, Use};

fn exec_function() -> Function {
    Function { args: vec![], def: vec![], term: Terminal::Exec(Value(0)) }
}

#[test]
fn same_atom_twice_gives_same_handle() {
    let mut b = ModuleBuilder::new();
    let first = b.create_atom("a".to_string(), 2).unwrap();
    let second = b.create_atom("a".to_string(), 2).unwrap();
    assert_eq!(first, second);
    assert_eq!(b.atom_defs.len(), 1);
    assert_eq!(b.atom_uses.len(), 1);
    assert_eq!(b.symbols.len(), 1);
}

#[test]
fn atom_with_other_arity_collides() {
    let mut b = ModuleBuilder::new();
    let first = b.create_atom("a".to_string(), 2).unwrap();
    let second = b.create_atom("a".to_string(), 3);
    assert!(matches!(second, Err(CodeGenErr::NameCollision)));
    assert_eq!(b.atom_defs.len(), 1);
    assert_eq!(*b.atom_defs.payload(0), 2);
    assert_eq!(first.get_inner(), 0);
}

#[test]
fn distinct_atoms_get_distinct_handles() {
    let mut b = ModuleBuilder::new();
    let a = b.create_atom("a".to_string(), 0).unwrap();
    let c = b.create_atom("c".to_string(), 1).unwrap();
    assert_eq!(a.get_inner(), 0);
    assert_eq!(c.get_inner(), 1);
    assert_eq!(b.atom_defs.len(), 2);
}

#[test]
fn equal_type_trees_share_a_handle() {
    let mut b = ModuleBuilder::new();
    let int = b.register_type(TypeDesc::Int32);
    let bottom = b.register_type(TypeDesc::BottomThunk);
    let t1 = b.register_type(TypeDesc::Tuple(vec![int, bottom]));
    let t2 = b.register_type(TypeDesc::Tuple(vec![Reference::new(0), Reference::new(1)]));
    assert_eq!(t1, t2);
    assert_eq!(b.type_defs.len(), 3);
    let t3 = b.register_type(TypeDesc::Tuple(vec![bottom, int]));
    assert_ne!(t1, t3);
    assert_eq!(t3.get_inner(), 3);
}

#[test]
fn equal_nested_function_types_share_a_handle() {
    let mut b = ModuleBuilder::new();
    let int = b.register_type(TypeDesc::Int32);
    let make = |generic: u32| {
        TypeDesc::Func(vec![
            ArgType::Concrete(Adapted { params: vec![ArgType::Generic(generic)], item: int }),
            ArgType::Generic(0),
        ])
    };
    let f1 = b.register_type(make(1));
    let f2 = b.register_type(make(1));
    let f3 = b.register_type(make(2));
    assert_eq!(f1, f2);
    assert_ne!(f1, f3);
    assert_eq!(b.type_defs.len(), 3);
}

#[test]
fn type_words_are_exact() {
    let int: Reference<TypeDesc> = Reference::new(4);
    let t = TypeDesc::Func(vec![
        ArgType::Concrete(Adapted { params: vec![ArgType::Generic(7)], item: int }),
    ]);
    assert_eq!(t.encode(), vec![11, 1, 0, 4, 1, 1, 7]);
    assert_eq!(TypeDesc::Tuple(vec![Reference::new(2), Reference::new(5)]).encode(), vec![12, 2, 2, 5]);
    assert_eq!(TypeDesc::BottomThunk.encode(), vec![13]);
    assert_eq!(TypeDesc::Int32.encode(), vec![14]);
}

#[test]
fn module_paths_are_interned() {
    let mut b = ModuleBuilder::new();
    let x = b.import_module("x".to_string());
    let y = b.import_module("y".to_string());
    let x2 = b.import_module("x".to_string());
    assert_eq!(x, x2);
    assert_ne!(x, y);
    assert_eq!(b.imported_modules.len(), 2);
}

#[test]
fn imports_share_symbols_and_skip_arity() {
    let mut b = ModuleBuilder::new();
    let src = b.import_module("lib".to_string());
    let local = b.create_atom("t".to_string(), 1).unwrap();
    let imported = b.import_atom("t".to_string(), src);
    let again = b.import_atom("t".to_string(), src);
    assert_eq!(imported, again);
    assert_ne!(local, imported);
    assert_eq!(b.symbols.len(), 1);
    assert_eq!(b.atom_imports.len(), 1);
    assert_eq!(b.atom_uses.len(), 2);
}

#[test]
fn repeated_imports_reuse_their_entries() {
    let mut b = ModuleBuilder::new();
    let src = b.import_module("lib".to_string());
    let f1 = b.import_function("f".to_string(), src);
    let f2 = b.import_function("f".to_string(), src);
    assert_eq!(f1, f2);
    assert_eq!(b.func_imports.len(), 1);
    assert_eq!(b.func_uses.len(), 1);
    let body = b.create_function(exec_function());
    assert_eq!(body.get_inner(), 1);
    assert_eq!(b.func_uses.len(), 2);
}

#[test]
fn functions_are_never_merged() {
    let mut b = ModuleBuilder::new();
    let f = b.create_function(exec_function());
    let g = b.create_function(exec_function());
    assert_ne!(f, g);
    assert_eq!(b.func_defs.len(), 2);
    b.export_function("f".to_string(), f);
    assert_eq!(b.func_exports.len(), 1);
    let src = b.import_module("other".to_string());
    let h = b.import_function("h".to_string(), src);
    assert_eq!(h.get_inner(), 2);
}

#[test]
fn finish_keeps_every_handle_in_place() {
    let mut b = ModuleBuilder::new();
    let src = b.import_module("lib".to_string());
    let yes = b.create_atom("yes".to_string(), 0).unwrap();
    let no = b.create_atom("no".to_string(), 2).unwrap();
    let ext = b.import_atom("maybe".to_string(), src);
    let ty = b.register_type(TypeDesc::Int32);
    let f = b.create_function(Function {
        args: vec![Arg { val: Value(0), type_ref: Synced { adjusted_generics: vec![], desc: ty } }],
        def: vec![Def { dec: Value(1), op: Op::LoadAtom { atom_ref: no } }],
        term: Terminal::MatchAtom(Match {
            arms: vec![MatchArm { val: yes, branch: Value(1) }],
            default: Value(0),
        }),
    });
    b.export_function("main".to_string(), f);
    let m = b.finish();
    assert_eq!(m.symbols, vec!["yes".to_string(), "no".to_string(), "maybe".to_string(), "main".to_string()]);
    assert_eq!(m.imported_modules, vec!["lib".to_string()]);
    assert_eq!(m.atom_defs.len(), 2);
    assert_eq!(m.atom_defs[1].num_members, 2);
    assert_eq!(m.atom_defs[1].name.get_inner(), 1);
    assert!(matches!(m.atom_uses[yes.get_inner()], Use::Internal(r) if r.get_inner() == 0));
    assert!(matches!(m.atom_uses[no.get_inner()], Use::Internal(r) if r.get_inner() == 1));
    assert!(matches!(m.atom_uses[ext.get_inner()], Use::External(r) if r.get_inner() == 0));
    assert_eq!(m.atom_imports[0].name_ref().get_inner(), 2);
    assert_eq!(m.atom_imports[0].source_ref(), src);
    assert_eq!(m.func_defs.len(), 1);
    assert_eq!(m.func_exports[0].rf, f);
    assert_eq!(m.func_exports[0].name.get_inner(), 3);
    assert_eq!(m.type_defs.len(), 1);
}

#[test]
fn containers_hand_out_positions() {
    let mut map: IndexMap<String, usize> = IndexMap::new();
    assert_eq!(map.insert("k".to_string(), 1).unwrap().get_inner(), 0);
    assert_eq!(map.insert("j".to_string(), 1).unwrap().get_inner(), 1);
    assert_eq!(map.insert("k".to_string(), 1).unwrap().get_inner(), 0);
    assert!(map.insert("k".to_string(), 5).is_err());
    assert_eq!(map.find(&"j".to_string()), Some(1));
    assert_eq!(map.finish(), vec![("k".to_string(), 1), ("j".to_string(), 1)]);

    let mut set: IndexSet<String> = IndexSet::new();
    set.insert("b".to_string());
    set.insert("a".to_string());
    set.insert("b".to_string());
    assert_eq!(set.finish(), vec!["b".to_string(), "a".to_string()]);

    let mut v: IndexVec<u32> = IndexVec::new();
    assert_eq!(v.insert(9).get_inner(), 0);
    assert_eq!(v.insert(9).get_inner(), 1);
    assert_eq!(v.finish(), vec![9, 9]);
}

#[test]
fn ref_set_tracks_membership() {
    let mut s: RefSet<String> = RefSet::new();
    assert!(!s.contains(Reference::new(3)));
    s.insert(Reference::new(3));
    s.insert(Reference::new(700));
    assert!(s.contains(Reference::new(3)));
    assert!(s.contains(Reference::new(700)));
    assert!(!s.contains(Reference::new(4)));
    assert!(!s.contains(Reference::new(5_000_000)));
}

#[test]
fn retag_keeps_the_index() {
    let r: Reference<String> = Reference::new(6);
    let t: Reference<TypeDesc> = r.retag();
    assert_eq!(t.get_inner(), 6);
}

#[test]
fn bounds_from_range_and_compare_equal() {
    let b = Bounds::from(3..9);
    assert_eq!(b.start, 3);
    assert_eq!(b.end, 9);
    assert_eq!(b, Bounds::from(0..1));
}

#[test]
fn references_order_by_index() {
    let a: Reference<String> = Reference::new(2);
    let b: Reference<String> = Reference::new(5);
    assert!(a < b);
    assert!(b > a);
    assert_eq!(a.partial_cmp(&Reference::new(2)), Some(std::cmp::Ordering::Equal));
}

fn member(atom: usize) -> Adapted<Reference<cabidge_code::module::Atom>> {
    Adapted { params: vec![], item: Reference::new(atom) }
}

#[test]
fn atom_groups_ignore_member_order_and_repeats() {
    let mut b = ModuleBuilder::new();
    b.create_atom("a".to_string(), 0).unwrap();
    b.create_atom("b".to_string(), 0).unwrap();
    let g1 = b.register_type(TypeDesc::AtomGroup(vec![member(0), member(1)]));
    let g2 = b.register_type(TypeDesc::AtomGroup(vec![member(1), member(0)]));
    let g3 = b.register_type(TypeDesc::AtomGroup(vec![member(1), member(0), member(1)]));
    assert_eq!(g1, g2);
    assert_eq!(g1, g3);
    assert_eq!(b.type_defs.len(), 1);
    let single = b.register_type(TypeDesc::AtomGroup(vec![member(0), member(0)]));
    let single2 = b.register_type(TypeDesc::AtomGroup(vec![member(0)]));
    assert_eq!(single, single2);
    assert_ne!(single, g1);
    let m = b.finish();
    match &m.type_defs[g1.get_inner()] {
        TypeDesc::AtomGroup(v) => {
            assert_eq!(v.len(), 2);
            assert_eq!(v[0].item.get_inner(), 0);
            assert_eq!(v[1].item.get_inner(), 1);
        }
        _ => panic!("expected a group"),
    }
}

#[test]
fn group_members_with_params_sort_by_words() {
    let ty: Reference<TypeDesc> = Reference::new(0);
    let with = |g: u32| Adapted {
        params: vec![ArgType::Concrete(Adapted { params: vec![], item: ty }), ArgType::Generic(g)],
        item: Reference::new(0),
    };
    let sorted = cabidge_code::module::canonical_members(vec![with(5), member(2), with(3), with(5)]);
    assert_eq!(sorted.len(), 3);
    assert_eq!(sorted[0].params.len(), 2);
    assert!(matches!(sorted[0].params[1], ArgType::Generic(3)));
    assert!(matches!(sorted[1].params[1], ArgType::Generic(5)));
    assert_eq!(sorted[2].item.get_inner(), 2);
}
