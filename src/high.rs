//! The linker: merges a module and everything it imports, transitively, into
//! one program in which every reference is resolved.

use vstd::prelude::*;

use crate::func::{self, Arg, Match, MatchArm, Synced, Terminal, Value};
use crate::gen::{Content, IndexMap, IndexSet, IndexVec, RefSet, REF_LIMIT};
use crate::module::{
    canonical_members, arg_refs_below, arg_words, args_refs_below, lemma_args_words_cover, Adapted, ArgType,
    Atom as ModAtom, Module, Reference, TypeDesc, Use,
};

verus! {

pub enum Op {
    Terminate(Value),
    // Any I/O operators will also need a continuation parameter
    WriteStd(Value),
    Add(Value, Value),
    Sub(Value, Value),
    Mul(Value, Value),
    Div(Value, Value),
    LoadFunc(Reference<Function>),
    LoadAtom(Reference<Atom>),
    Apply { f: Value, args: Vec<Value> },
}

/// A function of the linked program: its references point into the
/// program's own tables.
pub struct Function {
    pub args: Vec<Arg>,
    pub assgns: Vec<Assignment>,
    pub terminal: Terminal<Atom>,
}

pub struct Assignment {
    pub val: Value,
    pub op: Op,
}

/// Names a symbol of the program: the module it is defined in and its name.
#[derive(Debug, Clone, Copy)]
pub struct AtomDesc {
    pub source: Reference<String>,
    pub name: Reference<String>,
}

impl View for AtomDesc {
    type V = (usize, usize);

    open spec fn view(&self) -> (usize, usize) {
        (self.source@, self.name@)
    }
}

impl Content for AtomDesc {
    fn same(&self, other: &Self) -> (r: bool) {
        self.source.get_inner() == other.source.get_inner() && self.name.get_inner()
            == other.name.get_inner()
    }
}

#[derive(Debug, Clone, Copy)]
pub struct Atom {
    pub desc: AtomDesc,
    pub num_members: usize,
}

/// Why a link fails. No partial program is ever produced.
///
/// There is no arity error: this IR records no member count where an atom
/// is used (a match arm or a load), and an atom import carries none, so a
/// declared count has nothing to be checked against.
#[derive(Debug, Clone, Copy, PartialEq, Eq, Structural)]
pub enum LinkErr {
    /// One module defines a name twice with different payloads.
    NameCollision,
    /// An imported module path, or a symbol in it, is not there.
    UnresolvedImport,
    /// A reserved function slot was never filled.
    UnfilledForwardReference,
    /// An index exceeds the length of its table.
    OutOfBoundsReference,
    /// More module paths than the absorbed-set can hold.
    ModuleLimit,
}

/// The flattened, fully resolved result of a link.
pub struct Program {
    pub symbols: Vec<String>,
    pub modules: Vec<String>,
    pub atoms: Vec<Atom>,
    pub types: Vec<TypeDesc>,
    pub funcs: Vec<Function>,
    /// Each exported function, by module and name, with its position in `funcs`.
    pub exports: Vec<(AtomDesc, usize)>,
}

/// Every reference of `f` is in bounds for tables of the given lengths.
pub open spec fn func_wf(f: Function, n_atoms: nat, n_funcs: nat, n_types: nat) -> bool {
    &&& forall|i: int| 0 <= i < f.args@.len() ==> (#[trigger] f.args@[i]).type_ref.desc@ < n_types
    &&& forall|i: int|
        0 <= i < f.assgns@.len() ==> match (#[trigger] f.assgns@[i]).op {
            Op::LoadFunc(r) => r@ < n_funcs,
            Op::LoadAtom(r) => r@ < n_atoms,
            _ => true,
        }
    &&& match f.terminal {
        Terminal::MatchAtom(m) => forall|i: int|
            0 <= i < m.arms@.len() ==> (#[trigger] m.arms@[i]).val@ < n_atoms,
        _ => true,
    }
}

proof fn lemma_func_wf_grow(f: Function, a0: nat, f0: nat, t0: nat, a1: nat, f1: nat, t1: nat)
    requires
        func_wf(f, a0, f0, t0),
        a0 <= a1,
        f0 <= f1,
        t0 <= t1,
    ensures
        func_wf(f, a1, f1, t1),
{
    assert forall|i: int| 0 <= i < f.assgns@.len() implies match (#[trigger] f.assgns@[i]).op {
        Op::LoadFunc(r) => r@ < f1,
        Op::LoadAtom(r) => r@ < a1,
        _ => true,
    } by {
        match f.assgns@[i].op {
            Op::LoadFunc(r) => {},
            Op::LoadAtom(r) => {},
            _ => {},
        }
    }
}

impl Program {
    /// Every reference of the program is in bounds for its table.
    pub open spec fn wf(&self) -> bool {
        &&& forall|i: int|
            0 <= i < self.funcs@.len() ==> func_wf(
                #[trigger] self.funcs@[i],
                self.atoms@.len(),
                self.funcs@.len(),
                self.types@.len(),
            )
        &&& forall|i: int|
            0 <= i < self.atoms@.len() ==> (#[trigger] self.atoms@[i]).desc.source@
                < self.modules@.len() && self.atoms@[i].desc.name@ < self.symbols@.len()
        &&& forall|i: int|
            0 <= i < self.exports@.len() ==> (#[trigger] self.exports@[i]).1 < self.funcs@.len()
                && self.exports@[i].0.source@ < self.modules@.len() && self.exports@[i].0.name@
                < self.symbols@.len()
        &&& forall|i: int|
            0 <= i < self.types@.len() ==> (#[trigger] self.types@[i]).refs_below(
                self.atoms@.len(),
                self.types@.len(),
            ) && self.types@[i].is_canonical()
    }
}

/// Rewrites an argument type of a module into the merged tables: `types`
/// maps the module's types that precede the one being rewritten.
fn rewrite_arg(a: &ArgType, types: &Vec<usize>, Ghost(n_types): Ghost<nat>) -> (r: Result<ArgType, LinkErr>)
    requires
        all_below(types@, n_types),
    ensures
        r matches Ok(x) ==> arg_refs_below(x, n_types),
    decreases arg_words(*a).len(),
{
    match a {
        ArgType::Generic(n) => Ok(ArgType::Generic(*n)),
        ArgType::Concrete(ad) => {
            let t = ad.item.get_inner();
            if t >= types.len() {
                return Err(LinkErr::OutOfBoundsReference);
            }
            let mut params: Vec<ArgType> = Vec::new();
            let mut i: usize = 0;
            while i < ad.params.len()
                invariant
                    *a == ArgType::Concrete(*ad),
                    all_below(types@, n_types),
                    args_refs_below(params@, n_types),
                decreases ad.params@.len() - i,
            {
                proof {
                    lemma_args_words_cover(ad.params@, i as int);
                }
                let x = rewrite_arg(&ad.params[i], types, Ghost(n_types))?;
                let ghost before = params@;
                params.push(x);
                assert(params@.drop_last() == before);
                i = i + 1;
            }
            Ok(ArgType::Concrete(Adapted { params, item: Reference::new(types[t]) }))
        },
    }
}

/// Rewrites every argument type of a list.
fn rewrite_args(v: &Vec<ArgType>, types: &Vec<usize>, Ghost(n_types): Ghost<nat>) -> (r: Result<Vec<ArgType>, LinkErr>)
    requires
        all_below(types@, n_types),
    ensures
        r matches Ok(w) ==> w@.len() == v@.len() && args_refs_below(w@, n_types),
{
    let mut out: Vec<ArgType> = Vec::new();
    let mut i: usize = 0;
    while i < v.len()
        invariant
            i <= v@.len(),
            out@.len() == i,
            all_below(types@, n_types),
            args_refs_below(out@, n_types),
        decreases v@.len() - i,
    {
        let x = rewrite_arg(&v[i], types, Ghost(n_types))?;
        let ghost before = out@;
        out.push(x);
        assert(out@.drop_last() == before);
        i = i + 1;
    }
    Ok(out)
}

/// Rewrites a type of a module into the merged tables. A type may only
/// refer to types defined before it, whose merged positions `types` holds;
/// `atoms` maps the module's atom definitions.
fn rewrite_type(
    t: &TypeDesc,
    types: &Vec<usize>,
    atoms: &Vec<usize>,
    Ghost(n_atoms): Ghost<nat>,
    Ghost(n_types): Ghost<nat>,
) -> (r: Result<TypeDesc, LinkErr>)
    requires
        all_below(types@, n_types),
        all_below(atoms@, n_atoms),
    ensures
        r matches Ok(x) ==> x.refs_below(n_atoms, n_types) && x.is_canonical(),
{
    match t {
        TypeDesc::AtomGroup(v) => {
            let mut out: Vec<Adapted<Reference<ModAtom>>> = Vec::new();
            let mut i: usize = 0;
            while i < v.len()
                invariant
                    all_below(types@, n_types),
                    all_below(atoms@, n_atoms),
                    forall|k: int|
                        0 <= k < out@.len() ==> (#[trigger] out@[k]).item@ < n_atoms && args_refs_below(
                            out@[k].params@,
                            n_types,
                        ),
                decreases v@.len() - i,
            {
                let a = v[i].item.get_inner();
                if a >= atoms.len() {
                    return Err(LinkErr::OutOfBoundsReference);
                }
                let params = rewrite_args(&v[i].params, types, Ghost(n_types))?;
                out.push(Adapted { params, item: Reference::new(atoms[a]) });
                i = i + 1;
            }
            let ghost before = out@;
            let members = canonical_members(out);
            proof {
                assert forall|k: int| 0 <= k < members@.len() implies (#[trigger] members@[k]).item@ < n_atoms
                    && args_refs_below(members@[k].params@, n_types) by {
                    let t = choose|t: int| 0 <= t < before.len() && members@[k] == before[t];
                }
            }
            Ok(TypeDesc::AtomGroup(members))
        },
        TypeDesc::Func(v) => Ok(TypeDesc::Func(rewrite_args(v, types, Ghost(n_types))?)),
        TypeDesc::Tuple(v) => {
            let mut out: Vec<Reference<TypeDesc>> = Vec::new();
            let mut i: usize = 0;
            while i < v.len()
                invariant
                    all_below(types@, n_types),
                    forall|k: int| 0 <= k < out@.len() ==> (#[trigger] out@[k])@ < n_types,
                decreases v@.len() - i,
            {
                let k = v[i].get_inner();
                if k >= types.len() {
                    return Err(LinkErr::OutOfBoundsReference);
                }
                out.push(Reference::new(types[k]));
                i = i + 1;
            }
            Ok(TypeDesc::Tuple(out))
        },
        TypeDesc::BottomThunk => Ok(TypeDesc::BottomThunk),
        TypeDesc::Int32 => Ok(TypeDesc::Int32),
    }
}

/// Whether the library holds a module at `path`.
pub open spec fn in_library(library: Seq<(String, Module)>, path: Seq<char>) -> bool {
    exists|i: int| 0 <= i < library.len() && (#[trigger] library[i]).0@ == path
}

/// The position of the first module of the library at `path`.
fn find_module(library: &Vec<(String, Module)>, path: &String) -> (r: Option<usize>)
    ensures
        match r {
            Some(i) => i < library@.len() && library@[i as int].0@ == path@,
            None => !in_library(library@, path@),
        },
{
    let mut i: usize = 0;
    while i < library.len()
        invariant
            i <= library@.len(),
            forall|k: int| 0 <= k < i ==> (#[trigger] library@[k]).0@ != path@,
        decreases library@.len() - i,
    {
        if library[i].0.eq(path) {
            return Some(i);
        }
        i = i + 1;
    }
    None
}

/// Every entry of `s` is below `n`.
pub open spec fn all_below(s: Seq<usize>, n: nat) -> bool {
    forall|i: int| 0 <= i < s.len() ==> #[trigger] s[i] < n
}

proof fn lemma_below_grow(s: Seq<usize>, n0: nat, n1: nat)
    requires
        all_below(s, n0),
        n0 <= n1,
    ensures
        all_below(s, n1),
{
}

/// How the tables of one absorbed module map into the merged tables.
struct Absorbed {
    /// Its position in the library.
    index: usize,
    /// Its path, in the merged path table.
    path: usize,
    symbols: Vec<usize>,
    modules: Vec<usize>,
    atoms: Vec<usize>,
    types: Vec<usize>,
    /// The merged slot of its first function.
    func_base: usize,
}

/// The linker's accumulated state.
pub struct ModMerge {
    symbols: IndexSet<String>,
    absorbed_modules: RefSet<String>,
    modules: IndexSet<String>,
    atoms: IndexMap<AtomDesc, usize>,
    atom_aliases: IndexMap<AtomDesc, AtomDesc>,
    types: IndexSet<TypeDesc>,
    func_defs: IndexVec<Option<Function>>,
    func_names: IndexMap<AtomDesc, usize>,
    func_aliases: IndexMap<AtomDesc, AtomDesc>,
    /// The error of the last link that failed, if any: a merge that saw a
    /// failure never yields a program.
    failure: Option<LinkErr>,
}

/// Every key names a module and a symbol below the given bounds.
pub open spec fn descs_wf<D>(s: Seq<((usize, usize), D)>, n_modules: nat, n_symbols: nat) -> bool {
    forall|i: int|
        0 <= i < s.len() ==> (#[trigger] s[i]).0.0 < n_modules && s[i].0.1 < n_symbols
}

impl ModMerge {
    /// The paths absorbed so far, as positions of the merged path table.
    pub closed spec fn absorbed(&self) -> Set<usize> {
        self.absorbed_modules@
    }

    /// The merged path table.
    pub closed spec fn paths(&self) -> Seq<Seq<char>> {
        self.modules@
    }

    /// The error of the last failed link, if any.
    pub closed spec fn failure(&self) -> Option<LinkErr> {
        self.failure
    }

    /// The merged symbol table.
    pub closed spec fn symbol_table(&self) -> Seq<Seq<char>> {
        self.symbols@
    }

    /// The merged atoms: each one's module and name, with its member count.
    pub closed spec fn atom_table(&self) -> Seq<((usize, usize), usize)> {
        self.atoms@
    }

    /// The merged types.
    pub closed spec fn type_table(&self) -> Seq<TypeDesc> {
        self.types.items()
    }

    /// The function slots, filled or still reserved.
    pub closed spec fn slots(&self) -> Seq<Option<Function>> {
        self.func_defs@
    }

    /// The exported functions: each one's module and name, with its slot.
    pub closed spec fn export_table(&self) -> Seq<((usize, usize), usize)> {
        self.func_names@
    }

    /// Every table is well formed, every stored reference is in bounds, and
    /// every filled slot holds a function whose references are in bounds.
    pub closed spec fn wf(&self) -> bool {
        let n_funcs = self.func_defs@.len();
        &&& self.symbols.wf()
        &&& self.modules.wf()
        &&& self.atoms.wf()
        &&& self.atom_aliases.wf()
        &&& self.types.wf()
        &&& self.func_names.wf()
        &&& self.func_aliases.wf()
        &&& descs_wf(self.atoms@, self.modules@.len(), self.symbols@.len())
        &&& descs_wf(self.func_names@, self.modules@.len(), self.symbols@.len())
        &&& forall|p: usize| #[trigger] self.absorbed_modules@.contains(p) ==> p < self.modules@.len()
        &&& forall|i: int|
            0 <= i < self.types.items().len() ==> (#[trigger] self.types.items()[i]).refs_below(
                self.atoms@.len(),
                self.types@.len(),
            ) && self.types.items()[i].is_canonical()
        &&& forall|i: int| 0 <= i < self.func_names@.len() ==> (#[trigger] self.func_names@[i]).1 < n_funcs
        &&& forall|i: int|
            0 <= i < n_funcs ==> match #[trigger] self.func_defs@[i] {
                Some(f) => func_wf(f, self.atoms@.len(), n_funcs, self.types@.len()),
                None => true,
            }
    }

    pub fn new() -> (r: Self)
        ensures
            r.wf(),
            r.absorbed() == Set::<usize>::empty(),
            r.paths() == Seq::<Seq<char>>::empty(),
            r.failure() is None,
            r.slot_count() == 0,
            r.atom_count() == 0,
            r.symbol_table() == Seq::<Seq<char>>::empty(),
            r.type_table() == Seq::<TypeDesc>::empty(),
            r.export_table() == Seq::<((usize, usize), usize)>::empty(),
    {
        let r = ModMerge {
            symbols: IndexSet::new(),
            absorbed_modules: RefSet::new(),
            modules: IndexSet::new(),
            atoms: IndexMap::new(),
            atom_aliases: IndexMap::new(),
            types: IndexSet::new(),
            func_defs: IndexVec::new(),
            func_names: IndexMap::new(),
            func_aliases: IndexMap::new(),
            failure: None,
        };
        proof {
            r.types.lemma_items();
        }
        r
    }

    /// `rec` maps the tables of `m` into the merged tables.
    closed spec fn rec_wf(&self, rec: &Absorbed, m: &Module) -> bool {
        &&& rec.symbols@.len() == m.symbols@.len()
        &&& all_below(rec.symbols@, self.symbols@.len())
        &&& rec.modules@.len() == m.imported_modules@.len()
        &&& all_below(rec.modules@, self.modules@.len())
        &&& rec.atoms@.len() == m.atom_defs@.len()
        &&& all_below(rec.atoms@, self.atoms@.len())
        &&& rec.types@.len() == m.type_defs@.len()
        &&& all_below(rec.types@, self.types@.len())
        &&& rec.func_base + m.func_defs@.len() <= self.func_defs@.len()
        &&& rec.path < self.modules@.len()
    }

    /// The merged name of an imported symbol, given the positions of its
    /// name and of its source among the module's own tables.
    fn import_key(rec: &Absorbed, name: usize, source: usize) -> (r: Result<AtomDesc, LinkErr>)
        ensures
            match r {
                Ok(d) => name < rec.symbols@.len() && source < rec.modules@.len() && d@ == (
                    rec.modules@[source as int],
                    rec.symbols@[name as int],
                ),
                Err(e) => e == LinkErr::OutOfBoundsReference,
            },
    {
        if name >= rec.symbols.len() || source >= rec.modules.len() {
            return Err(LinkErr::OutOfBoundsReference);
        }
        Ok(AtomDesc { source: Reference::new(rec.modules[source]), name: Reference::new(rec.symbols[name]) })
    }

    /// The merged atom that `m` uses at position `u`.
    fn resolve_atom(&self, m: &Module, rec: &Absorbed, u: usize) -> (r: Result<usize, LinkErr>)
        requires
            self.wf(),
            self.rec_wf(rec, m),
        ensures
            r matches Ok(a) ==> a < self.atoms@.len(),
    {
        if u >= m.atom_uses.len() {
            return Err(LinkErr::OutOfBoundsReference);
        }
        match &m.atom_uses[u] {
            Use::Internal(a) => {
                if a.get_inner() >= rec.atoms.len() {
                    return Err(LinkErr::OutOfBoundsReference);
                }
                Ok(rec.atoms[a.get_inner()])
            },
            Use::External(j) => {
                if j.get_inner() >= m.atom_imports.len() {
                    return Err(LinkErr::OutOfBoundsReference);
                }
                let imp = &m.atom_imports[j.get_inner()];
                let key = Self::import_key(rec, imp.name_ref().get_inner(), imp.source_ref().get_inner())?;
                Self::chase(&self.atoms, &self.atom_aliases, key)
            },
        }
    }

    /// The merged function slot that `m` uses at position `u`.
    fn resolve_func(&self, m: &Module, rec: &Absorbed, u: usize) -> (r: Result<usize, LinkErr>)
        requires
            self.wf(),
            self.rec_wf(rec, m),
        ensures
            r matches Ok(a) ==> a < self.func_defs@.len(),
    {
        if u >= m.func_uses.len() {
            return Err(LinkErr::OutOfBoundsReference);
        }
        match &m.func_uses[u] {
            Use::Internal(f) => {
                if f.get_inner() >= m.func_defs.len() {
                    return Err(LinkErr::OutOfBoundsReference);
                }
                let n_slots = self.func_defs.len();
                assert(rec.func_base + f@ < n_slots);
                Ok(rec.func_base + f.get_inner())
            },
            Use::External(j) => {
                if j.get_inner() >= m.func_imports.len() {
                    return Err(LinkErr::OutOfBoundsReference);
                }
                let imp = &m.func_imports[j.get_inner()];
                let key = Self::import_key(rec, imp.name_ref().get_inner(), imp.source_ref().get_inner())?;
                let i = Self::chase(&self.func_names, &self.func_aliases, key)?;
                Ok(*self.func_names.payload(i))
            },
        }
    }

    /// Rewrites one function body of `m` into the merged tables.
    fn rewrite_function(&self, m: &Module, rec: &Absorbed, f: &func::Function) -> (r: Result<Function, LinkErr>)
        requires
            self.wf(),
            self.rec_wf(rec, m),
        ensures
            r matches Ok(g) ==> func_wf(g, self.atoms@.len(), self.func_defs@.len(), self.types@.len()),
    {
        let mut args: Vec<Arg> = Vec::new();
        let mut i: usize = 0;
        while i < f.args.len()
            invariant
                self.rec_wf(rec, m),
                forall|k: int| 0 <= k < args@.len() ==> (#[trigger] args@[k]).type_ref.desc@ < self.types@.len(),
            decreases f.args@.len() - i,
        {
            let a = &f.args[i];
            let t = a.type_ref.desc.get_inner();
            if t >= rec.types.len() {
                return Err(LinkErr::OutOfBoundsReference);
            }
            args.push(Arg {
                val: a.val,
                type_ref: Synced {
                    adjusted_generics: a.type_ref.adjusted_generics.clone(),
                    desc: Reference::new(rec.types[t]),
                },
            });
            i = i + 1;
        }
        let mut assgns: Vec<Assignment> = Vec::new();
        let mut i: usize = 0;
        while i < f.def.len()
            invariant
                self.wf(),
                self.rec_wf(rec, m),
                forall|k: int|
                    0 <= k < assgns@.len() ==> match (#[trigger] assgns@[k]).op {
                        Op::LoadFunc(r) => r@ < self.func_defs@.len(),
                        Op::LoadAtom(r) => r@ < self.atoms@.len(),
                        _ => true,
                    },
            decreases f.def@.len() - i,
        {
            let d = &f.def[i];
            let op = match &d.op {
                func::Op::LoadFunc(u) => Op::LoadFunc(Reference::new(self.resolve_func(m, rec, u.get_inner())?)),
                func::Op::LoadAtom { atom_ref } => Op::LoadAtom(
                    Reference::new(self.resolve_atom(m, rec, atom_ref.get_inner())?),
                ),
                func::Op::Apply { func, inputs } => Op::Apply { f: *func, args: inputs.clone() },
            };
            assgns.push(Assignment { val: d.dec, op });
            i = i + 1;
        }
        let terminal = match &f.term {
            Terminal::Exec(v) => Terminal::Exec(*v),
            Terminal::MatchNum(mt) => {
                let mut arms: Vec<MatchArm<u32>> = Vec::new();
                let mut i: usize = 0;
                while i < mt.arms.len()
                    decreases mt.arms@.len() - i,
                {
                    arms.push(MatchArm { val: mt.arms[i].val, branch: mt.arms[i].branch });
                    i = i + 1;
                }
                Terminal::MatchNum(Match { arms, default: mt.default })
            },
            Terminal::MatchAtom(mt) => {
                let mut arms: Vec<MatchArm<Reference<Atom>>> = Vec::new();
                let mut i: usize = 0;
                while i < mt.arms.len()
                    invariant
                        self.wf(),
                        self.rec_wf(rec, m),
                        forall|k: int| 0 <= k < arms@.len() ==> (#[trigger] arms@[k]).val@ < self.atoms@.len(),
                    decreases mt.arms@.len() - i,
                {
                    let a = self.resolve_atom(m, rec, mt.arms[i].val.get_inner())?;
                    arms.push(MatchArm { val: Reference::new(a), branch: mt.arms[i].branch });
                    i = i + 1;
                }
                Terminal::MatchAtom(Match { arms, default: mt.default })
            },
        };
        Ok(Function { args, assgns, terminal })
    }

    /// Every table of `self` extends the same table of `old`.
    closed spec fn grows_from(&self, old: &ModMerge) -> bool {
        &&& old.symbols@.len() <= self.symbols@.len()
        &&& old.modules@.len() <= self.modules@.len()
        &&& forall|i: int| 0 <= i < old.modules@.len() ==> #[trigger] self.modules@[i] == old.modules@[i]
        &&& old.atoms@.len() <= self.atoms@.len()
        &&& forall|i: int| 0 <= i < old.atoms@.len() ==> #[trigger] self.atoms@[i] == old.atoms@[i]
        &&& old.types@.len() <= self.types@.len()
        &&& old.func_defs@.len() <= self.func_defs@.len()
        &&& old.failure == self.failure
    }

    proof fn lemma_grows_trans(a: &ModMerge, b: &ModMerge, c: &ModMerge)
        requires
            b.grows_from(a),
            c.grows_from(b),
        ensures
            c.grows_from(a),
    {
        assert forall|i: int| 0 <= i < a.modules@.len() implies #[trigger] c.modules@[i] == a.modules@[i] by {
            assert(b.modules@[i] == a.modules@[i]);
        }
        assert forall|i: int| 0 <= i < a.atoms@.len() implies #[trigger] c.atoms@[i] == a.atoms@[i] by {
            assert(b.atoms@[i] == a.atoms@[i]);
        }
    }

    proof fn lemma_rec_grow(old: &ModMerge, new: &ModMerge, rec: &Absorbed, m: &Module)
        requires
            old.rec_wf(rec, m),
            new.grows_from(old),
        ensures
            new.rec_wf(rec, m),
    {
        lemma_below_grow(rec.symbols@, old.symbols@.len(), new.symbols@.len());
        lemma_below_grow(rec.modules@, old.modules@.len(), new.modules@.len());
        lemma_below_grow(rec.atoms@, old.atoms@.len(), new.atoms@.len());
        lemma_below_grow(rec.types@, old.types@.len(), new.types@.len());
    }

    /// Each record describes a module of the library that is absorbed, at
    /// its path, with the merged positions of the paths it imports.
    closed spec fn pending_ok(&self, pending: Seq<Absorbed>, library: Seq<(String, Module)>) -> bool {
        forall|k: int|
            0 <= k < pending.len() ==> {
                &&& (#[trigger] pending[k]).index < library.len()
                &&& pending[k].path < self.modules@.len()
                &&& library[pending[k].index as int].0@ == self.modules@[pending[k].path as int]
                &&& self.absorbed().contains(pending[k].path)
                &&& pending[k].modules@.len() == library[pending[k].index as int].1.imported_modules@.len()
                &&& self.imports_named(pending[k].modules@, &library[pending[k].index as int].1)
            }
    }

    /// Every path the records import is absorbed or still waiting.
    closed spec fn waiting_or_absorbed(&self, pending: Seq<Absorbed>, stack: Seq<usize>) -> bool {
        forall|k: int, j: int|
            0 <= k < pending.len() && 0 <= j < pending[k].modules@.len() ==> self.absorbed().contains(
                #[trigger] pending[k].modules@[j],
            ) || stack.contains(pending[k].modules@[j])
    }

    /// `mods[j]` is the merged position of the `j`-th path `m` imports.
    closed spec fn imports_named(&self, mods: Seq<usize>, m: &Module) -> bool {
        &&& mods.len() <= m.imported_modules@.len()
        &&& forall|j: int|
            0 <= j < mods.len() ==> (#[trigger] mods[j]) < self.modules@.len() && self.modules@[mods[j] as int]
                == m.imported_modules@[j]@
    }

    proof fn lemma_named_keep(old: &ModMerge, new: &ModMerge, mods: Seq<usize>, m: &Module)
        requires
            old.imports_named(mods, m),
            new.grows_from(old),
        ensures
            new.imports_named(mods, m),
    {
        assert forall|j: int| 0 <= j < mods.len() implies (#[trigger] mods[j]) < new.modules@.len()
            && new.modules@[mods[j] as int] == m.imported_modules@[j]@ by {
            assert(old.modules@[mods[j] as int] == m.imported_modules@[j]@);
        }
    }

    /// Enters the declarations of `m`, found at `index` of the library and
    /// at `path` of the merged path table: its symbols, imported paths,
    /// atoms, re-exported atoms, types, a reserved slot per function, and
    /// its exports.
    fn absorb_decls(&mut self, m: &Module, index: usize, path: usize) -> (r: Result<Absorbed, LinkErr>)
        requires
            old(self).wf(),
            path < old(self).modules@.len(),
        ensures
            final(self).wf(),
            r matches Ok(rec) ==> {
                &&& final(self).wf()
                &&& final(self).grows_from(old(self))
                &&& final(self).absorbed() == old(self).absorbed()
                &&& final(self).rec_wf(&rec, m)
                &&& rec.index == index
                &&& rec.path == path
                &&& final(self).imports_named(rec.modules@, m)
                &&& forall|i: int|
                    old(self).atoms@.len() <= i < final(self).atoms@.len() ==> (#[trigger] final(self).atoms@[i]).0.0 == path
            },
    {
        let ghost g = *self;
        let mut symbols: Vec<usize> = Vec::new();
        let mut i: usize = 0;
        while i < m.symbols.len()
            invariant
                self.wf(),
                self.grows_from(&g),
                self.absorbed() == g.absorbed(),
                path < self.modules@.len(),
                forall|i: int| g.atoms@.len() <= i < self.atoms@.len() ==> (#[trigger] self.atoms@[i]).0.0 == path,
                i <= m.symbols@.len(),
                symbols@.len() == i,
                all_below(symbols@, self.symbols@.len()),
            decreases m.symbols@.len() - i,
        {
            let ghost before = *self;
            let s = self.intern_symbol(m.symbols[i].clone());
            proof {
                Self::lemma_grows_trans(&g, &before, self);
                lemma_below_grow(symbols@, before.symbols@.len(), self.symbols@.len());
            }
            symbols.push(s);
            i = i + 1;
        }
        let mut modules: Vec<usize> = Vec::new();
        let mut i: usize = 0;
        while i < m.imported_modules.len()
            invariant
                self.wf(),
                self.grows_from(&g),
                self.absorbed() == g.absorbed(),
                path < self.modules@.len(),
                forall|i: int| g.atoms@.len() <= i < self.atoms@.len() ==> (#[trigger] self.atoms@[i]).0.0 == path,
                i <= m.imported_modules@.len(),
                modules@.len() == i,
                symbols@.len() == m.symbols@.len(),
                all_below(symbols@, self.symbols@.len()),
                all_below(modules@, self.modules@.len()),
                self.imports_named(modules@, m),
            decreases m.imported_modules@.len() - i,
        {
            let ghost before = *self;
            let p = self.intern_path(m.imported_modules[i].clone());
            proof {
                Self::lemma_grows_trans(&g, &before, self);
                lemma_below_grow(symbols@, before.symbols@.len(), self.symbols@.len());
                lemma_below_grow(modules@, before.modules@.len(), self.modules@.len());
                Self::lemma_named_keep(&before, self, modules@, m);
            }
            modules.push(p);
            proof {
                assert(self.modules@[p as int] == m.imported_modules@[i as int]@);
            }
            i = i + 1;
        }
        let mut atoms: Vec<usize> = Vec::new();
        let mut i: usize = 0;
        while i < m.atom_defs.len()
            invariant
                self.wf(),
                self.grows_from(&g),
                self.absorbed() == g.absorbed(),
                path < self.modules@.len(),
                forall|i: int| g.atoms@.len() <= i < self.atoms@.len() ==> (#[trigger] self.atoms@[i]).0.0 == path,
                i <= m.atom_defs@.len(),
                atoms@.len() == i,
                symbols@.len() == m.symbols@.len(),
                modules@.len() == m.imported_modules@.len(),
                all_below(symbols@, self.symbols@.len()),
                all_below(modules@, self.modules@.len()),
                self.imports_named(modules@, m),
                all_below(atoms@, self.atoms@.len()),
            decreases m.atom_defs@.len() - i,
        {
            let ghost before = *self;
            let name = m.atom_defs[i].name.get_inner();
            if name >= symbols.len() {
                return Err(LinkErr::OutOfBoundsReference);
            }
            let d = AtomDesc { source: Reference::new(path), name: Reference::new(symbols[name]) };
            let a = self.intern_atom(d, m.atom_defs[i].num_members)?;
            proof {
                Self::lemma_grows_trans(&g, &before, self);
                lemma_below_grow(symbols@, before.symbols@.len(), self.symbols@.len());
                lemma_below_grow(modules@, before.modules@.len(), self.modules@.len());
                Self::lemma_named_keep(&before, self, modules@, m);
                lemma_below_grow(atoms@, before.atoms@.len(), self.atoms@.len());
            }
            atoms.push(a);
            i = i + 1;
        }
        let mut i: usize = 0;
        while i < m.atom_imports.len()
            invariant
                self.wf(),
                self.grows_from(&g),
                self.absorbed() == g.absorbed(),
                path < self.modules@.len(),
                forall|i: int| g.atoms@.len() <= i < self.atoms@.len() ==> (#[trigger] self.atoms@[i]).0.0 == path,
                symbols@.len() == m.symbols@.len(),
                modules@.len() == m.imported_modules@.len(),
                atoms@.len() == m.atom_defs@.len(),
                all_below(symbols@, self.symbols@.len()),
                all_below(modules@, self.modules@.len()),
                self.imports_named(modules@, m),
                all_below(atoms@, self.atoms@.len()),
            decreases m.atom_imports@.len() - i,
        {
            let name = m.atom_imports[i].name_ref().get_inner();
            let source = m.atom_imports[i].source_ref().get_inner();
            if name >= symbols.len() || source >= modules.len() {
                return Err(LinkErr::OutOfBoundsReference);
            }
            let key = AtomDesc { source: Reference::new(path), name: Reference::new(symbols[name]) };
            let target = AtomDesc { source: Reference::new(modules[source]), name: Reference::new(symbols[name]) };
            Self::alias(&mut self.atom_aliases, key, target);
            i = i + 1;
        }
        let mut types: Vec<usize> = Vec::new();
        let mut i: usize = 0;
        while i < m.type_defs.len()
            invariant
                self.wf(),
                self.grows_from(&g),
                self.absorbed() == g.absorbed(),
                path < self.modules@.len(),
                forall|i: int| g.atoms@.len() <= i < self.atoms@.len() ==> (#[trigger] self.atoms@[i]).0.0 == path,
                i <= m.type_defs@.len(),
                types@.len() == i,
                symbols@.len() == m.symbols@.len(),
                modules@.len() == m.imported_modules@.len(),
                atoms@.len() == m.atom_defs@.len(),
                all_below(symbols@, self.symbols@.len()),
                all_below(modules@, self.modules@.len()),
                self.imports_named(modules@, m),
                all_below(atoms@, self.atoms@.len()),
                all_below(types@, self.types@.len()),
            decreases m.type_defs@.len() - i,
        {
            let ghost before = *self;
            let t = rewrite_type(
                &m.type_defs[i],
                &types,
                &atoms,
                Ghost(self.atoms@.len()),
                Ghost(self.types@.len()),
            )?;
            let h = self.intern_type(t);
            proof {
                Self::lemma_grows_trans(&g, &before, self);
                lemma_below_grow(symbols@, before.symbols@.len(), self.symbols@.len());
                lemma_below_grow(modules@, before.modules@.len(), self.modules@.len());
                Self::lemma_named_keep(&before, self, modules@, m);
                lemma_below_grow(atoms@, before.atoms@.len(), self.atoms@.len());
                lemma_below_grow(types@, before.types@.len(), self.types@.len());
            }
            types.push(h);
            i = i + 1;
        }
        let func_base = self.func_defs.len();
        let mut i: usize = 0;
        while i < m.func_defs.len()
            invariant
                self.wf(),
                self.grows_from(&g),
                self.absorbed() == g.absorbed(),
                path < self.modules@.len(),
                forall|i: int| g.atoms@.len() <= i < self.atoms@.len() ==> (#[trigger] self.atoms@[i]).0.0 == path,
                i <= m.func_defs@.len(),
                self.func_defs@.len() == func_base + i,
                symbols@.len() == m.symbols@.len(),
                modules@.len() == m.imported_modules@.len(),
                atoms@.len() == m.atom_defs@.len(),
                types@.len() == m.type_defs@.len(),
                all_below(symbols@, self.symbols@.len()),
                all_below(modules@, self.modules@.len()),
                self.imports_named(modules@, m),
                all_below(atoms@, self.atoms@.len()),
                all_below(types@, self.types@.len()),
            decreases m.func_defs@.len() - i,
        {
            let ghost before = *self;
            self.reserve_slot();
            proof {
                Self::lemma_grows_trans(&g, &before, self);
                lemma_below_grow(symbols@, before.symbols@.len(), self.symbols@.len());
                lemma_below_grow(modules@, before.modules@.len(), self.modules@.len());
                Self::lemma_named_keep(&before, self, modules@, m);
                lemma_below_grow(atoms@, before.atoms@.len(), self.atoms@.len());
                lemma_below_grow(types@, before.types@.len(), self.types@.len());
            }
            i = i + 1;
        }
        let mut i: usize = 0;
        while i < m.func_exports.len()
            invariant
                self.wf(),
                self.grows_from(&g),
                self.absorbed() == g.absorbed(),
                path < self.modules@.len(),
                forall|i: int| g.atoms@.len() <= i < self.atoms@.len() ==> (#[trigger] self.atoms@[i]).0.0 == path,
                func_base + m.func_defs@.len() <= self.func_defs@.len(),
                symbols@.len() == m.symbols@.len(),
                modules@.len() == m.imported_modules@.len(),
                atoms@.len() == m.atom_defs@.len(),
                types@.len() == m.type_defs@.len(),
                all_below(symbols@, self.symbols@.len()),
                all_below(modules@, self.modules@.len()),
                self.imports_named(modules@, m),
                all_below(atoms@, self.atoms@.len()),
                all_below(types@, self.types@.len()),
            decreases m.func_exports@.len() - i,
        {
            let ghost before = *self;
            let rf = m.func_exports[i].rf.get_inner();
            let name = m.func_exports[i].name.get_inner();
            if rf >= m.func_uses.len() || name >= symbols.len() {
                return Err(LinkErr::OutOfBoundsReference);
            }
            let key = AtomDesc { source: Reference::new(path), name: Reference::new(symbols[name]) };
            match &m.func_uses[rf] {
                Use::Internal(f) => {
                    if f.get_inner() >= m.func_defs.len() {
                        return Err(LinkErr::OutOfBoundsReference);
                    }
                    let n_slots = self.func_defs.len();
                    assert(func_base + f@ < n_slots);
                    self.name_func(key, func_base + f.get_inner())?;
                },
                Use::External(j) => {
                    if j.get_inner() >= m.func_imports.len() {
                        return Err(LinkErr::OutOfBoundsReference);
                    }
                    let imp = &m.func_imports[j.get_inner()];
                    let iname = imp.name_ref().get_inner();
                    let source = imp.source_ref().get_inner();
                    if iname >= symbols.len() || source >= modules.len() {
                        return Err(LinkErr::OutOfBoundsReference);
                    }
                    let target = AtomDesc {
                        source: Reference::new(modules[source]),
                        name: Reference::new(symbols[iname]),
                    };
                    Self::alias(&mut self.func_aliases, key, target);
                },
            }
            proof {
                Self::lemma_grows_trans(&g, &before, self);
                lemma_below_grow(symbols@, before.symbols@.len(), self.symbols@.len());
                lemma_below_grow(modules@, before.modules@.len(), self.modules@.len());
                Self::lemma_named_keep(&before, self, modules@, m);
                lemma_below_grow(atoms@, before.atoms@.len(), self.atoms@.len());
                lemma_below_grow(types@, before.types@.len(), self.types@.len());
            }
            i = i + 1;
        }
        Ok(Absorbed { index, path, symbols, modules, atoms, types, func_base })
    }

    /// Keeps `wf` across a step that grows tables and changes neither the
    /// slots nor the names of functions.
    proof fn lemma_wf_grow(old: &ModMerge, new: &ModMerge)
        requires
            old.wf(),
            new.grows_from(old),
            new.symbols.wf(),
            new.modules.wf(),
            new.atoms.wf(),
            new.atom_aliases.wf(),
            new.types.wf(),
            new.func_names.wf(),
            new.func_aliases.wf(),
            descs_wf(new.atoms@, new.modules@.len(), new.symbols@.len()),
            new.func_defs@ == old.func_defs@,
            new.func_names@ == old.func_names@,
            new.absorbed_modules@ == old.absorbed_modules@,
            forall|i: int|
                0 <= i < new.types.items().len() ==> (i < old.types.items().len()
                    && #[trigger] new.types.items()[i] == old.types.items()[i]) || (new.types.items()[i].refs_below(
                    new.atoms@.len(),
                    new.types@.len(),
                ) && new.types.items()[i].is_canonical()),
        ensures
            new.wf(),
    {
        Self::lemma_descs_grow(new.func_names@, old.modules@.len(), old.symbols@.len(), new.modules@.len(), new.symbols@.len());
        assert forall|i: int| 0 <= i < new.types.items().len() implies (#[trigger] new.types.items()[i]).refs_below(
            new.atoms@.len(),
            new.types@.len(),
        ) && new.types.items()[i].is_canonical() by {
            if i < old.types.items().len() && new.types.items()[i] == old.types.items()[i] {
                old.types.items()[i].lemma_refs_grow(old.atoms@.len(), old.types@.len(), new.atoms@.len(), new.types@.len());
            }
        }
        assert forall|i: int| 0 <= i < new.func_defs@.len() implies match #[trigger] new.func_defs@[i] {
            Some(f) => func_wf(f, new.atoms@.len(), new.func_defs@.len(), new.types@.len()),
            None => true,
        } by {
            match new.func_defs@[i] {
                Some(f) => {
                    assert(old.func_defs@[i] == Some(f));
                    lemma_func_wf_grow(f, old.atoms@.len(), old.func_defs@.len(), old.types@.len(),
                        new.atoms@.len(), new.func_defs@.len(), new.types@.len());
                },
                None => {},
            }
        }
        assert forall|i: int| 0 <= i < new.func_names@.len() implies (#[trigger] new.func_names@[i]).1 < new.func_defs@.len() by {
            assert(old.func_names@[i] == new.func_names@[i]);
        }
    }

    proof fn lemma_descs_grow<D>(s: Seq<((usize, usize), D)>, m0: nat, n0: nat, m1: nat, n1: nat)
        requires
            descs_wf(s, m0, n0),
            m0 <= m1,
            n0 <= n1,
        ensures
            descs_wf(s, m1, n1),
    {
        assert forall|i: int| 0 <= i < s.len() implies (#[trigger] s[i]).0.0 < m1 && s[i].0.1 < n1 by {
            assert(s[i].0.0 < m0);
        }
    }

    fn intern_symbol(&mut self, s: String) -> (r: usize)
        requires
            old(self).wf(),
        ensures
            final(self).wf(),
            final(self).grows_from(old(self)),
            final(self).atoms@ == old(self).atoms@,
            final(self).absorbed() == old(self).absorbed(),
            r < final(self).symbols@.len(),
    {
        let ghost g = *self;
        let h = self.symbols.insert(s);
        proof {
            Self::lemma_descs_grow(self.atoms@, g.modules@.len(), g.symbols@.len(), self.modules@.len(), self.symbols@.len());
            Self::lemma_wf_grow(&g, self);
        }
        h.get_inner()
    }

    fn intern_path(&mut self, s: String) -> (r: usize)
        requires
            old(self).wf(),
        ensures
            final(self).wf(),
            final(self).grows_from(old(self)),
            final(self).atoms@ == old(self).atoms@,
            final(self).absorbed() == old(self).absorbed(),
            r < final(self).modules@.len(),
            final(self).modules@[r as int] == s@,
            old(self).paths().contains(s@) ==> *final(self) == *old(self),
    {
        let ghost g = *self;
        let h = self.modules.insert(s);
        proof {
            assert forall|i: int| 0 <= i < g.modules@.len() implies #[trigger] self.modules@[i] == g.modules@[i] by {
                if !g.modules@.contains(s@) {
                    assert(self.modules@ == g.modules@.push(s@));
                }
            }
            Self::lemma_descs_grow(self.atoms@, g.modules@.len(), g.symbols@.len(), self.modules@.len(), self.symbols@.len());
            Self::lemma_wf_grow(&g, self);
        }
        h.get_inner()
    }

    fn intern_atom(&mut self, d: AtomDesc, num_members: usize) -> (r: Result<usize, LinkErr>)
        requires
            old(self).wf(),
            d.source@ < old(self).modules@.len(),
            d.name@ < old(self).symbols@.len(),
        ensures
            r is Err ==> *final(self) == *old(self),
            r matches Ok(a) ==> {
                &&& final(self).wf()
                &&& final(self).grows_from(old(self))
                &&& final(self).atoms@.len() == old(self).atoms@.len() || final(self).atoms@ == old(self).atoms@.push((d@, num_members))
                &&& final(self).absorbed() == old(self).absorbed()
                &&& a < final(self).atoms@.len()
            },
    {
        let ghost g = *self;
        match self.atoms.insert(d, num_members) {
            Ok(h) => {
                proof {
                    assert forall|i: int| 0 <= i < self.atoms@.len() implies (#[trigger] self.atoms@[i]).0.0
                        < self.modules@.len() && self.atoms@[i].0.1 < self.symbols@.len() by {
                        if i < g.atoms@.len() {
                            assert(self.atoms@[i] == g.atoms@[i]);
                        }
                    }
                    Self::lemma_wf_grow(&g, self);
                }
                Ok(h.get_inner())
            },
            Err(_) => Err(LinkErr::NameCollision),
        }
    }

    fn intern_type(&mut self, t: TypeDesc) -> (r: usize)
        requires
            old(self).wf(),
            t.refs_below(old(self).atoms@.len(), old(self).types@.len()),
            t.is_canonical(),
        ensures
            final(self).wf(),
            final(self).grows_from(old(self)),
            final(self).atoms@ == old(self).atoms@,
            final(self).absorbed() == old(self).absorbed(),
            r < final(self).types@.len(),
    {
        let ghost g = *self;
        let ghost tv = t;
        let h = self.types.insert(t);
        proof {
            g.types.lemma_items();
            self.types.lemma_items();
            tv.lemma_refs_grow(g.atoms@.len(), g.types@.len(), self.atoms@.len(), self.types@.len());
            Self::lemma_wf_grow(&g, self);
        }
        h.get_inner()
    }

    /// Records that `key` names whatever `target` names. A key recorded
    /// before keeps its first target.
    fn alias(aliases: &mut IndexMap<AtomDesc, AtomDesc>, key: AtomDesc, target: AtomDesc)
        requires
            old(aliases).wf(),
        ensures
            final(aliases).wf(),
    {
        let _ = aliases.insert(key, target);
    }

    /// Reserves an empty slot for a function not rewritten yet.
    fn reserve_slot(&mut self) -> (r: usize)
        requires
            old(self).wf(),
        ensures
            final(self).wf(),
            final(self).grows_from(old(self)),
            final(self).atoms@ == old(self).atoms@,
            final(self).absorbed() == old(self).absorbed(),
            r == old(self).func_defs@.len(),
            final(self).func_defs@.len() == r + 1,
    {
        let ghost g = *self;
        let h = self.func_defs.insert(None);
        proof {
            assert forall|i: int| 0 <= i < self.func_defs@.len() implies match #[trigger] self.func_defs@[i] {
                Some(f) => func_wf(f, self.atoms@.len(), self.func_defs@.len(), self.types@.len()),
                None => true,
            } by {
                if i < g.func_defs@.len() {
                    assert(self.func_defs@[i] == g.func_defs@[i]);
                    match g.func_defs@[i] {
                        Some(f) => lemma_func_wf_grow(f, g.atoms@.len(), g.func_defs@.len(), g.types@.len(),
                            self.atoms@.len(), self.func_defs@.len(), self.types@.len()),
                        None => {},
                    }
                }
            }
            assert forall|i: int| 0 <= i < self.func_names@.len() implies (#[trigger] self.func_names@[i]).1 < self.func_defs@.len() by {
                assert(g.func_names@[i] == self.func_names@[i]);
            }
        }
        h.get_inner()
    }

    /// Names the function in slot `slot`.
    fn name_func(&mut self, key: AtomDesc, slot: usize) -> (r: Result<(), LinkErr>)
        requires
            old(self).wf(),
            key.source@ < old(self).modules@.len(),
            key.name@ < old(self).symbols@.len(),
            slot < old(self).func_defs@.len(),
        ensures
            r is Err ==> *final(self) == *old(self),
            r is Ok ==> {
                &&& final(self).wf()
                &&& final(self).grows_from(old(self))
                &&& final(self).atoms@ == old(self).atoms@
                &&& final(self).absorbed() == old(self).absorbed()
                &&& final(self).func_defs@ == old(self).func_defs@
            },
    {
        let ghost g = *self;
        match self.func_names.insert(key, slot) {
            Ok(_) => {
                proof {
                    assert forall|i: int| 0 <= i < self.func_names@.len() implies (#[trigger] self.func_names@[i]).1 < self.func_defs@.len() by {
                        if i < g.func_names@.len() {
                            assert(g.func_names@[i] == self.func_names@[i]);
                        }
                    }
                    assert forall|i: int| 0 <= i < self.func_names@.len() implies (#[trigger] self.func_names@[i]).0.0
                        < self.modules@.len() && self.func_names@[i].0.1 < self.symbols@.len() by {
                        if i < g.func_names@.len() {
                            assert(g.func_names@[i] == self.func_names@[i]);
                        }
                    }
                }
                Ok(())
            },
            Err(_) => Err(LinkErr::NameCollision),
        }
    }

    /// Fills slot `slot` with a rewritten function.
    fn fill_slot(&mut self, slot: usize, f: Function)
        requires
            old(self).wf(),
            slot < old(self).func_defs@.len(),
            func_wf(f, old(self).atoms@.len(), old(self).func_defs@.len(), old(self).types@.len()),
        ensures
            final(self).wf(),
            final(self).grows_from(old(self)),
            final(self).atoms@ == old(self).atoms@,
            final(self).absorbed() == old(self).absorbed(),
            final(self).func_defs@ == old(self).func_defs@.update(slot as int, Some(f)),
    {
        let ghost g = *self;
        self.func_defs.set(slot, Some(f));
        proof {
            assert forall|i: int| 0 <= i < self.func_defs@.len() implies match #[trigger] self.func_defs@[i] {
                Some(f) => func_wf(f, self.atoms@.len(), self.func_defs@.len(), self.types@.len()),
                None => true,
            } by {
                if i != slot {
                    assert(self.func_defs@[i] == g.func_defs@[i]);
                }
            }
            assert forall|i: int| 0 <= i < self.func_names@.len() implies (#[trigger] self.func_names@[i]).1 < self.func_defs@.len() by {
                assert(g.func_names@[i] == self.func_names@[i]);
            }
        }
    }

    /// Whether the module at `path` has been absorbed.
    pub open spec fn has_absorbed(&self, path: Seq<char>) -> bool {
        exists|p: int| 0 <= p < self.paths().len() && self.paths()[p] == path && self.absorbed().contains(p as usize)
    }

    /// Whether the module at `path` has been absorbed.
    pub fn is_absorbed(&self, path: &String) -> (r: bool)
        requires
            self.wf(),
        ensures
            r == self.has_absorbed(path@),
    {
        match self.modules.find(path) {
            Some(p) => {
                let r = self.absorbed_modules.contains(Reference::new(p));
                proof {
                    if !r && self.has_absorbed(path@) {
                        let q = choose|q: int| 0 <= q < self.paths().len() && self.paths()[q] == path@ && self.absorbed().contains(q as usize);
                        self.modules.lemma_unique();
                        assert(self.modules@[q] == self.modules@[p as int]);
                    }
                }
                r
            },
            None => {
                proof {
                    if self.has_absorbed(path@) {
                        let q = choose|q: int| 0 <= q < self.paths().len() && self.paths()[q] == path@ && self.absorbed().contains(q as usize);
                        assert(self.modules@.contains(path@));
                    }
                }
                false
            },
        }
    }

    /// The paths of the absorbed modules, each once, in the order of the
    /// merged path table.
    pub fn absorbed_paths(&self) -> (r: Vec<String>)
        requires
            self.wf(),
        ensures
            forall|i: int| 0 <= i < r@.len() ==> self.has_absorbed(#[trigger] r@[i]@),
            forall|p: Seq<char>|
                self.has_absorbed(p) ==> exists|i: int| 0 <= i < r@.len() && #[trigger] r@[i]@ == p,
            r@.map_values(|x: String| x@).no_duplicates(),
    {
        let mut out: Vec<String> = Vec::new();
        let ghost mut idx: Seq<int> = Seq::empty();
        let mut i: usize = 0;
        let n = self.modules.len();
        proof {
            self.modules.lemma_unique();
        }
        while i < n
            invariant
                self.wf(),
                n == self.paths().len(),
                i <= n,
                self.paths().no_duplicates(),
                idx.len() == out@.len(),
                forall|j: int| 0 <= j < out@.len() ==> 0 <= #[trigger] idx[j] < i && out@[j]@ == self.paths()[idx[j]]
                    && self.absorbed().contains(idx[j] as usize),
                forall|j: int, k: int| 0 <= j < k < out@.len() ==> idx[j] < idx[k],
                forall|q: int|
                    0 <= q < i && #[trigger] self.absorbed().contains(q as usize) ==> exists|j: int|
                        0 <= j < out@.len() && idx[j] == q,
            decreases n - i,
        {
            let ghost idx0 = idx;
            let ghost len0 = out@.len();
            let present = self.absorbed_modules.contains(Reference::new(i));
            if present {
                let path = self.modules.get(i).clone();
                proof {
                    idx = idx.push(i as int);
                }
                out.push(path);
                proof {
                    assert(idx[out@.len() - 1] == i);
                }
            }
            proof {
                assert forall|q: int|
                    0 <= q < i + 1 && #[trigger] self.absorbed().contains(q as usize) implies exists|j: int|
                        0 <= j < out@.len() && idx[j] == q by {
                    if q < i {
                        let j = choose|j: int| 0 <= j < len0 && idx0[j] == q;
                        assert(idx[j] == idx0[j]);
                    } else {
                        assert(idx[out@.len() - 1] == q);
                    }
                }
            }
            i = i + 1;
        }
        proof {
            assert forall|j: int| 0 <= j < out@.len() implies self.has_absorbed(#[trigger] out@[j]@) by {
                assert(self.paths()[idx[j]] == out@[j]@);
            }
            assert forall|p: Seq<char>| self.has_absorbed(p) implies exists|i: int|
                0 <= i < out@.len() && #[trigger] out@[i]@ == p by {
                let q = choose|q: int| 0 <= q < self.paths().len() && self.paths()[q] == p && self.absorbed().contains(q as usize);
                let j = choose|j: int| 0 <= j < out@.len() && idx[j] == q;
                assert(out@[j]@ == p);
            }
            let v = out@.map_values(|x: String| x@);
            assert forall|j: int, k: int| 0 <= j < v.len() && 0 <= k < v.len() && j != k implies v[j] != v[k] by {
                if j < k {
                    assert(idx[j] < idx[k]);
                } else {
                    assert(idx[k] < idx[j]);
                }
                assert(v[j] == self.paths()[idx[j]]);
                assert(v[k] == self.paths()[idx[k]]);
            }
        }
        out
    }

    /// What absorbing `path` from `library` promises, taking the merge from
    /// `m0` to `m1` with result `r`.
    pub open spec fn absorb_outcome(
        m0: ModMerge,
        m1: ModMerge,
        path: Seq<char>,
        library: Seq<(String, Module)>,
        r: Result<(), LinkErr>,
    ) -> bool {
        &&& m1.wf()
        &&& r is Ok ==> m1.has_absorbed(path)
        &&& r is Ok ==> m0.absorbed().subset_of(m1.absorbed())
        &&& r is Ok ==> m1.failure() == m0.failure()
        &&& r is Ok && !m0.has_absorbed(path) ==> m1.all_filled()
        &&& m0.has_absorbed(path) ==> r is Ok && m1 == m0
        &&& r is Ok ==> forall|q: usize|
            #[trigger] m1.absorbed().contains(q) && !m0.absorbed().contains(q) ==> q
                < m1.paths().len() && in_library(library, m1.paths()[q as int])
        &&& r is Ok ==> forall|q: usize|
            #[trigger] m1.absorbed().contains(q) && !m0.absorbed().contains(q) ==> exists|i: int|
                0 <= i < library.len() && (#[trigger] library[i]).0@ == m1.paths()[q as int] && forall|j: int|
                    0 <= j < library[i].1.imported_modules@.len() ==> m1.has_absorbed(
                        #[trigger] library[i].1.imported_modules@[j]@,
                    )
        &&& r is Ok ==> m0.atom_table().len() <= m1.atom_table().len()
        &&& r is Ok ==> forall|i: int| 0 <= i < m0.atom_table().len() ==> #[trigger] m1.atom_table()[i] == m0.atom_table()[i]
        &&& r is Ok ==> forall|i: int|
            m0.atom_table().len() <= i < m1.atom_table().len() ==> m1.absorbed().contains(
                (#[trigger] m1.atom_table()[i]).0.0,
            ) && !m0.absorbed().contains(m1.atom_table()[i].0.0)
        &&& !in_library(library, path) && !m0.has_absorbed(path) ==> r == Err::<(), LinkErr>(
            LinkErr::UnresolvedImport,
        ) || r == Err::<(), LinkErr>(LinkErr::ModuleLimit)
    }

    /// Absorbs the module of `library` at `path` and, depth first, every
    /// module it imports, then rewrites their function bodies into the
    /// merged tables. A module absorbed before is not absorbed again, so
    /// import cycles end. A failure is recorded, and the merge then never
    /// yields a program.
    pub fn absorb(&mut self, path: String, library: &Vec<(String, Module)>) -> (r: Result<(), LinkErr>)
        requires
            old(self).wf(),
        ensures
            Self::absorb_outcome(*old(self), *final(self), path@, library@, r),
            r matches Err(e) ==> final(self).failure() == Some(e),
    {
        match self.absorb_tree(path, library) {
            Ok(()) => Ok(()),
            Err(e) => {
                self.failure = Some(e);
                Err(e)
            },
        }
    }

    fn absorb_tree(&mut self, path: String, library: &Vec<(String, Module)>) -> (r: Result<(), LinkErr>)
        requires
            old(self).wf(),
        ensures
            Self::absorb_outcome(*old(self), *final(self), path@, library@, r),
    {
        let ghost pv = path@;
        let ghost g0 = *self;
        let p = self.intern_path(path.clone());
        if self.absorbed_modules.contains(Reference::new(p)) {
            assert(self.paths()[p as int] == path@);
            proof {
                if g0.has_absorbed(pv) {
                    assert(g0.modules@.contains(pv));
                }
            }
            return Ok(());
        }
        proof {
            if g0.has_absorbed(pv) {
                let q = choose|q: int| 0 <= q < g0.paths().len() && g0.paths()[q] == pv && g0.absorbed().contains(q as usize);
                self.modules.lemma_unique();
                assert(self.modules@[q] == self.modules@[p as int]);
            }
            assert(!g0.has_absorbed(pv));
        }
        let ghost g = *self;
        let mut stack: Vec<usize> = Vec::new();
        stack.push(p);
        let mut pending: Vec<Absorbed> = Vec::new();
        let mut count: usize = 0;
        while stack.len() > 0 && count < library.len()
            invariant
                self.wf(),
                self.grows_from(&g),
                g.absorbed().subset_of(self.absorbed()),
                p < g.modules@.len(),
                g.modules@[p as int] == pv,
                pv == path@,
                !g0.has_absorbed(pv),
                g0 == *old(self),
                pending@.len() == count,
                count <= library@.len(),
                count == 0 ==> stack@ == seq![p] && !self.absorbed().contains(p),
                count > 0 ==> self.absorbed().contains(p) && in_library(library@, pv),
                forall|q: usize|
                    #[trigger] self.absorbed().contains(q) && !g0.absorbed().contains(q)
                        ==> in_library(library@, self.paths()[q as int]),
                forall|k: int| 0 <= k < stack@.len() ==> #[trigger] stack@[k] < self.modules@.len(),
                forall|k: int|
                    0 <= k < pending@.len() ==> (#[trigger] pending@[k]).index < library@.len()
                        && self.rec_wf(&pending@[k], &library@[pending@[k].index as int].1),
                self.pending_ok(pending@, library@),
                self.waiting_or_absorbed(pending@, stack@),
                g.absorbed() == g0.absorbed(),
                g0.atoms@.len() <= self.atoms@.len(),
                forall|i: int| 0 <= i < g0.atoms@.len() ==> #[trigger] self.atoms@[i] == g0.atoms@[i],
                forall|i: int|
                    g0.atoms@.len() <= i < self.atoms@.len() ==> self.absorbed().contains(
                        (#[trigger] self.atoms@[i]).0.0,
                    ) && !g0.absorbed().contains(self.atoms@[i].0.0),
                forall|q: usize|
                    #[trigger] self.absorbed().contains(q) && !g0.absorbed().contains(q) ==> exists|k: int|
                        0 <= k < pending@.len() && pending@[k].path == q,
            decreases library@.len() - count, stack@.len(),
        {
            let ghost stack0 = stack@;
            let q = stack.pop().unwrap();
            proof {
                assert(stack0 == stack@.push(q));
                assert forall|k: int, j: int|
                    0 <= k < pending@.len() && 0 <= j < pending@[k].modules@.len() && !self.absorbed().contains(
                        #[trigger] pending@[k].modules@[j],
                    ) implies stack@.contains(pending@[k].modules@[j]) || pending@[k].modules@[j] == q by {
                    let x = pending@[k].modules@[j];
                    assert(stack0.contains(x));
                    let t = choose|t: int| 0 <= t < stack0.len() && stack0[t] == x;
                    if t < stack@.len() {
                        assert(stack@[t] == x);
                    }
                }
            }
            if !self.absorbed_modules.contains(Reference::new(q)) {
                if q >= REF_LIMIT as usize {
                    return Err(LinkErr::ModuleLimit);
                }
                let li = match find_module(library, self.modules.get(q)) {
                    Some(i) => i,
                    None => {
                        return Err(LinkErr::UnresolvedImport);
                    },
                };
                let ghost before_mark = *self;
                assert(!g0.absorbed().contains(q));
                self.absorbed_modules.insert(Reference::new(q));
                proof {
                    if count == 0 {
                        assert(library@[li as int].0@ == pv);
                    }
                    assert(in_library(library@, self.paths()[q as int]));
                }
                proof {
                    assert(library@[li as int].0@ == self.modules@[q as int]);
                }
                let ghost before = *self;
                let rec = match self.absorb_decls(&library[li].1, li, q) {
                    Ok(rec) => rec,
                    Err(e) => {
                        return Err(e);
                    },
                };
                proof {
                    Self::lemma_grows_trans(&g, &before, self);
                    assert forall|k: int| 0 <= k < pending@.len() implies (#[trigger] pending@[k]).index
                        < library@.len() && self.rec_wf(&pending@[k], &library@[pending@[k].index as int].1) by {
                        Self::lemma_rec_grow(&before, self, &pending@[k], &library@[pending@[k].index as int].1);
                    }
                    assert forall|q: usize|
                        #[trigger] self.absorbed().contains(q) && !g0.absorbed().contains(q)
                            implies in_library(library@, self.paths()[q as int]) by {
                        assert(before.paths()[q as int] == self.paths()[q as int]);
                    }
                    assert forall|k: int| 0 <= k < pending@.len() implies #[trigger] self.imports_named(
                        pending@[k].modules@,
                        &library@[pending@[k].index as int].1,
                    ) by {
                        Self::lemma_named_keep(&before, self, pending@[k].modules@, &library@[pending@[k].index as int].1);
                    }
                    assert forall|k: int| 0 <= k < pending@.len() implies library@[(#[trigger] pending@[k]).index as int].0@
                        == self.modules@[pending@[k].path as int] by {
                        assert(before.modules@[pending@[k].path as int] == self.modules@[pending@[k].path as int]);
                    }
                    assert(library@[li as int].0@ == self.modules@[q as int]) by {
                        assert(before.modules@[q as int] == self.modules@[q as int]);
                    }
                    assert forall|i: int| 0 <= i < g0.atoms@.len() implies #[trigger] self.atoms@[i] == g0.atoms@[i] by {
                        assert(before.atoms@[i] == self.atoms@[i]);
                    }
                    assert forall|i: int|
                        g0.atoms@.len() <= i < self.atoms@.len() implies self.absorbed().contains(
                            (#[trigger] self.atoms@[i]).0.0,
                        ) && !g0.absorbed().contains(self.atoms@[i].0.0) by {
                        if i < before.atoms@.len() {
                            assert(before.atoms@[i] == self.atoms@[i]);
                        } else {
                            assert(self.atoms@[i].0.0 == q);
                            assert(!g0.absorbed().contains(q));
                        }
                    }
                }
                let ghost stack1 = stack@;
                // the first import is taken next, so push them last to first
                let mut j: usize = rec.modules.len();
                while j > 0
                    invariant
                        j <= rec.modules@.len(),
                        self.rec_wf(&rec, &library@[li as int].1),
                        forall|k: int| 0 <= k < stack@.len() ==> #[trigger] stack@[k] < self.modules@.len(),
                        forall|x: usize| stack1.contains(x) ==> #[trigger] stack@.contains(x),
                        forall|t: int| j <= t < rec.modules@.len() ==> stack@.contains(#[trigger] rec.modules@[t]),
                    decreases j,
                {
                    let ghost s0 = stack@;
                    j = j - 1;
                    stack.push(rec.modules[j]);
                    proof {
                        assert(stack@[stack@.len() - 1] == rec.modules@[j as int]);
                        assert forall|x: usize| s0.contains(x) implies #[trigger] stack@.contains(x) by {
                            let t = choose|t: int| 0 <= t < s0.len() && s0[t] == x;
                            assert(stack@[t] == x);
                        }
                    }
                }
                let ghost pending0 = pending@;
                pending.push(rec);
                count = count + 1;
                proof {
                    assert(pending@[pending@.len() - 1] == rec);
                    assert forall|k: int| 0 <= k < pending0.len() implies pending@[k] == #[trigger] pending0[k] by {}
                }
            }
        }
        // past this point every module of the library has been absorbed, so
        // a path still waiting names no module of it
        while stack.len() > 0
            invariant
                self.wf(),
                count == 0 ==> stack@ == seq![p] && !self.absorbed().contains(p),
                pv == path@,
                !g0.has_absorbed(pv),
                g0 == *old(self),
                self.waiting_or_absorbed(pending@, stack@),
            decreases stack@.len(),
        {
            let ghost stack0 = stack@;
            let q = stack.pop().unwrap();
            if !self.absorbed_modules.contains(Reference::new(q)) {
                return Err(LinkErr::UnresolvedImport);
            }
            proof {
                assert(stack0 == stack@.push(q));
                assert forall|k: int, j: int|
                    0 <= k < pending@.len() && 0 <= j < pending@[k].modules@.len() && !self.absorbed().contains(
                        #[trigger] pending@[k].modules@[j],
                    ) implies stack@.contains(pending@[k].modules@[j]) by {
                    let x = pending@[k].modules@[j];
                    let t = choose|t: int| 0 <= t < stack0.len() && stack0[t] == x;
                    if t < stack@.len() {
                        assert(stack@[t] == x);
                    }
                }
            }
        }
        let ghost g1 = *self;
        let mut k: usize = 0;
        while k < pending.len()
            invariant
                self.wf(),
                self.grows_from(&g1),
                self.absorbed() == g1.absorbed(),
                self.atoms@ == g1.atoms@,
                in_library(library@, pv),
                pv == path@,
                !g0.has_absorbed(pv),
                g0 == *old(self),
                g1.absorbed().contains(p),
                forall|q: usize|
                    #[trigger] g1.absorbed().contains(q) && !g0.absorbed().contains(q)
                        ==> in_library(library@, g1.paths()[q as int]),
                forall|k: int|
                    0 <= k < pending@.len() ==> (#[trigger] pending@[k]).index < library@.len()
                        && self.rec_wf(&pending@[k], &library@[pending@[k].index as int].1),
            decreases pending@.len() - k,
        {
            let rec = &pending[k];
            let m = &library[rec.index].1;
            let mut f: usize = 0;
            while f < m.func_defs.len()
                invariant
                    self.wf(),
                    self.grows_from(&g1),
                    self.absorbed() == g1.absorbed(),
                    self.atoms@ == g1.atoms@,
                    in_library(library@, pv),
                    pv == path@,
                    !g0.has_absorbed(pv),
                    g0 == *old(self),
                    k < pending@.len(),
                    *rec == pending@[k as int],
                    *m == library@[rec.index as int].1,
                    forall|k: int|
                        0 <= k < pending@.len() ==> (#[trigger] pending@[k]).index < library@.len()
                            && self.rec_wf(&pending@[k], &library@[pending@[k].index as int].1),
                decreases m.func_defs@.len() - f,
            {
                let rewritten = match self.rewrite_function(m, rec, &m.func_defs[f]) {
                    Ok(t) => t,
                    Err(e) => {
                        return Err(e);
                    },
                };
                let n_slots = self.func_defs.len();
                assert(rec.func_base + f < n_slots);
                let ghost before = *self;
                self.fill_slot(rec.func_base + f, rewritten);
                proof {
                    Self::lemma_grows_trans(&g1, &before, self);
                    assert forall|k: int| 0 <= k < pending@.len() implies (#[trigger] pending@[k]).index
                        < library@.len() && self.rec_wf(&pending@[k], &library@[pending@[k].index as int].1) by {
                        Self::lemma_rec_grow(&before, self, &pending@[k], &library@[pending@[k].index as int].1);
                    }
                }
                f = f + 1;
            }
            k = k + 1;
        }
        proof {
            Self::lemma_grows_trans(&g, &g1, self);
            assert(self.paths()[p as int] == pv);
            assert forall|q: usize|
                #[trigger] self.absorbed().contains(q) && !g0.absorbed().contains(q)
                    implies q < self.paths().len() && in_library(library@, self.paths()[q as int]) by {
                assert(g1.paths()[q as int] == self.paths()[q as int]);
            }
            assert forall|q: usize|
                #[trigger] self.absorbed().contains(q) && !g0.absorbed().contains(q) implies exists|i: int|
                    0 <= i < library@.len() && (#[trigger] library@[i]).0@ == self.paths()[q as int] && forall|j: int|
                        0 <= j < library@[i].1.imported_modules@.len() ==> self.has_absorbed(
                            #[trigger] library@[i].1.imported_modules@[j]@,
                        ) by {
                let k = choose|k: int| 0 <= k < pending@.len() && pending@[k].path == q;
                let i = pending@[k].index as int;
                let mm = library@[i].1;
                assert(g1.pending_ok(pending@, library@));
                assert(library@[i].0@ == g1.modules@[q as int]);
                assert(g1.paths()[q as int] == self.paths()[q as int]);
                assert forall|j: int| 0 <= j < mm.imported_modules@.len() implies self.has_absorbed(
                    #[trigger] mm.imported_modules@[j]@,
                ) by {
                    let x = pending@[k].modules@[j];
                    assert(g1.imports_named(pending@[k].modules@, &mm));
                    assert(g1.waiting_or_absorbed(pending@, Seq::empty()));
                    assert(g1.absorbed().contains(x));
                    assert(g1.modules@[x as int] == mm.imported_modules@[j]@);
                    assert(self.paths()[x as int] == mm.imported_modules@[j]@);
                }
            }
        }
        let mut i: usize = 0;
        while i < self.func_defs.len()
            invariant
                self.wf(),
                forall|k: int| 0 <= k < i ==> (#[trigger] self.func_defs@[k]) is Some,
                in_library(library@, pv),
                pv == path@,
                !g0.has_absorbed(pv),
                g0 == *old(self),
            decreases self.func_defs@.len() - i,
        {
            if self.func_defs.get(i).is_none() {
                return Err(LinkErr::UnfilledForwardReference);
            }
            i = i + 1;
        }
        Ok(())
    }

    /// Every reserved function slot has been filled.
    pub closed spec fn all_filled(&self) -> bool {
        forall|i: int| 0 <= i < self.func_defs@.len() ==> (#[trigger] self.func_defs@[i]) is Some
    }

    /// The number of reserved function slots.
    pub closed spec fn slot_count(&self) -> nat {
        self.func_defs@.len()
    }

    /// The number of merged atoms.
    pub closed spec fn atom_count(&self) -> nat {
        self.atoms@.len()
    }

    /// Hands out the flattened program, or `UnfilledForwardReference` if a
    /// reserved function slot was never filled.
    pub fn finish(self) -> (r: Result<Program, LinkErr>)
        requires
            self.wf(),
        ensures
            self.failure() matches Some(e) ==> r == Err::<Program, LinkErr>(e),
            self.failure() is None ==> (r is Ok <==> self.all_filled()),
            r matches Err(e) ==> e == LinkErr::UnfilledForwardReference || self.failure() == Some(e),
            r matches Ok(p) ==> {
                &&& p.wf()
                &&& p.funcs@.len() == self.slot_count()
                &&& forall|i: int| 0 <= i < p.funcs@.len() ==> self.slots()[i] == Some(#[trigger] p.funcs@[i])
                &&& p.atoms@.len() == self.atom_count()
                &&& p.atoms@.map_values(|a: Atom| (a.desc@, a.num_members)) == self.atom_table()
                &&& p.modules@.map_values(|x: String| x@) == self.paths()
                &&& p.symbols@.map_values(|x: String| x@) == self.symbol_table()
                &&& p.types@ == self.type_table()
                &&& p.exports@.map_values(|e: (AtomDesc, usize)| (e.0@, e.1)) == self.export_table()
            },
    {
        if let Some(e) = self.failure {
            return Err(e);
        }
        let mut i: usize = 0;
        while i < self.func_defs.len()
            invariant
                self.failure is None,
                forall|k: int| 0 <= k < i ==> (#[trigger] self.func_defs@[k]) is Some,
            decreases self.func_defs@.len() - i,
        {
            if self.func_defs.get(i).is_none() {
                return Err(LinkErr::UnfilledForwardReference);
            }
            i = i + 1;
        }
        assert(self.all_filled());
        let ghost g = self;
        let n_atoms = self.atoms.len();
        let n_types = self.types.len();
        let mut slots = self.func_defs.finish();
        let ghost all = slots@;
        let mut rev: Vec<Function> = Vec::new();
        while slots.len() > 0
            invariant
                g.wf(),
                all == g.func_defs@,
                slots@ == all.subrange(0, slots@.len() as int),
                rev@.len() == all.len() - slots@.len(),
                n_atoms == g.atoms@.len(),
                n_types == g.types@.len(),
                forall|k: int| 0 <= k < rev@.len() ==> all[all.len() - 1 - k] == Some(#[trigger] rev@[k]),
                g.all_filled(),
            decreases slots@.len(),
        {
            let ghost before = slots@;
            match slots.pop().unwrap() {
                Some(f) => {
                    rev.push(f);
                },
                None => {
                    proof {
                        assert(all[before.len() - 1] is None);
                    }
                    return Err(LinkErr::UnfilledForwardReference);
                },
            }
        }
        let mut funcs: Vec<Function> = Vec::new();
        while rev.len() > 0
            invariant
                rev@.len() + funcs@.len() == all.len(),
                forall|k: int| 0 <= k < rev@.len() ==> all[all.len() - 1 - k] == Some(#[trigger] rev@[k]),
                forall|k: int| 0 <= k < funcs@.len() ==> all[k] == Some(#[trigger] funcs@[k]),
            decreases rev@.len(),
        {
            let f = rev.pop().unwrap();
            funcs.push(f);
        }
        let descs = self.atoms.finish();
        let mut atoms: Vec<Atom> = Vec::new();
        let mut i: usize = 0;
        while i < descs.len()
            invariant
                i <= descs@.len(),
                descs@.map_values(|e: (AtomDesc, usize)| (e.0@, e.1@)) == g.atoms@,
                atoms@.len() == i,
                forall|k: int|
                    0 <= k < i ==> (#[trigger] atoms@[k]).desc@ == g.atoms@[k].0 && atoms@[k].num_members
                        == g.atoms@[k].1,
            decreases descs@.len() - i,
        {
            assert(descs@.map_values(|e: (AtomDesc, usize)| (e.0@, e.1@))[i as int] == (descs@[i as int].0@, descs@[i as int].1));
            atoms.push(Atom { desc: descs[i].0, num_members: descs[i].1 });
            i = i + 1;
        }
        let exports = self.func_names.finish();
        let p = Program {
            symbols: self.symbols.finish(),
            modules: self.modules.finish(),
            atoms,
            types: self.types.finish(),
            funcs,
            exports,
        };
        proof {
            assert(p.types@.map_values(|x: TypeDesc| x@).len() == n_types);
            g.types.lemma_items();
            assert forall|i: int| 0 <= i < p.types@.len() implies (#[trigger] p.types@[i]).refs_below(
                p.atoms@.len(),
                p.types@.len(),
            ) by {
                assert(p.types@[i] == g.types.items()[i]);
            }
            assert forall|i: int| 0 <= i < p.funcs@.len() implies func_wf(
                #[trigger] p.funcs@[i],
                p.atoms@.len(),
                p.funcs@.len(),
                p.types@.len(),
            ) by {
                assert(g.func_defs@[i] == Some(p.funcs@[i]));
            }
            assert forall|i: int| 0 <= i < p.atoms@.len() implies (#[trigger] p.atoms@[i]).desc.source@
                < p.modules@.len() && p.atoms@[i].desc.name@ < p.symbols@.len() by {
                assert(g.atoms@[i].0 == p.atoms@[i].desc@);
                assert(p.modules@.map_values(|x: String| x@).len() == g.modules@.len());
                assert(p.symbols@.map_values(|x: String| x@).len() == g.symbols@.len());
            }
            assert forall|i: int| 0 <= i < p.exports@.len() implies (#[trigger] p.exports@[i]).1 < p.funcs@.len()
                && p.exports@[i].0.source@ < p.modules@.len() && p.exports@[i].0.name@ < p.symbols@.len() by {
                assert(p.exports@.map_values(|e: (AtomDesc, usize)| (e.0@, e.1@))[i] == g.func_names@[i]);
                assert(p.modules@.map_values(|x: String| x@).len() == g.modules@.len());
                assert(p.symbols@.map_values(|x: String| x@).len() == g.symbols@.len());
            }
            assert(p.exports@.map_values(|e: (AtomDesc, usize)| (e.0@, e.1)) =~= g.func_names@) by {
                assert forall|i: int| 0 <= i < g.func_names@.len() implies p.exports@.map_values(|e: (AtomDesc, usize)| (e.0@, e.1))[i] == g.func_names@[i] by {
                    assert(p.exports@.map_values(|e: (AtomDesc, usize)| (e.0@, e.1@))[i] == g.func_names@[i]);
                }
            }
            assert(p.atoms@.map_values(|a: Atom| (a.desc@, a.num_members)) =~= g.atoms@);
            assert forall|i: int| 0 <= i < g.func_defs@.len() implies (#[trigger] g.func_defs@[i]) is Some by {
                assert(all[i] == Some(p.funcs@[i]));
            }
        }
        Ok(p)
    }

    /// Follows re-exports from `key` until a name of `names` is reached, and
    /// hands out that name's position.
    fn chase(names: &IndexMap<AtomDesc, usize>, aliases: &IndexMap<AtomDesc, AtomDesc>, key: AtomDesc) -> (r: Result<usize, LinkErr>)
        requires
            names.wf(),
            aliases.wf(),
        ensures
            match r {
                Ok(i) => i < names@.len(),
                Err(e) => e == LinkErr::UnresolvedImport,
            },
    {
        let mut key = key;
        let mut fuel: usize = aliases.len();
        loop
            invariant
                names.wf(),
                aliases.wf(),
            decreases fuel,
        {
            match names.find(&key) {
                Some(i) => {
                    return Ok(i);
                },
                None => {},
            }
            if fuel == 0 {
                return Err(LinkErr::UnresolvedImport);
            }
            match aliases.find(&key) {
                Some(j) => {
                    key = *aliases.payload(j);
                },
                None => {
                    return Err(LinkErr::UnresolvedImport);
                },
            }
            fuel = fuel - 1;
        }
    }
}

} // verus!
