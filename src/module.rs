//! Tables of a compiled module and the typed references into them.

use std::marker::PhantomData;

use vstd::prelude::*;

use crate::func::Function;
use crate::gen::words_equal;

verus! {

/// The finished, read-only unit of compilation.
#[derive(Debug)]
pub struct Module {
    pub symbols: Vec<String>,
    pub imported_modules: Vec<String>,
    /// Atoms are automatically exported
    pub atom_defs: Vec<Atom>,
    pub atom_imports: Vec<Import<Atom>>,
    pub atom_uses: Vec<Use<Atom>>,
    /// Types are anonymous and therefore not namespaced or importable.
    /// This is for easy interoperability between dynamically loaded modules.
    pub type_defs: Vec<TypeDesc>,
    pub func_defs: Vec<Function>,
    pub func_imports: Vec<Import<Function>>,
    pub func_exports: Vec<Export>,
    pub func_uses: Vec<Use<Function>>,
}

/// Every import names an interned symbol and an imported module.
pub open spec fn imports_wf<T>(imports: Seq<Import<T>>, n_symbols: nat, n_modules: nat) -> bool {
    forall|i: int|
        0 <= i < imports.len() ==> (#[trigger] imports[i])@.0 < n_symbols && imports[i]@.1 < n_modules
}

/// Every use points into the definitions or into the imports.
pub open spec fn uses_wf<T>(uses: Seq<Use<T>>, n_defs: nat, n_imports: nat) -> bool {
    forall|i: int|
        0 <= i < uses.len() ==> match #[trigger] uses[i]@ {
            UseView::Internal(j) => j < n_defs,
            UseView::External(j) => j < n_imports,
        }
}

impl Module {
    /// Every reference in the module's tables is in bounds for its table,
    /// and symbols and module paths are listed once each.
    pub open spec fn wf(&self) -> bool {
        let n_sym = self.symbols@.len();
        &&& self.symbols@.map_values(|s: String| s@).no_duplicates()
        &&& forall|i: int| 0 <= i < self.type_defs@.len() ==> (#[trigger] self.type_defs@[i]).is_canonical()
        &&& self.imported_modules@.map_values(|s: String| s@).no_duplicates()
        &&& forall|i: int| 0 <= i < self.atom_defs@.len() ==> (#[trigger] self.atom_defs@[i])@.0 < n_sym
        &&& imports_wf(self.atom_imports@, n_sym, self.imported_modules@.len())
        &&& uses_wf(self.atom_uses@, self.atom_defs@.len(), self.atom_imports@.len())
        &&& imports_wf(self.func_imports@, n_sym, self.imported_modules@.len())
        &&& uses_wf(self.func_uses@, self.func_defs@.len(), self.func_imports@.len())
        &&& forall|i: int|
            0 <= i < self.func_exports@.len() ==> (#[trigger] self.func_exports@[i])@.0
                < self.func_uses@.len() && self.func_exports@[i]@.1 < n_sym
    }
}

/// An index into the table whose entries have type `T`.
///
/// The tag only keeps indices of different tables apart: at run time a
/// reference is its index and nothing more.
#[derive(Debug)]
pub struct Reference<T> {
    item: usize,
    _tag: PhantomData<T>,
}

impl<T> View for Reference<T> {
    type V = usize;

    closed spec fn view(&self) -> usize {
        self.item
    }
}

impl<T> Reference<T> {
    pub fn new(item: usize) -> (r: Self)
        ensures
            r@ == item,
    {
        Reference { item, _tag: PhantomData }
    }

    pub fn get_inner(&self) -> (r: usize)
        ensures
            r == self@,
    {
        self.item
    }

    /// The same index, read as an index into another table.
    ///
    /// Only sound where the two tables are known to line up entry for entry;
    /// the builder and the linker call it through narrowly named helpers.
    pub fn retag<O>(self) -> (r: Reference<O>)
        ensures
            r@ == self@,
    {
        Reference::new(self.get_inner())
    }
}

impl<T> Clone for Reference<T> {
    fn clone(&self) -> (r: Self)
        ensures
            r@ == self@,
    {
        Reference::new(self.item)
    }
}

impl<T> Copy for Reference<T> {
}

impl<T> PartialEq for Reference<T> {
    fn eq(&self, other: &Self) -> (r: bool) {
        self.item == other.item
    }
}

impl<T> vstd::std_specs::cmp::PartialEqSpecImpl for Reference<T> {
    open spec fn obeys_eq_spec() -> bool {
        true
    }

    open spec fn eq_spec(&self, other: &Self) -> bool {
        self@ == other@
    }
}

impl<T> Eq for Reference<T> {
}

/// References order by their index.
impl<T> PartialOrd for Reference<T> {
    fn partial_cmp(&self, other: &Self) -> (r: Option<core::cmp::Ordering>) {
        if self.item < other.item {
            Some(core::cmp::Ordering::Less)
        } else if self.item > other.item {
            Some(core::cmp::Ordering::Greater)
        } else {
            Some(core::cmp::Ordering::Equal)
        }
    }
}

impl<T> vstd::std_specs::cmp::PartialOrdSpecImpl for Reference<T> {
    open spec fn obeys_partial_cmp_spec() -> bool {
        true
    }

    open spec fn partial_cmp_spec(&self, other: &Self) -> Option<core::cmp::Ordering> {
        if self@ < other@ {
            Some(core::cmp::Ordering::Less)
        } else if self@ > other@ {
            Some(core::cmp::Ordering::Greater)
        } else {
            Some(core::cmp::Ordering::Equal)
        }
    }
}

/// A function made public under a name.
#[derive(Debug, Clone, Copy)]
pub struct Export {
    pub rf: Reference<Use<Function>>,
    pub name: Reference<String>,
}

impl View for Export {
    type V = (usize, usize);

    open spec fn view(&self) -> (usize, usize) {
        (self.rf@, self.name@)
    }
}

/// A symbol `name` taken from the module at `source`.
#[derive(Debug)]
pub struct Import<T> {
    pub name: Reference<String>,
    pub source: Reference<String>,
    _tag: PhantomData<T>,
}

impl<T> View for Import<T> {
    type V = (usize, usize);

    closed spec fn view(&self) -> (usize, usize) {
        (self.name@, self.source@)
    }
}

impl<T> Import<T> {
    pub fn new(name: Reference<String>, source: Reference<String>) -> (r: Self)
        ensures
            r@ == (name@, source@),
    {
        Import { name, source, _tag: PhantomData }
    }

    /// The symbol's name.
    pub fn name_ref(&self) -> (r: Reference<String>)
        ensures
            r@ == self@.0,
    {
        self.name
    }

    /// The module the symbol comes from.
    pub fn source_ref(&self) -> (r: Reference<String>)
        ensures
            r@ == self@.1,
    {
        self.source
    }
}

impl<T> Clone for Import<T> {
    fn clone(&self) -> (r: Self)
        ensures
            r@ == self@,
    {
        Import::new(self.name, self.source)
    }
}

impl<T> Copy for Import<T> {
}

/// Where a symbol used by a module comes from.
#[derive(Debug)]
pub enum Use<T> {
    /// Defined in this module, at this index of its definitions.
    Internal(Reference<T>),
    /// Imported, at this index of the module's imports.
    External(Reference<Import<T>>),
}

/// The view of a [Use]: the variant and the index it holds.
pub ghost enum UseView {
    Internal(usize),
    External(usize),
}

impl<T> View for Use<T> {
    type V = UseView;

    open spec fn view(&self) -> UseView {
        match self {
            Use::Internal(r) => UseView::Internal(r@),
            Use::External(r) => UseView::External(r@),
        }
    }
}

impl<T> Clone for Use<T> {
    fn clone(&self) -> (r: Self)
        ensures
            r@ == self@,
    {
        match self {
            Use::Internal(r) => Use::Internal(*r),
            Use::External(r) => Use::External(*r),
        }
    }
}

impl<T> Copy for Use<T> {
}

/// A named symbol with a fixed number of members.
#[derive(Debug, Clone, Copy)]
pub struct Atom {
    /// All atoms are exported
    pub name: Reference<String>,
    pub num_members: usize,
}

impl View for Atom {
    type V = (usize, usize);

    open spec fn view(&self) -> (usize, usize) {
        (self.name@, self.num_members)
    }
}

/// Type of a function or type argument/param
#[derive(Debug)]
pub enum ArgType {
    Concrete(Adapted<Reference<TypeDesc>>),
    /// The generic parameter at this position, not bound yet.
    Generic(u32),
}

/// A type
#[derive(Debug)]
pub enum TypeDesc {
    /// References here are to atoms. The group is a set: tables keep its
    /// members sorted by their words, each once (see [TypeDesc::canonical]).
    AtomGroup(Vec<Adapted<Reference<Atom>>>),
    /// Though curried, these functions do not map cleanly to most language's curried functions.
    /// Wrappers may be necessary to make functions the desired type.
    Func(Vec<ArgType>),
    /// References here are to TypeDescs
    Tuple(Vec<Reference<TypeDesc>>),
    /// A computation that never returns
    BottomThunk,
    Int32,
}

/// A generic definition together with the arguments it is instantiated with.
#[derive(Debug)]
pub struct Adapted<T> {
    pub params: Vec<ArgType>,
    pub item: T,
}

/// The words that spell out an argument type. Two argument types are the
/// same type exactly when their words are equal.
pub open spec fn arg_words(a: ArgType) -> Seq<u64>
    decreases a,
{
    match a {
        ArgType::Concrete(ad) => seq![0u64, ad.item@ as u64, ad.params@.len() as u64] + args_words(
            ad.params@,
        ),
        ArgType::Generic(n) => seq![1u64, n as u64],
    }
}

/// The words of a list of argument types, one after the other.
pub open spec fn args_words(s: Seq<ArgType>) -> Seq<u64>
    decreases s,
{
    if s.len() == 0 {
        Seq::empty()
    } else {
        args_words(s.drop_last()) + arg_words(s.last())
    }
}

/// The words of an instantiated atom within a group.
#[verifier::opaque]
pub open spec fn member_words(m: Adapted<Reference<Atom>>) -> Seq<u64> {
    seq![m.item@ as u64, m.params@.len() as u64] + args_words(m.params@)
}

/// The words of the members of a group, one after the other.
pub open spec fn members_words(s: Seq<Adapted<Reference<Atom>>>) -> Seq<u64>
    decreases s.len(),
{
    if s.len() == 0 {
        Seq::empty()
    } else {
        members_words(s.drop_last()) + member_words(s.last())
    }
}

/// Word sequences in lexicographic order: `a` comes strictly before `b`.
pub open spec fn words_lt(a: Seq<u64>, b: Seq<u64>) -> bool
    decreases a.len(),
{
    if a.len() == 0 {
        b.len() > 0
    } else if b.len() == 0 {
        false
    } else if a[0] != b[0] {
        a[0] < b[0]
    } else {
        words_lt(a.drop_first(), b.drop_first())
    }
}

/// No word sequence comes before itself.
pub proof fn lemma_words_irreflexive(a: Seq<u64>)
    ensures
        !words_lt(a, a),
    decreases a.len(),
{
    if a.len() > 0 {
        lemma_words_irreflexive(a.drop_first());
    }
}

/// The order on word sequences is transitive.
pub proof fn lemma_words_transitive(a: Seq<u64>, b: Seq<u64>, c: Seq<u64>)
    requires
        words_lt(a, b),
        words_lt(b, c),
    ensures
        words_lt(a, c),
    decreases a.len(),
{
    if a.len() > 0 && b.len() > 0 && c.len() > 0 && a[0] == b[0] && b[0] == c[0] {
        lemma_words_transitive(a.drop_first(), b.drop_first(), c.drop_first());
    }
}

/// Of two different word sequences, one comes before the other.
pub proof fn lemma_words_total(a: Seq<u64>, b: Seq<u64>)
    requires
        a != b,
    ensures
        words_lt(a, b) || words_lt(b, a),
    decreases a.len(),
{
    if a.len() > 0 && b.len() > 0 && a[0] == b[0] {
        assert(a.drop_first() != b.drop_first()) by {
            if a.drop_first() == b.drop_first() {
                assert(a =~= seq![a[0]] + a.drop_first());
                assert(b =~= seq![b[0]] + b.drop_first());
            }
        }
        lemma_words_total(a.drop_first(), b.drop_first());
    } else if a.len() == 0 && b.len() == 0 {
        assert(a =~= b);
    }
}

/// Whether `a` comes strictly before `b` in the word order.
pub fn words_less(a: &Vec<u64>, b: &Vec<u64>) -> (r: bool)
    ensures
        r == words_lt(a@, b@),
{
    let mut i: usize = 0;
    assert(a@.subrange(0, a@.len() as int) =~= a@);
    assert(b@.subrange(0, b@.len() as int) =~= b@);
    while i < a.len() && i < b.len()
        invariant
            i <= a@.len(),
            i <= b@.len(),
            words_lt(a@, b@) == words_lt(a@.subrange(i as int, a@.len() as int), b@.subrange(i as int, b@.len() as int)),
        decreases a@.len() - i,
    {
        if a[i] != b[i] {
            return a[i] < b[i];
        }
        assert(a@.subrange(i as int, a@.len() as int).drop_first() =~= a@.subrange(i + 1, a@.len() as int));
        assert(b@.subrange(i as int, b@.len() as int).drop_first() =~= b@.subrange(i + 1, b@.len() as int));
        i = i + 1;
    }
    i == a.len() && i < b.len()
}

/// The members of a group are listed in strictly increasing order of their
/// words: sorted, and no member twice.
pub open spec fn sorted_members(s: Seq<Adapted<Reference<Atom>>>) -> bool {
    forall|i: int, j: int|
        0 <= i < j < s.len() ==> words_lt(member_words(#[trigger] s[i]), member_words(#[trigger] s[j]))
}

/// Every member of `r` is one of the members of `v`.
pub open spec fn drawn_from(r: Seq<Adapted<Reference<Atom>>>, v: Seq<Adapted<Reference<Atom>>>) -> bool {
    forall|t: int|
        #![trigger r[t]]
        0 <= t < r.len() ==> exists|k: int| #![trigger v[k]] 0 <= k < v.len() && r[t] == v[k]
}

/// Every member of `v` from position `lo` on has a member of equal words
/// in `r`.
pub open spec fn covers_from(r: Seq<Adapted<Reference<Atom>>>, v: Seq<Adapted<Reference<Atom>>>, lo: int) -> bool {
    forall|k: int|
        #![trigger member_words(v[k])]
        lo <= k < v.len() ==> exists|t: int|
            #![trigger member_words(r[t])]
            0 <= t < r.len() && member_words(r[t]) == member_words(v[k])
}

/// The words of one member of a group.
fn member_key(m: &Adapted<Reference<Atom>>) -> (r: Vec<u64>)
    ensures
        r@ == member_words(*m),
{
    let mut out: Vec<u64> = Vec::new();
    out.push(m.item.get_inner() as u64);
    out.push(m.params.len() as u64);
    encode_args(&m.params, &mut out);
    proof {
        reveal(member_words);
    }
    out
}

/// `keys` holds the words of each member of `out`, position for position.
pub open spec fn keys_match(keys: Seq<Vec<u64>>, out: Seq<Adapted<Reference<Atom>>>) -> bool {
    &&& keys.len() == out.len()
    &&& forall|t: int| 0 <= t < keys.len() ==> (#[trigger] keys[t])@ == member_words(out[t])
}

/// Puts `x` into the sorted `out` at its place, unless a member of equal
/// words is there already.
fn insert_sorted(
    out: &mut Vec<Adapted<Reference<Atom>>>,
    keys: &mut Vec<Vec<u64>>,
    x: Adapted<Reference<Atom>>,
    kx: Vec<u64>,
)
    requires
        keys_match(old(keys)@, old(out)@),
        sorted_members(old(out)@),
        kx@ == member_words(x),
    ensures
        keys_match(final(keys)@, final(out)@),
        sorted_members(final(out)@),
        forall|t: int|
            #![trigger final(out)@[t]] 0 <= t < final(out)@.len() ==> final(out)@[t] == x || exists|s: int|
                #![trigger old(out)@[s]] 0 <= s < old(out)@.len() && final(out)@[t] == old(out)@[s],
        forall|s: int|
            #![trigger member_words(old(out)@[s])] 0 <= s < old(out)@.len() ==> exists|t: int| #![trigger member_words(final(out)@[t])] 0 <= t < final(out)@.len() && member_words(final(out)@[t]) == member_words(old(out)@[s]),
        exists|t: int| #![trigger member_words(final(out)@[t])] 0 <= t < final(out)@.len() && member_words(final(out)@[t]) == member_words(x),
{
    let mut j: usize = 0;
    loop
        invariant
            j <= keys@.len(),
            keys_match(keys@, out@),
            forall|t: int| 0 <= t < j ==> words_lt(member_words(#[trigger] out@[t]), kx@),
        ensures
            j <= keys@.len(),
            forall|t: int| 0 <= t < j ==> words_lt(member_words(#[trigger] out@[t]), kx@),
            j == keys@.len() || !words_lt(member_words(out@[j as int]), kx@),
        decreases keys@.len() - j,
    {
        if j >= keys.len() {
            break;
        }
        if !words_less(&keys[j], &kx) {
            break;
        }
        j = j + 1;
    }
    let ghost out0 = out@;
    if j < keys.len() && words_equal(&keys[j], &kx) {
        assert(member_words(out@[j as int]) == member_words(x));
        assert forall|s: int| #![trigger member_words(out0[s])] 0 <= s < out0.len() implies exists|t: int| #![trigger member_words(out@[t])] 0 <= t < out@.len() && member_words(out@[t]) == member_words(out0[s]) by {
            assert(out@[s] == out0[s]);
        }
        return;
    }
    proof {
        if j < keys@.len() {
            lemma_words_total(member_words(out@[j as int]), kx@);
            assert(words_lt(kx@, member_words(out0[j as int])));
        }
        out0.insert_ensures(j as int, x);
    }
    out.insert(j, x);
    keys.insert(j, kx);
    proof {
        keys@.insert_ensures(j as int, kx);
        assert forall|t: int| 0 <= t < keys@.len() implies (#[trigger] keys@[t])@ == member_words(out@[t]) by {
            if t > j {
                assert(out@[t] == out0[t - 1]);
            }
        }
        assert forall|a: int, b: int| 0 <= a < b < out@.len() implies words_lt(
            member_words(#[trigger] out@[a]),
            member_words(#[trigger] out@[b]),
        ) by {
            if b > j {
                assert(out@[b] == out0[b - 1]);
            }
            if a > j {
                assert(out@[a] == out0[a - 1]);
            }
            if a <= j && b > j && b - 1 > j {
                assert(words_lt(member_words(out0[j as int]), member_words(out0[b - 1])));
                lemma_words_transitive(kx@, member_words(out0[j as int]), member_words(out0[b - 1]));
            }
            if a < j && b > j {
                lemma_words_transitive(member_words(out@[a]), kx@, member_words(out@[b]));
            }
        }
        assert forall|t: int| #![trigger out@[t]] 0 <= t < out@.len() implies out@[t] == x || exists|s: int|
            #![trigger out0[s]] 0 <= s < out0.len() && out@[t] == out0[s] by {
            if t < j {
                assert(out@[t] == out0[t]);
            } else if t > j {
                assert(out@[t] == out0[t - 1]);
            }
        }
        assert forall|s: int| #![trigger member_words(out0[s])] 0 <= s < out0.len() implies exists|t: int| #![trigger member_words(out@[t])] 0 <= t < out@.len() && member_words(out@[t]) == member_words(out0[s]) by {
            if s < j {
                assert(out@[s] == out0[s]);
            } else {
                assert(out@[s + 1] == out0[s]);
            }
        }
        assert(out@[j as int] == x);
    }
}

/// The members of `v` sorted by their words, each once: the canonical
/// form of a group.
pub fn canonical_members(v: Vec<Adapted<Reference<Atom>>>) -> (r: Vec<Adapted<Reference<Atom>>>)
    ensures
        sorted_members(r@),
        drawn_from(r@, v@),
        covers_from(r@, v@, 0),
{
    let ghost v0 = v@;
    let mut rest = v;
    let mut out: Vec<Adapted<Reference<Atom>>> = Vec::new();
    let mut keys: Vec<Vec<u64>> = Vec::new();
    while rest.len() > 0
        invariant
            rest@.len() <= v0.len(),
            rest@ == v0.subrange(0, rest@.len() as int),
            v0 == v@,
            keys_match(keys@, out@),
            sorted_members(out@),
            drawn_from(out@, v0),
            covers_from(out@, v0, rest@.len() as int),
        decreases rest@.len(),
    {
        let ghost n = rest@.len() - 1;
        let ghost rest0 = rest@;
        let ghost out0 = out@;
        let x = rest.pop().unwrap();
        assert(rest0[n] == v0[n]);
        assert(rest@ =~= v0.subrange(0, rest@.len() as int));
        let kx = member_key(&x);
        insert_sorted(&mut out, &mut keys, x, kx);
        proof {
            assert forall|t: int| #![trigger out@[t]] 0 <= t < out@.len() implies exists|k: int|
                #![trigger v0[k]] 0 <= k < v0.len() && out@[t] == v0[k] by {
                if out@[t] != v0[n] {
                    let s = choose|s: int| 0 <= s < out0.len() && out@[t] == out0[s];
                    let k = choose|k: int| 0 <= k < v0.len() && out0[s] == v0[k];
                }
            }
            assert forall|k: int| #![trigger member_words(v0[k])] rest@.len() <= k < v0.len() implies exists|t: int|
                #![trigger member_words(out@[t])] 0 <= t < out@.len() && member_words(out@[t]) == member_words(v0[k]) by {
                if k != n {
                    assert(covers_from(out0, v0, rest0.len() as int));
                    let s = choose|s: int| 0 <= s < out0.len() && member_words(out0[s]) == member_words(v0[k]);
                    let t = choose|t: int| 0 <= t < out@.len() && member_words(out@[t]) == member_words(out0[s]);
                }
            }
        }
    }
    assert(rest@.len() == 0);
    assert(covers_from(out@, v0, rest@.len() as int));
    assert(v0 == v@);
    out
}

/// The words of a list of type references.
pub open spec fn refs_words(s: Seq<Reference<TypeDesc>>) -> Seq<u64>
    decreases s.len(),
{
    if s.len() == 0 {
        Seq::empty()
    } else {
        refs_words(s.drop_last()).push(s.last()@ as u64)
    }
}

/// Every type an argument type refers to is below `n_types`.
pub open spec fn arg_refs_below(a: ArgType, n_types: nat) -> bool
    decreases a,
{
    match a {
        ArgType::Concrete(ad) => ad.item@ < n_types && args_refs_below(ad.params@, n_types),
        ArgType::Generic(_) => true,
    }
}

/// Every type a list of argument types refers to is below `n_types`.
pub open spec fn args_refs_below(s: Seq<ArgType>, n_types: nat) -> bool
    decreases s,
{
    if s.len() == 0 {
        true
    } else {
        args_refs_below(s.drop_last(), n_types) && arg_refs_below(s.last(), n_types)
    }
}

/// Raising the bound keeps an argument type's references below it.
pub proof fn lemma_arg_refs_grow(a: ArgType, n0: nat, n1: nat)
    requires
        arg_refs_below(a, n0),
        n0 <= n1,
    ensures
        arg_refs_below(a, n1),
    decreases a,
{
    match a {
        ArgType::Concrete(ad) => {
            lemma_args_refs_grow(ad.params@, n0, n1);
        },
        ArgType::Generic(_) => {},
    }
}

/// Raising the bound keeps a list's references below it.
pub proof fn lemma_args_refs_grow(s: Seq<ArgType>, n0: nat, n1: nat)
    requires
        args_refs_below(s, n0),
        n0 <= n1,
    ensures
        args_refs_below(s, n1),
    decreases s,
{
    if s.len() > 0 {
        lemma_args_refs_grow(s.drop_last(), n0, n1);
        lemma_arg_refs_grow(s.last(), n0, n1);
    }
}

impl TypeDesc {
    /// A group lists its members sorted by their words, each once; other
    /// types have one form only.
    pub open spec fn is_canonical(&self) -> bool {
        match self {
            TypeDesc::AtomGroup(v) => sorted_members(v@),
            _ => true,
        }
    }

    /// `self` is a canonical form of `t`: the same type, with a group's
    /// members sorted and each kept once; every member kept is one of `t`'s,
    /// and every member of `t` is kept or has one of equal words kept.
    pub open spec fn canonical_of(&self, t: TypeDesc) -> bool {
        &&& self.is_canonical()
        &&& match (t, *self) {
            (TypeDesc::AtomGroup(v), TypeDesc::AtomGroup(w)) => drawn_from(w@, v@) && covers_from(w@, v@, 0),
            (TypeDesc::AtomGroup(_), _) => false,
            _ => *self == t,
        }
    }

    /// The canonical form of the type: a group's members sorted by their
    /// words, each once.
    pub fn canonical(self) -> (r: TypeDesc)
        ensures
            r.canonical_of(self),
    {
        match self {
            TypeDesc::AtomGroup(v) => TypeDesc::AtomGroup(canonical_members(v)),
            other => other,
        }
    }

    /// Every atom the type refers to is below `n_atoms` and every type it
    /// refers to is below `n_types`.
    pub open spec fn refs_below(&self, n_atoms: nat, n_types: nat) -> bool {
        match self {
            TypeDesc::AtomGroup(v) => forall|i: int|
                0 <= i < v@.len() ==> (#[trigger] v@[i]).item@ < n_atoms && args_refs_below(
                    v@[i].params@,
                    n_types,
                ),
            TypeDesc::Func(v) => args_refs_below(v@, n_types),
            TypeDesc::Tuple(v) => forall|i: int| 0 <= i < v@.len() ==> (#[trigger] v@[i])@ < n_types,
            TypeDesc::BottomThunk => true,
            TypeDesc::Int32 => true,
        }
    }

    /// Raising the bounds keeps the type's references below them.
    pub proof fn lemma_refs_grow(&self, a0: nat, t0: nat, a1: nat, t1: nat)
        requires
            self.refs_below(a0, t0),
            a0 <= a1,
            t0 <= t1,
        ensures
            self.refs_below(a1, t1),
    {
        match self {
            TypeDesc::AtomGroup(v) => {
                assert forall|i: int| 0 <= i < v@.len() implies (#[trigger] v@[i]).item@ < a1
                    && args_refs_below(v@[i].params@, t1) by {
                    lemma_args_refs_grow(v@[i].params@, t0, t1);
                }
            },
            TypeDesc::Func(v) => {
                lemma_args_refs_grow(v@, t0, t1);
            },
            _ => {},
        }
    }
}

impl View for TypeDesc {
    type V = Seq<u64>;

    /// The words that spell out the type: equal words, equal types.
    open spec fn view(&self) -> Seq<u64> {
        match self {
            TypeDesc::AtomGroup(v) => seq![10u64, v@.len() as u64] + members_words(v@),
            TypeDesc::Func(v) => seq![11u64, v@.len() as u64] + args_words(v@),
            TypeDesc::Tuple(v) => seq![12u64, v@.len() as u64] + refs_words(v@),
            TypeDesc::BottomThunk => seq![13u64],
            TypeDesc::Int32 => seq![14u64],
        }
    }
}

/// Each argument type's words are no longer than the words of its list.
pub proof fn lemma_args_words_cover(s: Seq<ArgType>, i: int)
    requires
        0 <= i < s.len(),
    ensures
        arg_words(s[i]).len() <= args_words(s).len(),
    decreases s.len(),
{
    if i < s.len() - 1 {
        assert(s.drop_last()[i] == s[i]);
        lemma_args_words_cover(s.drop_last(), i);
    }
}

/// Appends the words of `a` to `out`.
pub fn encode_arg(a: &ArgType, out: &mut Vec<u64>)
    ensures
        final(out)@ == old(out)@ + arg_words(*a),
    decreases arg_words(*a).len(),
{
    match a {
        ArgType::Concrete(ad) => {
            out.push(0);
            out.push(ad.item.get_inner() as u64);
            out.push(ad.params.len() as u64);
            let ghost start = out@;
            let mut i: usize = 0;
            while i < ad.params.len()
                invariant
                    i <= ad.params@.len(),
                    *a == ArgType::Concrete(*ad),
                    out@ == start + args_words(ad.params@.subrange(0, i as int)),
                decreases ad.params@.len() - i,
            {
                proof {
                    lemma_args_words_cover(ad.params@, i as int);
                    assert(ad.params@.subrange(0, i + 1).drop_last() == ad.params@.subrange(
                        0,
                        i as int,
                    ));
                }
                encode_arg(&ad.params[i], out);
                i = i + 1;
            }
            proof {
                assert(ad.params@.subrange(0, ad.params@.len() as int) == ad.params@);
            }
            assert(out@ == old(out)@ + arg_words(*a));
        },
        ArgType::Generic(n) => {
            out.push(1);
            out.push(*n as u64);
            assert(out@ == old(out)@ + arg_words(*a));
        },
    }
}

/// Appends the words of every argument type of `v` to `out`.
pub fn encode_args(v: &Vec<ArgType>, out: &mut Vec<u64>)
    ensures
        final(out)@ == old(out)@ + args_words(v@),
{
    let ghost start = out@;
    let mut i: usize = 0;
    while i < v.len()
        invariant
            i <= v@.len(),
            out@ == start + args_words(v@.subrange(0, i as int)),
        decreases v@.len() - i,
    {
        assert(v@.subrange(0, i + 1).drop_last() == v@.subrange(0, i as int));
        encode_arg(&v[i], out);
        i = i + 1;
    }
    assert(v@.subrange(0, v@.len() as int) == v@);
}

impl TypeDesc {
    /// The words that spell out this type.
    pub fn encode(&self) -> (r: Vec<u64>)
        ensures
            r@ == self@,
    {
        let mut out: Vec<u64> = Vec::new();
        match self {
            TypeDesc::AtomGroup(v) => {
                out.push(10);
                out.push(v.len() as u64);
                let ghost start = out@;
                let mut i: usize = 0;
                while i < v.len()
                    invariant
                        i <= v@.len(),
                        out@ == start + members_words(v@.subrange(0, i as int)),
                    decreases v@.len() - i,
                {
                    assert(v@.subrange(0, i + 1).drop_last() == v@.subrange(0, i as int));
                    proof {
                        reveal(member_words);
                    }
                    out.push(v[i].item.get_inner() as u64);
                    out.push(v[i].params.len() as u64);
                    encode_args(&v[i].params, &mut out);
                    i = i + 1;
                }
                assert(v@.subrange(0, v@.len() as int) == v@);
            },
            TypeDesc::Func(v) => {
                out.push(11);
                out.push(v.len() as u64);
                encode_args(v, &mut out);
            },
            TypeDesc::Tuple(v) => {
                out.push(12);
                out.push(v.len() as u64);
                let ghost start = out@;
                let mut i: usize = 0;
                while i < v.len()
                    invariant
                        i <= v@.len(),
                        out@ == start + refs_words(v@.subrange(0, i as int)),
                    decreases v@.len() - i,
                {
                    assert(v@.subrange(0, i + 1).drop_last() == v@.subrange(0, i as int));
                    out.push(v[i].get_inner() as u64);
                    i = i + 1;
                }
                assert(v@.subrange(0, v@.len() as int) == v@);
            },
            TypeDesc::BottomThunk => {
                out.push(13);
            },
            TypeDesc::Int32 => {
                out.push(14);
            },
        }
        assert(out@ == self@);
        out
    }
}

} // verus!
