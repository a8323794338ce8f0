//! Codegen tools: the interning tables and the module builder.

use std::marker::PhantomData;

use vstd::prelude::*;

use crate::func::Function;
use crate::module::{Atom, Export, Import, Module, Reference, TypeDesc, Use, UseView};

verus! {

/// A value that tables can compare by content: two values are the same
/// entry exactly when their views are equal.
pub trait Content: View + Sized {
    fn same(&self, other: &Self) -> (r: bool)
        ensures
            r == (self@ == other@),
    ;
}

impl Content for String {
    fn same(&self, other: &Self) -> (r: bool) {
        self.eq(other)
    }
}

impl Content for usize {
    fn same(&self, other: &Self) -> (r: bool) {
        *self == *other
    }
}

impl Content for () {
    fn same(&self, other: &Self) -> (r: bool) {
        true
    }
}

impl<T> Content for Reference<T> {
    fn same(&self, other: &Self) -> (r: bool) {
        self.get_inner() == other.get_inner()
    }
}

impl<T> Content for Import<T> {
    fn same(&self, other: &Self) -> (r: bool) {
        self.name_ref().get_inner() == other.name_ref().get_inner()
            && self.source_ref().get_inner() == other.source_ref().get_inner()
    }
}

impl<T> Content for Use<T> {
    fn same(&self, other: &Self) -> (r: bool) {
        match (self, other) {
            (Use::Internal(a), Use::Internal(b)) => a.get_inner() == b.get_inner(),
            (Use::External(a), Use::External(b)) => a.get_inner() == b.get_inner(),
            _ => false,
        }
    }
}

/// Whether two word sequences are equal.
pub(crate) fn words_equal(a: &Vec<u64>, b: &Vec<u64>) -> (r: bool)
    ensures
        r == (a@ == b@),
{
    if a.len() != b.len() {
        return false;
    }
    let mut i: usize = 0;
    while i < a.len()
        invariant
            a@.len() == b@.len(),
            i <= a@.len(),
            forall|k: int| 0 <= k < i ==> a@[k] == b@[k],
        decreases a@.len() - i,
    {
        if a[i] != b[i] {
            return false;
        }
        i = i + 1;
    }
    assert(a@ == b@);
    true
}

impl Content for TypeDesc {
    fn same(&self, other: &Self) -> (r: bool) {
        let a = self.encode();
        let b = other.encode();
        words_equal(&a, &b)
    }
}

/// Whether key `k` appears among the keys of `s`.
pub open spec fn has_key<K, D>(s: Seq<(K, D)>, k: K) -> bool {
    exists|i: int| 0 <= i < s.len() && s[i].0 == k
}

/// No key appears twice in `s`.
pub open spec fn unique_keys<K, D>(s: Seq<(K, D)>) -> bool {
    forall|i: int, j: int| 0 <= i < j < s.len() ==> s[i].0 != s[j].0
}

/// What one insertion of `(k, d)` does to the entries `s0`, leaving `s1` and
/// answering `r` (`None` for a collision): an entry already keyed by `k`
/// is answered with its position if its payload is `d` and refused if not,
/// and leaves the entries as they were; a new key is appended and answered
/// with its position.
pub open spec fn interned<K, D>(s0: Seq<(K, D)>, s1: Seq<(K, D)>, k: K, d: D, r: Option<int>) -> bool {
    if has_key(s0, k) {
        s1 == s0 && forall|i: int|
            0 <= i < s0.len() && s0[i].0 == k ==> if s0[i].1 == d {
                r == Some(i)
            } else {
                r is None
            }
    } else {
        s1 == s0.push((k, d)) && r == Some(s0.len() as int)
    }
}

/// The position a result hands out, if any.
pub open spec fn handle_of<T>(r: Result<Reference<T>, CodeGenErr>) -> Option<int> {
    match r {
        Ok(h) => Some(h@ as int),
        Err(_) => None,
    }
}

/// Inserting the same key with the same payload twice gives the same handle
/// both times and adds at most one entry.
pub proof fn lemma_insert_twice<K, D>(
    s0: Seq<(K, D)>,
    s1: Seq<(K, D)>,
    s2: Seq<(K, D)>,
    k: K,
    d: D,
    r1: Option<int>,
    r2: Option<int>,
)
    requires
        unique_keys(s0),
        interned(s0, s1, k, d, r1),
        interned(s1, s2, k, d, r2),
    ensures
        r1 == r2,
        s2 == s1,
        r1 is Some ==> s1.len() <= s0.len() + 1,
        !has_key(s0, k) ==> r1 is Some && s1.len() == s0.len() + 1,
{
    if !has_key(s0, k) {
        let n = s0.len() as int;
        assert(s1[n].0 == k);
        assert(has_key(s1, k));
    }
}

/// Inserting a key again with another payload is refused and leaves the
/// entries, the first payload among them, as they were.
pub proof fn lemma_collision<K, D>(
    s0: Seq<(K, D)>,
    s1: Seq<(K, D)>,
    s2: Seq<(K, D)>,
    k: K,
    d1: D,
    d2: D,
    r1: Option<int>,
    r2: Option<int>,
)
    requires
        unique_keys(s0),
        !has_key(s0, k),
        d1 != d2,
        interned(s0, s1, k, d1, r1),
        interned(s1, s2, k, d2, r2),
    ensures
        r1 == Some(s0.len() as int),
        r2 is None,
        s2 == s1,
        s2[s0.len() as int] == (k, d1),
{
    let n = s0.len() as int;
    assert(s1[n].0 == k);
    assert(has_key(s1, k));
    assert forall|i: int| 0 <= i < s1.len() && s1[i].0 == k implies i == n by {
        if i < n {
            assert(s0[i].0 == k);
        }
    }
}

/// Inserting two values of equal content gives equal handles.
pub proof fn lemma_equal_content<K>(
    s0: Seq<K>,
    s1: Seq<K>,
    s2: Seq<K>,
    a: K,
    b: K,
    r1: usize,
    r2: usize,
)
    requires
        s0.no_duplicates(),
        set_interned(s0, s1, a, r1),
        set_interned(s1, s2, b, r2),
        a == b,
    ensures
        r1 == r2,
        s2 == s1,
{
    assert(s1.contains(b));
}

/// What one insertion of `k` into a set of distinct entries `s0` does: a key
/// already present is answered with its position, a new one is appended.
pub open spec fn set_interned<K>(s0: Seq<K>, s1: Seq<K>, k: K, r: usize) -> bool {
    &&& r < s1.len()
    &&& s1[r as int] == k
    &&& if s0.contains(k) {
        s1 == s0
    } else {
        s1 == s0.push(k) && r == s0.len()
    }
}

/// The position of an atom definition, read as a reference to the atom.
/// The atom definitions are keyed by their name's symbol, one entry per
/// atom, so the two index spaces coincide.
fn atom_definition(r: Reference<Reference<String>>) -> (a: Reference<Atom>)
    ensures
        a@ == r@,
{
    r.retag()
}

/// A table that hands out one position per distinct key and remembers a
/// payload with each key.
#[derive(Debug)]
pub struct IndexMap<T, I> {
    items: Vec<(T, I)>,
}

impl<T: View, I: View> View for IndexMap<T, I> {
    type V = Seq<(T::V, I::V)>;

    closed spec fn view(&self) -> Seq<(T::V, I::V)> {
        self.items@.map_values(|e: (T, I)| (e.0@, e.1@))
    }
}

impl<T, I> IndexMap<T, I> {
    /// The entries themselves, in order.
    pub closed spec fn entries(&self) -> Seq<(T, I)> {
        self.items@
    }
}

impl<T: Content, I: Content> IndexMap<T, I> {
    /// Keys are distinct.
    pub open spec fn wf(&self) -> bool {
        unique_keys(self@)
    }

    pub fn new() -> (r: IndexMap<T, I>)
        ensures
            r@ == Seq::<(T::V, I::V)>::empty(),
            r.wf(),
    {
        IndexMap { items: Vec::new() }
    }

    pub fn len(&self) -> (r: usize)
        ensures
            r == self@.len(),
    {
        self.items.len()
    }

    /// The position of `item`, if it is a key.
    pub fn find(&self, item: &T) -> (r: Option<usize>)
        requires
            self.wf(),
        ensures
            match r {
                Some(i) => i < self@.len() && self@[i as int].0 == item@,
                None => !has_key(self@, item@),
            },
    {
        let mut i: usize = 0;
        while i < self.items.len()
            invariant
                i <= self.items@.len(),
                self@.len() == self.items@.len(),
                forall|k: int| 0 <= k < i ==> self@[k].0 != item@,
            decreases self.items@.len() - i,
        {
            if self.items[i].0.same(item) {
                return Some(i);
            }
            i = i + 1;
        }
        None
    }

    /// The payload at position `i`.
    pub fn payload(&self, i: usize) -> (r: &I)
        requires
            i < self@.len(),
        ensures
            r@ == self@[i as int].1,
    {
        &self.items[i].1
    }

    /// The key at position `i`.
    pub fn key(&self, i: usize) -> (r: &T)
        requires
            i < self@.len(),
        ensures
            r@ == self@[i as int].0,
    {
        &self.items[i].0
    }

    /// Interns `item` with its payload `data`: the position of an equal key
    /// if its payload equals `data`, `NameCollision` if it differs, and a
    /// new position otherwise.
    pub fn insert(&mut self, item: T, data: I) -> (r: Result<Reference<T>, CodeGenErr>)
        requires
            old(self).wf(),
        ensures
            final(self).wf(),
            interned(old(self)@, final(self)@, item@, data@, handle_of(r)),
            has_key(old(self)@, item@) ==> *final(self) == *old(self),
            final(self).entries() == if has_key(old(self)@, item@) {
                old(self).entries()
            } else {
                old(self).entries().push((item, data))
            },
    {
        match self.find(&item) {
            Some(i) => {
                proof {
                    assert forall|k: int|
                        0 <= k < self@.len() && self@[k].0 == item@ implies k == i by {}
                }
                if !self.items[i].1.same(&data) {
                    return Err(CodeGenErr::NameCollision);
                }
                Ok(Reference::new(i))
            },
            None => {
                let idx = Reference::new(self.items.len());
                self.items.push((item, data));
                proof {
                    assert(self@ == old(self)@.push((item@, data@)));
                }
                Ok(idx)
            },
        }
    }

    /// The entries in the order their positions were handed out.
    pub fn finish(self) -> (r: Vec<(T, I)>)
        ensures
            r@.map_values(|e: (T, I)| (e.0@, e.1@)) == self@,
            r@ == self.entries(),
    {
        self.items
    }
}

/// A table that hands out one position per distinct value.
#[derive(Debug)]
pub struct IndexSet<T>(IndexMap<T, ()>);

impl<T: View> View for IndexSet<T> {
    type V = Seq<T::V>;

    closed spec fn view(&self) -> Seq<T::V> {
        self.0@.map_values(|e: (T::V, ())| e.0)
    }
}

impl<T> IndexSet<T> {
    /// The values themselves, in order.
    pub closed spec fn items(&self) -> Seq<T> {
        self.0.entries().map_values(|e: (T, ())| e.0)
    }
}

impl<T: Content> IndexSet<T> {
    /// Values are distinct.
    pub closed spec fn wf(&self) -> bool {
        self.0.wf()
    }

    /// The values line up with the view, position for position.
    pub proof fn lemma_items(&self)
        ensures
            self.items().len() == self@.len(),
            forall|i: int| 0 <= i < self@.len() ==> (#[trigger] self.items()[i])@ == self@[i],
    {
    }

    /// Values are distinct.
    pub proof fn lemma_unique(&self)
        requires
            self.wf(),
        ensures
            self@.no_duplicates(),
    {
        self.lemma_view();
    }

    proof fn lemma_view(&self)
        requires
            self.wf(),
        ensures
            self@.len() == self.0@.len(),
            forall|i: int| 0 <= i < self@.len() ==> self@[i] == #[trigger] self.0@[i].0,
            self@.no_duplicates(),
    {
    }

    pub fn new() -> (r: IndexSet<T>)
        ensures
            r@ == Seq::<T::V>::empty(),
            r.wf(),
    {
        let r = IndexSet(IndexMap::new());
        assert(r@ =~= Seq::<T::V>::empty());
        r
    }

    pub fn len(&self) -> (r: usize)
        requires
            self.wf(),
        ensures
            r == self@.len(),
    {
        proof {
            self.lemma_view();
        }
        self.0.len()
    }

    /// The position of `item`, if it is present.
    pub fn find(&self, item: &T) -> (r: Option<usize>)
        requires
            self.wf(),
        ensures
            match r {
                Some(i) => i < self@.len() && self@[i as int] == item@,
                None => !self@.contains(item@),
            },
    {
        proof {
            self.lemma_view();
        }
        let r = self.0.find(item);
        proof {
            if r is None {
                if self@.contains(item@) {
                    let i = choose|i: int| 0 <= i < self@.len() && self@[i] == item@;
                    assert(self.0@[i].0 == item@);
                }
            }
        }
        r
    }

    /// The value at position `i`.
    pub fn get(&self, i: usize) -> (r: &T)
        requires
            self.wf(),
            i < self@.len(),
        ensures
            r@ == self@[i as int],
    {
        proof {
            self.lemma_view();
        }
        self.0.key(i)
    }

    /// Interns `item`: the position of an equal value if there is one, a new
    /// position otherwise.
    pub fn insert(&mut self, item: T) -> (r: Reference<T>)
        requires
            old(self).wf(),
        ensures
            final(self).wf(),
            set_interned(old(self)@, final(self)@, item@, r@),
            old(self)@.contains(item@) ==> *final(self) == *old(self),
            final(self).items() == if old(self)@.contains(item@) {
                old(self).items()
            } else {
                old(self).items().push(item)
            },
    {
        proof {
            old(self).lemma_view();
        }
        let ghost k = item@;
        let res = self.0.insert(item, ());
        proof {
            self.lemma_view();
            if has_key(old(self).0@, k) {
                let i = choose|i: int| 0 <= i < old(self).0@.len() && old(self).0@[i].0 == k;
                assert(old(self).0@[i].1 == ());
            }
        }
        let h = res.unwrap();
        proof {
            if old(self)@.contains(k) {
                let i = choose|i: int| 0 <= i < old(self)@.len() && old(self)@[i] == k;
                assert(old(self).0@[i].0 == k);
                assert(has_key(old(self).0@, k));
                assert(h@ == i);
                assert(self@ == old(self)@);
            } else {
                assert(!has_key(old(self).0@, k)) by {
                    if has_key(old(self).0@, k) {
                        let i = choose|i: int| 0 <= i < old(self).0@.len() && old(self).0@[i].0 == k;
                        assert(old(self)@[i] == k);
                    }
                }
                assert(self@ == old(self)@.push(k));
                assert(self@[old(self)@.len() as int] == k);
            }
        }
        h
    }

    /// The values in the order their positions were handed out.
    pub fn finish(self) -> (r: Vec<T>)
        requires
            self.wf(),
        ensures
            r@.map_values(|t: T| t@) == self@,
            r@ == self.items(),
    {
        proof {
            self.lemma_view();
        }
        let ghost v = self@;
        let items = self.0.finish();
        let mut out: Vec<T> = Vec::new();
        let mut rest = items;
        let ghost all = rest@;
        assert(all == self.0.entries());
        // take the entries from the back, then put them in order
        let mut rev: Vec<T> = Vec::new();
        while rest.len() > 0
            invariant
                all.map_values(|e: (T, ())| (e.0@, e.1@)).map_values(|e: (T::V, ())| e.0) == v,
                rest@ == all.subrange(0, rest@.len() as int),
                rev@.len() == all.len() - rest@.len(),
                forall|k: int|
                    0 <= k < rev@.len() ==> #[trigger] rev@[k] == all[all.len() - 1 - k].0,
            decreases rest@.len(),
        {
            let (t, _) = rest.pop().unwrap();
            rev.push(t);
        }
        while rev.len() > 0
            invariant
                all.map_values(|e: (T, ())| (e.0@, e.1@)).map_values(|e: (T::V, ())| e.0) == v,
                rev@.len() + out@.len() == all.len(),
                forall|k: int|
                    0 <= k < rev@.len() ==> #[trigger] rev@[k] == all[all.len() - 1 - k].0,
                forall|k: int| 0 <= k < out@.len() ==> #[trigger] out@[k] == all[k].0,
            decreases rev@.len(),
        {
            let t = rev.pop().unwrap();
            out.push(t);
        }
        proof {
            assert forall|k: int| 0 <= k < v.len() implies out@.map_values(|t: T| t@)[k] == v[k] by {
                assert(all.map_values(|e: (T, ())| (e.0@, e.1@))[k] == (all[k].0@, all[k].1@));
            }
            assert(out@.map_values(|t: T| t@) =~= v);
            assert(out@ =~= self.items());
        }
        out
    }
}

/// A table that hands out a fresh position for every insertion.
#[derive(Debug)]
pub struct IndexVec<T>(Vec<T>);

impl<T> View for IndexVec<T> {
    type V = Seq<T>;

    closed spec fn view(&self) -> Seq<T> {
        self.0@
    }
}

impl<T> IndexVec<T> {
    pub fn new() -> (r: Self)
        ensures
            r@ == Seq::<T>::empty(),
    {
        IndexVec(Vec::new())
    }

    pub fn len(&self) -> (r: usize)
        ensures
            r == self@.len(),
    {
        self.0.len()
    }

    /// The entry at position `i`.
    pub fn get(&self, i: usize) -> (r: &T)
        requires
            i < self@.len(),
        ensures
            *r == self@[i as int],
    {
        &self.0[i]
    }

    /// Appends `item` and hands out its position.
    pub fn insert(&mut self, item: T) -> (r: Reference<T>)
        ensures
            final(self)@ == old(self)@.push(item),
            r@ == old(self)@.len(),
    {
        let r = Reference::new(self.0.len());
        self.0.push(item);
        r
    }

    /// Replaces the entry at position `i`.
    pub fn set(&mut self, i: usize, item: T)
        requires
            i < old(self)@.len(),
        ensures
            final(self)@ == old(self)@.update(i as int, item),
    {
        self.0.set(i, item);
    }

    /// The entries in the order their positions were handed out.
    pub fn finish(self) -> (r: Vec<T>)
        ensures
            r@ == self@,
    {
        self.0
    }
}

#[verifier::external_type_specification]
#[verifier::external_body]
pub struct ExBitSet(hibitset::BitSet);

/// The indices held by a bit set.
pub uninterp spec fn bits_of(b: hibitset::BitSet) -> Set<u32>;

/// Relies on hibitset's `BitSet::new`: a new set holds no index.
pub assume_specification[ hibitset::BitSet::new ]() -> (r: hibitset::BitSet)
    ensures
        bits_of(r) == Set::<u32>::empty(),
;

/// Relies on hibitset's `BitSet::add`: the index is added, and the answer says
/// whether it was there before. It panics above its largest index, which is
/// at least `REF_LIMIT` on every target.
pub assume_specification[ hibitset::BitSet::add ](b: &mut hibitset::BitSet, id: u32) -> (r: bool)
    requires
        id < REF_LIMIT,
    ensures
        bits_of(*final(b)) == bits_of(*old(b)).insert(id),
        r == bits_of(*old(b)).contains(id),
;

/// Relies on hibitset's `BitSet::contains`: whether the index is held.
pub assume_specification[ hibitset::BitSet::contains ](b: &hibitset::BitSet, id: u32) -> (r: bool)
    ensures
        r == bits_of(*b).contains(id),
;

/// Positions below this bound can be kept in a [RefSet].
pub const REF_LIMIT: u32 = 1048576;

/// A dense set of positions of one table.
#[derive(Debug)]
pub struct RefSet<T> {
    pub inner: hibitset::BitSet,
    _tag: PhantomData<T>,
}

impl<T> View for RefSet<T> {
    type V = Set<usize>;

    closed spec fn view(&self) -> Set<usize> {
        Set::new(|i: usize| i < REF_LIMIT && bits_of(self.inner).contains(i as u32))
    }
}

impl<T> RefSet<T> {
    pub fn new() -> (r: Self)
        ensures
            r@ == Set::<usize>::empty(),
    {
        let r = RefSet { inner: hibitset::BitSet::new(), _tag: PhantomData };
        assert(r@ =~= Set::<usize>::empty());
        r
    }

    pub fn insert(&mut self, item: Reference<T>)
        requires
            item@ < REF_LIMIT,
        ensures
            final(self)@ == old(self)@.insert(item@),
    {
        self.inner.add(item.get_inner() as u32);
        proof {
            assert forall|i: usize| #[trigger] self@.contains(i) == old(self)@.insert(item@).contains(i) by {
                if i < REF_LIMIT && i != item@ {
                    assert(i as u32 != item@ as u32);
                }
            }
            assert(self@ =~= old(self)@.insert(item@));
        }
    }

    pub fn contains(&self, item: Reference<T>) -> (r: bool)
        ensures
            r == self@.contains(item@),
    {
        if item.get_inner() >= REF_LIMIT as usize {
            return false;
        }
        self.inner.contains(item.get_inner() as u32)
    }
}

/// Assembles one module, handing out each entry's final position as it is
/// inserted.
#[derive(Debug)]
pub struct ModuleBuilder {
    pub symbols: IndexSet<String>,
    pub imported_modules: IndexSet<String>,
    pub atom_defs: IndexMap<Reference<String>, usize>,
    pub atom_imports: IndexSet<Import<Atom>>,
    pub atom_uses: IndexSet<Use<Atom>>,
    pub type_defs: IndexSet<TypeDesc>,
    pub func_defs: IndexVec<Function>,
    pub func_imports: IndexSet<Import<Function>>,
    pub func_exports: IndexVec<Export>,
    pub func_uses: IndexSet<Use<Function>>,
}

/// The symbols after `name` has been interned into `s0`.
pub open spec fn with_symbol(s0: Seq<Seq<char>>, name: Seq<char>) -> Seq<Seq<char>> {
    if s0.contains(name) {
        s0
    } else {
        s0.push(name)
    }
}

/// Every position of `uses` holds a use that points below the given bounds.
pub open spec fn use_views_wf(uses: Seq<UseView>, n_defs: nat, n_imports: nat) -> bool {
    forall|i: int|
        0 <= i < uses.len() ==> match #[trigger] uses[i] {
            UseView::Internal(j) => j < n_defs,
            UseView::External(j) => j < n_imports,
        }
}

/// Every import names a symbol and a module below the given bounds.
pub open spec fn import_views_wf(imports: Seq<(usize, usize)>, n_symbols: nat, n_modules: nat) -> bool {
    forall|i: int|
        0 <= i < imports.len() ==> (#[trigger] imports[i]).0 < n_symbols && imports[i].1 < n_modules
}

proof fn lemma_imports_grow(
    s0: Seq<(usize, usize)>,
    s1: Seq<(usize, usize)>,
    k: (usize, usize),
    r: usize,
    n0: nat,
    n1: nat,
    m: nat,
)
    requires
        import_views_wf(s0, n0, m),
        set_interned(s0, s1, k, r),
        k.0 < n1,
        k.1 < m,
        n0 <= n1,
    ensures
        import_views_wf(s1, n1, m),
{
    assert forall|i: int| 0 <= i < s1.len() implies (#[trigger] s1[i]).0 < n1 && s1[i].1 < m by {
        if i < s0.len() {
            assert(s1[i] == s0[i]);
        }
    }
}

proof fn lemma_uses_grow(s0: Seq<UseView>, s1: Seq<UseView>, k: UseView, r: usize, n: nat, m: nat)
    requires
        use_views_wf(s0, n, m),
        set_interned(s0, s1, k, r),
        use_views_wf(seq![k], n, m),
    ensures
        use_views_wf(s1, n, m),
{
    assert forall|i: int| 0 <= i < s1.len() implies match #[trigger] s1[i] {
        UseView::Internal(j) => j < n,
        UseView::External(j) => j < m,
    } by {
        if i < s0.len() {
            assert(s1[i] == s0[i]);
        } else {
            assert(s1[i] == seq![k][0]);
        }
    }
}

proof fn lemma_bounds_grow(b0: &ModuleBuilder, b1: &ModuleBuilder)
    requires
        b0.wf(),
        b0.symbols@.len() <= b1.symbols@.len(),
        b0.imported_modules@.len() <= b1.imported_modules@.len(),
        b1.atom_defs@ == b0.atom_defs@,
        b1.func_imports@ == b0.func_imports@,
    ensures
        forall|i: int| 0 <= i < b1.atom_defs@.len() ==> (#[trigger] b1.atom_defs@[i]).0 < b1.symbols@.len(),
        import_views_wf(b1.func_imports@, b1.symbols@.len(), b1.imported_modules@.len()),
{
    assert forall|i: int| 0 <= i < b1.func_imports@.len() implies (#[trigger] b1.func_imports@[i]).0
        < b1.symbols@.len() && b1.func_imports@[i].1 < b1.imported_modules@.len() by {
        assert(b0.func_imports@[i] == b1.func_imports@[i]);
    }
    assert forall|i: int| 0 <= i < b1.atom_defs@.len() implies (#[trigger] b1.atom_defs@[i]).0 < b1.symbols@.len() by {
        assert(b0.atom_defs@[i] == b1.atom_defs@[i]);
    }
}

/// What defining atom `name` with `n` members does to builder `b0`, leaving
/// `b1` and answering `r` (the use handle, `None` for a collision): the name
/// is interned as a symbol at some position `p`, the definition `(p, n)` is
/// interned among the atom definitions, answering `a`, and a successful
/// definition is interned among the atom uses as an internal use of `a`.
pub open spec fn atom_created(b0: ModuleBuilder, b1: ModuleBuilder, name: Seq<char>, n: usize, r: Option<int>) -> bool {
    exists|p: usize, a: Option<int>|
        #[trigger] interned(b0.atom_defs@, b1.atom_defs@, p, n, a) && {
            &&& b1.symbols@ == with_symbol(b0.symbols@, name)
            &&& p < b1.symbols@.len()
            &&& b1.symbols@[p as int] == name
            &&& match a {
                Some(ai) => r is Some && set_interned(
                    b0.atom_uses@,
                    b1.atom_uses@,
                    UseView::Internal(ai as usize),
                    r->0 as usize,
                ) && 0 <= r->0 < b1.atom_uses@.len() && r->0 <= usize::MAX,
                None => r is None && b1.atom_uses@ == b0.atom_uses@,
            }
        }
}

/// Defining an atom twice with the same name and member count answers the
/// same handle both times, and the atom definitions gain at most one entry,
/// exactly one where the name was not defined before.
pub proof fn lemma_create_atom_twice(
    b0: ModuleBuilder,
    b1: ModuleBuilder,
    b2: ModuleBuilder,
    name: Seq<char>,
    n: usize,
    r1: Option<int>,
    r2: Option<int>,
)
    requires
        b0.wf(),
        b1.wf(),
        atom_created(b0, b1, name, n, r1),
        atom_created(b1, b2, name, n, r2),
    ensures
        r1 == r2,
        b2.atom_defs@ == b1.atom_defs@,
        b2.atom_uses@ == b1.atom_uses@,
        r1 is Some ==> b1.atom_defs@.len() <= b0.atom_defs@.len() + 1,
        !b0.symbols@.contains(name) ==> r1 is Some && b1.atom_defs@.len() == b0.atom_defs@.len() + 1,
{
    let (first_pos, a1) = choose|p: usize, a: Option<int>|
        #[trigger] interned(b0.atom_defs@, b1.atom_defs@, p, n, a) && {
            &&& b1.symbols@ == with_symbol(b0.symbols@, name)
            &&& p < b1.symbols@.len()
            &&& b1.symbols@[p as int] == name
            &&& match a {
                Some(ai) => r1 is Some && set_interned(b0.atom_uses@, b1.atom_uses@, UseView::Internal(ai as usize), r1->0 as usize) && 0 <= r1->0 < b1.atom_uses@.len() && r1->0 <= usize::MAX,
                None => r1 is None && b1.atom_uses@ == b0.atom_uses@,
            }
        };
    let (second_pos, a2) = choose|p: usize, a: Option<int>|
        #[trigger] interned(b1.atom_defs@, b2.atom_defs@, p, n, a) && {
            &&& b2.symbols@ == with_symbol(b1.symbols@, name)
            &&& p < b2.symbols@.len()
            &&& b2.symbols@[p as int] == name
            &&& match a {
                Some(ai) => r2 is Some && set_interned(b1.atom_uses@, b2.atom_uses@, UseView::Internal(ai as usize), r2->0 as usize) && 0 <= r2->0 < b2.atom_uses@.len() && r2->0 <= usize::MAX,
                None => r2 is None && b2.atom_uses@ == b1.atom_uses@,
            }
        };
    b1.symbols.lemma_unique();
    assert(b1.symbols@.contains(name));
    if !b0.symbols@.contains(name) {
        assert(b1.symbols@ == b0.symbols@.push(name));
        assert(first_pos == b0.symbols@.len()) by {
            if first_pos < b0.symbols@.len() {
                assert(b0.symbols@[first_pos as int] == name);
            }
        }
        assert(!has_key(b0.atom_defs@, first_pos)) by {
            if has_key(b0.atom_defs@, first_pos) {
                let i = choose|i: int| 0 <= i < b0.atom_defs@.len() && b0.atom_defs@[i].0 == first_pos;
                assert(b0.atom_defs@[i].0 < b0.symbols@.len());
            }
        }
    }
    assert(b2.symbols@ == b1.symbols@);
    assert(first_pos == second_pos);
    lemma_insert_twice(b0.atom_defs@, b1.atom_defs@, b2.atom_defs@, first_pos, n, a1, a2);
    if let Some(ai) = a1 {
        b1.atom_uses.lemma_unique();
        lemma_equal_content(b0.atom_uses@, b1.atom_uses@, b2.atom_uses@, UseView::Internal(ai as usize), UseView::Internal(ai as usize), r1->0 as usize, r2->0 as usize);
    }
}

/// Defining an atom again under the same name with another member count
/// fails and leaves the first definition, and every atom definition, as it
/// was.
pub proof fn lemma_create_atom_collision(
    b0: ModuleBuilder,
    b1: ModuleBuilder,
    b2: ModuleBuilder,
    name: Seq<char>,
    n1: usize,
    n2: usize,
    r1: Option<int>,
    r2: Option<int>,
)
    requires
        b0.wf(),
        b1.wf(),
        n1 != n2,
        atom_created(b0, b1, name, n1, r1),
        atom_created(b1, b2, name, n2, r2),
        r1 is Some,
    ensures
        r2 is None,
        b2.atom_defs@ == b1.atom_defs@,
        b2.atom_uses@ == b1.atom_uses@,
        exists|i: int| 0 <= i < b2.atom_defs@.len() && b2.symbols@[b2.atom_defs@[i].0 as int] == name && b2.atom_defs@[i].1 == n1,
{
    let (first_pos, a1) = choose|p: usize, a: Option<int>|
        #[trigger] interned(b0.atom_defs@, b1.atom_defs@, p, n1, a) && {
            &&& b1.symbols@ == with_symbol(b0.symbols@, name)
            &&& p < b1.symbols@.len()
            &&& b1.symbols@[p as int] == name
            &&& match a {
                Some(ai) => r1 is Some && set_interned(b0.atom_uses@, b1.atom_uses@, UseView::Internal(ai as usize), r1->0 as usize) && 0 <= r1->0 < b1.atom_uses@.len() && r1->0 <= usize::MAX,
                None => r1 is None && b1.atom_uses@ == b0.atom_uses@,
            }
        };
    let (second_pos, a2) = choose|p: usize, a: Option<int>|
        #[trigger] interned(b1.atom_defs@, b2.atom_defs@, p, n2, a) && {
            &&& b2.symbols@ == with_symbol(b1.symbols@, name)
            &&& p < b2.symbols@.len()
            &&& b2.symbols@[p as int] == name
            &&& match a {
                Some(ai) => r2 is Some && set_interned(b1.atom_uses@, b2.atom_uses@, UseView::Internal(ai as usize), r2->0 as usize) && 0 <= r2->0 < b2.atom_uses@.len() && r2->0 <= usize::MAX,
                None => r2 is None && b2.atom_uses@ == b1.atom_uses@,
            }
        };
    b1.symbols.lemma_unique();
    assert(b1.symbols@.contains(name));
    assert(b2.symbols@ == b1.symbols@);
    assert(first_pos == second_pos);
    let i = a1->0;
    if has_key(b0.atom_defs@, first_pos) {
        let k = choose|k: int| 0 <= k < b0.atom_defs@.len() && b0.atom_defs@[k].0 == first_pos;
        assert(b0.atom_defs@[k].1 == n1);
        assert(i == k);
    } else {
        assert(i == b0.atom_defs@.len());
    }
    assert(b1.atom_defs@[i] == (first_pos, n1));
    assert(has_key(b1.atom_defs@, first_pos));
    assert(b1.atom_defs@[i].1 != n2);
    assert(b2.symbols@[b2.atom_defs@[i].0 as int] == name);
}

/// Registering two types whose canonical forms `t1` and `t2` are equal in
/// content, one after the other, answers equal handles and adds nothing the
/// second time. A type other than a group is its own canonical form.
pub proof fn lemma_register_type_equal(
    b0: ModuleBuilder,
    b1: ModuleBuilder,
    b2: ModuleBuilder,
    t1: TypeDesc,
    t2: TypeDesc,
    r1: usize,
    r2: usize,
)
    requires
        b0.wf(),
        set_interned(b0.type_defs@, b1.type_defs@, t1@, r1),
        set_interned(b1.type_defs@, b2.type_defs@, t2@, r2),
        t1@ == t2@,
    ensures
        r1 == r2,
        b2.type_defs@ == b1.type_defs@,
{
    b0.type_defs.lemma_unique();
    lemma_equal_content(b0.type_defs@, b1.type_defs@, b2.type_defs@, t1@, t2@, r1, r2);
}

impl ModuleBuilder {
    /// Each table is well formed and every reference it holds is in bounds.
    pub open spec fn wf(&self) -> bool {
        let n_sym = self.symbols@.len();
        &&& self.symbols.wf()
        &&& self.imported_modules.wf()
        &&& self.atom_defs.wf()
        &&& self.atom_imports.wf()
        &&& self.atom_uses.wf()
        &&& self.type_defs.wf()
        &&& self.func_imports.wf()
        &&& self.func_uses.wf()
        &&& forall|i: int|
            0 <= i < self.type_defs.items().len() ==> (#[trigger] self.type_defs.items()[i]).is_canonical()
        &&& forall|i: int| 0 <= i < self.atom_defs@.len() ==> (#[trigger] self.atom_defs@[i]).0 < n_sym
        &&& import_views_wf(self.atom_imports@, n_sym, self.imported_modules@.len())
        &&& use_views_wf(self.atom_uses@, self.atom_defs@.len(), self.atom_imports@.len())
        &&& import_views_wf(self.func_imports@, n_sym, self.imported_modules@.len())
        &&& use_views_wf(self.func_uses@, self.func_defs@.len(), self.func_imports@.len())
        &&& forall|i: int|
            0 <= i < self.func_exports@.len() ==> (#[trigger] self.func_exports@[i])@.0
                < self.func_uses@.len() && self.func_exports@[i]@.1 < n_sym
    }

    /// Whether creating atom `name` with `num_members` members collides with
    /// an atom of that name and another member count.
    pub open spec fn atom_collides(&self, name: Seq<char>, num_members: usize) -> bool {
        exists|p: int, i: int|
            0 <= p < self.symbols@.len() && 0 <= i < self.atom_defs@.len() && self.symbols@[p]
                == name && self.atom_defs@[i].0 == p && self.atom_defs@[i].1 != num_members
    }

    pub fn new() -> (r: Self)
        ensures
            r.wf(),
            r.symbols@.len() == 0,
            r.imported_modules@.len() == 0,
            r.atom_defs@.len() == 0,
            r.atom_imports@.len() == 0,
            r.atom_uses@.len() == 0,
            r.type_defs@.len() == 0,
            r.func_defs@.len() == 0,
            r.func_imports@.len() == 0,
            r.func_exports@.len() == 0,
            r.func_uses@.len() == 0,
    {
        let r = ModuleBuilder {
            symbols: IndexSet::new(),
            imported_modules: IndexSet::new(),
            atom_defs: IndexMap::new(),
            atom_imports: IndexSet::new(),
            atom_uses: IndexSet::new(),
            type_defs: IndexSet::new(),
            func_defs: IndexVec::new(),
            func_imports: IndexSet::new(),
            func_exports: IndexVec::new(),
            func_uses: IndexSet::new(),
        };
        proof {
            r.type_defs.lemma_items();
        }
        r
    }

    /// Interns a module path to import from.
    pub fn import_module(&mut self, path: String) -> (r: Reference<String>)
        requires
            old(self).wf(),
        ensures
            final(self).wf(),
            set_interned(old(self).imported_modules@, final(self).imported_modules@, path@, r@),
            final(self).symbols@ == old(self).symbols@,
            final(self).atom_defs@ == old(self).atom_defs@,
            final(self).atom_imports@ == old(self).atom_imports@,
            final(self).atom_uses@ == old(self).atom_uses@,
            final(self).type_defs@ == old(self).type_defs@,
            final(self).func_defs@ == old(self).func_defs@,
            final(self).func_imports@ == old(self).func_imports@,
            final(self).func_exports@ == old(self).func_exports@,
            final(self).func_uses@ == old(self).func_uses@,
    {
        self.imported_modules.insert(path)
    }

    /// Defines the atom `name` with `num_members` members, or hands back the
    /// atom already defined so. Defining a name again with another member
    /// count fails with `NameCollision` and keeps the first definition.
    pub fn create_atom(&mut self, name: String, num_members: usize) -> (r: Result<
        Reference<Use<Atom>>,
        CodeGenErr,
    >)
        requires
            old(self).wf(),
        ensures
            final(self).wf(),
            r is Err <==> old(self).atom_collides(name@, num_members),
            atom_created(*old(self), *final(self), name@, num_members, handle_of(r)),
            r is Err ==> final(self).atom_defs@ == old(self).atom_defs@,
            r is Err ==> final(self).atom_uses@ == old(self).atom_uses@,
            final(self).symbols@ == with_symbol(old(self).symbols@, name@),
            match r {
                Ok(h) => {
                    &&& h@ < final(self).atom_uses@.len()
                    &&& final(self).atom_uses@[h@ as int] matches UseView::Internal(a)
                    &&& a < final(self).atom_defs@.len()
                    &&& final(self).atom_defs@[a as int].1 == num_members
                    &&& final(self).symbols@[final(self).atom_defs@[a as int].0 as int] == name@
                    &&& old(self).atom_defs@.len() <= final(self).atom_defs@.len()
                        <= old(self).atom_defs@.len() + 1
                },
                Err(_) => true,
            },
            final(self).imported_modules@ == old(self).imported_modules@,
            final(self).atom_imports@ == old(self).atom_imports@,
            final(self).type_defs@ == old(self).type_defs@,
            final(self).func_defs@ == old(self).func_defs@,
            final(self).func_imports@ == old(self).func_imports@,
            final(self).func_exports@ == old(self).func_exports@,
            final(self).func_uses@ == old(self).func_uses@,
    {
        let ghost name_v = name@;
        let s = self.symbols.insert(name);
        let ghost p = s@;
        let defined = self.atom_defs.insert(s, num_members);
        proof {
            if old(self).atom_collides(name_v, num_members) {
                let (q, i) = choose|q: int, i: int|
                    0 <= q < old(self).symbols@.len() && 0 <= i < old(self).atom_defs@.len()
                        && old(self).symbols@[q] == name_v && old(self).atom_defs@[i].0 == q
                        && old(self).atom_defs@[i].1 != num_members;
                assert(q == p);
                assert(has_key(old(self).atom_defs@, p));
            }
        }
        match defined {
            Ok(a) => {
                proof {
                    if has_key(old(self).atom_defs@, p) {
                        assert(self.atom_defs@[a@ as int].0 == p);
                    } else {
                        assert(self.atom_defs@[a@ as int] == (p, num_members));
                    }
                    assert(!old(self).atom_collides(name_v, num_members)) by {
                        if old(self).atom_collides(name_v, num_members) {
                            let (q, i) = choose|q: int, i: int|
                                0 <= q < old(self).symbols@.len() && 0 <= i
                                    < old(self).atom_defs@.len() && old(self).symbols@[q]
                                    == name_v && old(self).atom_defs@[i].0 == q
                                    && old(self).atom_defs@[i].1 != num_members;
                            assert(q == p);
                        }
                    }
                }
                let used = self.atom_uses.insert(Use::Internal(atom_definition(a)));
                assert(interned(old(self).atom_defs@, self.atom_defs@, p, num_members, handle_of(defined)));
                Ok(used)
            },
            Err(e) => {
                proof {
                    let i = choose|i: int|
                        0 <= i < old(self).atom_defs@.len() && old(self).atom_defs@[i].0 == p;
                    assert(old(self).atom_defs@[i].1 != num_members);
                    assert(old(self).symbols@[p as int] == name_v);
                    assert(interned(old(self).atom_defs@, self.atom_defs@, p, num_members, handle_of(defined)));
                }
                Err(e)
            },
        }
    }

    /// Imports the atom `name` from the module at `source`. Its member count
    /// is not known here and is not checked.
    pub fn import_atom(&mut self, name: String, source: Reference<String>) -> (r: Reference<
        Use<Atom>,
    >)
        requires
            old(self).wf(),
            source@ < old(self).imported_modules@.len(),
        ensures
            final(self).wf(),
            final(self).symbols@ == with_symbol(old(self).symbols@, name@),
            r@ < final(self).atom_uses@.len(),
            final(self).atom_uses@[r@ as int] matches UseView::External(j) && j
                < final(self).atom_imports@.len() && final(self).atom_imports@[j as int].1
                == source@ && final(self).symbols@[final(self).atom_imports@[j as int].0 as int]
                == name@ && set_interned(
                old(self).atom_imports@,
                final(self).atom_imports@,
                final(self).atom_imports@[j as int],
                j,
            ) && set_interned(old(self).atom_uses@, final(self).atom_uses@, UseView::External(j), r@),
            final(self).imported_modules@ == old(self).imported_modules@,
            final(self).atom_defs@ == old(self).atom_defs@,
            final(self).type_defs@ == old(self).type_defs@,
            final(self).func_defs@ == old(self).func_defs@,
            final(self).func_imports@ == old(self).func_imports@,
            final(self).func_exports@ == old(self).func_exports@,
            final(self).func_uses@ == old(self).func_uses@,
    {
        let s = self.symbols.insert(name);
        let ghost s1 = self.symbols@;
        let ghost i0 = self.atom_imports@;
        let a = self.atom_imports.insert(Import::new(s, source));
        proof {
            lemma_imports_grow(i0, self.atom_imports@, (s@, source@), a@, old(self).symbols@.len(), s1.len(), self.imported_modules@.len());
        }
        let r = self.atom_uses.insert(Use::External(a));
        proof {
            lemma_uses_grow(old(self).atom_uses@, self.atom_uses@, UseView::External(a@), r@, self.atom_defs@.len(), self.atom_imports@.len());
            lemma_bounds_grow(old(self), self);
        }
        r
    }

    /// Interns a type by its full content: equal content, equal handle.
    pub fn register_type(&mut self, type_desc: TypeDesc) -> (r: Reference<TypeDesc>)
        requires
            old(self).wf(),
        ensures
            final(self).wf(),
            exists|c: TypeDesc|
                c.canonical_of(type_desc) && set_interned(old(self).type_defs@, final(self).type_defs@, c@, r@),
            final(self).symbols@ == old(self).symbols@,
            final(self).imported_modules@ == old(self).imported_modules@,
            final(self).atom_defs@ == old(self).atom_defs@,
            final(self).atom_imports@ == old(self).atom_imports@,
            final(self).atom_uses@ == old(self).atom_uses@,
            final(self).func_defs@ == old(self).func_defs@,
            final(self).func_imports@ == old(self).func_imports@,
            final(self).func_exports@ == old(self).func_exports@,
            final(self).func_uses@ == old(self).func_uses@,
    {
        let c = type_desc.canonical();
        let ghost cv = c;
        let r = self.type_defs.insert(c);
        assert(cv.canonical_of(type_desc) && set_interned(old(self).type_defs@, self.type_defs@, cv@, r@));
        r
    }

    /// Adds a function body; every call adds a new one.
    pub fn create_function(&mut self, func: Function) -> (r: Reference<Use<Function>>)
        requires
            old(self).wf(),
        ensures
            final(self).wf(),
            final(self).func_defs@ == old(self).func_defs@.push(func),
            r@ < final(self).func_uses@.len(),
            final(self).func_uses@[r@ as int] == UseView::Internal(old(self).func_defs@.len() as usize),
            final(self).func_uses@ == old(self).func_uses@.push(
                UseView::Internal(old(self).func_defs@.len() as usize),
            ),
            r@ == old(self).func_uses@.len(),
            final(self).symbols@ == old(self).symbols@,
            final(self).imported_modules@ == old(self).imported_modules@,
            final(self).atom_defs@ == old(self).atom_defs@,
            final(self).atom_imports@ == old(self).atom_imports@,
            final(self).atom_uses@ == old(self).atom_uses@,
            final(self).type_defs@ == old(self).type_defs@,
            final(self).func_imports@ == old(self).func_imports@,
            final(self).func_exports@ == old(self).func_exports@,
    {
        let f = self.func_defs.insert(func);
        proof {
            if old(self).func_uses@.contains(UseView::Internal(f@)) {
                let i = choose|i: int|
                    0 <= i < old(self).func_uses@.len() && old(self).func_uses@[i] == UseView::Internal(f@);
                assert(match old(self).func_uses@[i] {
                    UseView::Internal(j) => j < old(self).func_defs@.len(),
                    UseView::External(j) => j < old(self).func_imports@.len(),
                });
            }
        }
        self.func_uses.insert(Use::Internal(f))
    }

    /// Exports the function used at `rf` under `name`.
    pub fn export_function(&mut self, name: String, rf: Reference<Use<Function>>)
        requires
            old(self).wf(),
            rf@ < old(self).func_uses@.len(),
        ensures
            final(self).wf(),
            final(self).symbols@ == with_symbol(old(self).symbols@, name@),
            final(self).func_exports@.len() == old(self).func_exports@.len() + 1,
            final(self).func_exports@.drop_last() == old(self).func_exports@,
            final(self).func_exports@.last()@.0 == rf@,
            final(self).symbols@[final(self).func_exports@.last()@.1 as int] == name@,
            final(self).imported_modules@ == old(self).imported_modules@,
            final(self).atom_defs@ == old(self).atom_defs@,
            final(self).atom_imports@ == old(self).atom_imports@,
            final(self).atom_uses@ == old(self).atom_uses@,
            final(self).type_defs@ == old(self).type_defs@,
            final(self).func_defs@ == old(self).func_defs@,
            final(self).func_imports@ == old(self).func_imports@,
            final(self).func_uses@ == old(self).func_uses@,
    {
        let s = self.symbols.insert(name);
        self.func_exports.insert(Export { rf, name: s });
        assert(self.func_exports@.drop_last() == old(self).func_exports@);
    }

    /// Commits the tables, in order, into a module: every handle handed out
    /// is the position of its entry in the module.
    pub fn finish(self) -> (r: Module)
        requires
            self.wf(),
        ensures
            r.wf(),
            r.symbols@.map_values(|x: String| x@) == self.symbols@,
            r.imported_modules@.map_values(|x: String| x@) == self.imported_modules@,
            r.atom_defs@.map_values(|x: Atom| x@) == self.atom_defs@,
            r.atom_imports@.map_values(|x: Import<Atom>| x@) == self.atom_imports@,
            r.atom_uses@.map_values(|x: Use<Atom>| x@) == self.atom_uses@,
            r.type_defs@.map_values(|x: TypeDesc| x@) == self.type_defs@,
            r.func_defs@ == self.func_defs@,
            r.func_imports@.map_values(|x: Import<Function>| x@) == self.func_imports@,
            r.func_exports@ == self.func_exports@,
            r.func_uses@.map_values(|x: Use<Function>| x@) == self.func_uses@,
    {
        let ghost b = self;
        let defs = self.atom_defs.finish();
        let mut atom_defs: Vec<Atom> = Vec::new();
        let mut i: usize = 0;
        while i < defs.len()
            invariant
                i <= defs@.len(),
                defs@.map_values(|e: (Reference<String>, usize)| (e.0@, e.1@)) == b.atom_defs@,
                atom_defs@.len() == i,
                forall|k: int| 0 <= k < i ==> #[trigger] atom_defs@[k]@ == b.atom_defs@[k],
            decreases defs@.len() - i,
        {
            assert(defs@.map_values(|e: (Reference<String>, usize)| (e.0@, e.1@))[i as int] == (defs@[i as int].0@, defs@[i as int].1));
            atom_defs.push(Atom { name: defs[i].0, num_members: defs[i].1 });
            i = i + 1;
        }
        assert(atom_defs@.map_values(|x: Atom| x@) =~= b.atom_defs@);
        let r = Module {
            symbols: self.symbols.finish(),
            imported_modules: self.imported_modules.finish(),
            atom_defs,
            atom_imports: self.atom_imports.finish(),
            atom_uses: self.atom_uses.finish(),
            type_defs: self.type_defs.finish(),
            func_defs: self.func_defs.finish(),
            func_imports: self.func_imports.finish(),
            func_exports: self.func_exports.finish(),
            func_uses: self.func_uses.finish(),
        };
        proof {
            b.symbols.lemma_view();
            b.imported_modules.lemma_view();
            assert forall|i: int| 0 <= i < r.type_defs@.len() implies (#[trigger] r.type_defs@[i]).is_canonical() by {
                assert(r.type_defs@[i] == b.type_defs.items()[i]);
            }
            assert forall|k: int| 0 <= k < r.atom_defs@.len() implies (#[trigger] r.atom_defs@[k])@.0 < r.symbols@.len() by {
                assert(r.atom_defs@.map_values(|x: Atom| x@)[k] == b.atom_defs@[k]);
            }
            assert forall|k: int| 0 <= k < r.atom_imports@.len() implies (#[trigger] r.atom_imports@[k])@.0 < r.symbols@.len() && r.atom_imports@[k]@.1 < r.imported_modules@.len() by {
                assert(r.atom_imports@.map_values(|x: Import<Atom>| x@)[k] == b.atom_imports@[k]);
            }
            assert forall|k: int| 0 <= k < r.func_imports@.len() implies (#[trigger] r.func_imports@[k])@.0 < r.symbols@.len() && r.func_imports@[k]@.1 < r.imported_modules@.len() by {
                assert(r.func_imports@.map_values(|x: Import<Function>| x@)[k] == b.func_imports@[k]);
            }
            assert forall|k: int| 0 <= k < r.atom_uses@.len() implies match #[trigger] r.atom_uses@[k]@ {
                UseView::Internal(j) => j < r.atom_defs@.len(),
                UseView::External(j) => j < r.atom_imports@.len(),
            } by {
                assert(r.atom_uses@.map_values(|x: Use<Atom>| x@)[k] == b.atom_uses@[k]);
            }
            assert forall|k: int| 0 <= k < r.func_uses@.len() implies match #[trigger] r.func_uses@[k]@ {
                UseView::Internal(j) => j < r.func_defs@.len(),
                UseView::External(j) => j < r.func_imports@.len(),
            } by {
                assert(r.func_uses@.map_values(|x: Use<Function>| x@)[k] == b.func_uses@[k]);
            }
        }
        r
    }

    /// Imports the function `name` from the module at `source`.
    pub fn import_function(&mut self, name: String, source: Reference<String>) -> (r: Reference<
        Use<Function>,
    >)
        requires
            old(self).wf(),
            source@ < old(self).imported_modules@.len(),
        ensures
            final(self).wf(),
            final(self).symbols@ == with_symbol(old(self).symbols@, name@),
            r@ < final(self).func_uses@.len(),
            final(self).func_uses@[r@ as int] matches UseView::External(j) && j
                < final(self).func_imports@.len() && final(self).func_imports@[j as int].1
                == source@ && final(self).symbols@[final(self).func_imports@[j as int].0 as int]
                == name@ && set_interned(
                old(self).func_imports@,
                final(self).func_imports@,
                final(self).func_imports@[j as int],
                j,
            ) && set_interned(old(self).func_uses@, final(self).func_uses@, UseView::External(j), r@),
            final(self).imported_modules@ == old(self).imported_modules@,
            final(self).atom_defs@ == old(self).atom_defs@,
            final(self).atom_imports@ == old(self).atom_imports@,
            final(self).atom_uses@ == old(self).atom_uses@,
            final(self).type_defs@ == old(self).type_defs@,
            final(self).func_defs@ == old(self).func_defs@,
            final(self).func_exports@ == old(self).func_exports@,
    {
        let s = self.symbols.insert(name);
        let import = self.func_imports.insert(Import::new(s, source));
        self.func_uses.insert(Use::External(import))
    }
}

#[derive(Debug, Clone, Copy)]
pub enum CodeGenErr {
    NameCollision,
}

} // verus!
