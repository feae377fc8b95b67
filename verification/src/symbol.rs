//! Interned symbols and the dictionary of definitions.

use vstd::prelude::*;
use std::collections::HashMap;
use std::collections::hash_map::RandomState;
use bimap::BiHashMap;
use rand::Rng;
use crate::term::{TermRef, Tree, term_copy};
use crate::heap::Heap;
use crate::compile::{compile_ski, compile_tree, optimize, optimize_tree};
use crate::parser::{denotes, full, grown, parse_term, whole_term};
use vstd::utf8::encode_utf8;

verus! {

broadcast use vstd::std_specs::hash::group_hash_axioms;

/// An interned name.  The number identifies the symbol; two symbols are the
/// same exactly when their numbers are.
#[derive(Clone, Copy, PartialEq, Eq, Structural, Debug, Hash)]
pub struct Symb(pub u32);

/// One definition: its source text, the parsed term, the compiled and
/// optimized term, and a linked term that takes precedence where present.
pub struct DictValue {
    pub related: Vec<Symb>,
    pub text: String,
    pub parsed: TermRef,
    pub compiled: TermRef,
    pub linked: Option<TermRef>,
}

impl DictValue {
    /// The term that a reference to the definition resolves to: the linked
    /// term where there is one, else the compiled term.
    pub open spec fn target(&self) -> TermRef {
        match self.linked {
            Some(l) => l,
            None => self.compiled,
        }
    }

    /// The handles of the definition are valid in `heap`.
    pub open spec fn wf(&self, heap: &Heap) -> bool {
        &&& heap.valid(self.parsed)
        &&& heap.valid(self.compiled)
        &&& self.linked matches Some(l) ==> heap.valid(l)
    }

    /// The definition, with every handle read in `heap`.
    pub open spec fn view(&self, heap: &Heap) -> DictValueView {
        DictValueView {
            related: self.related@,
            text: self.text@,
            parsed: heap.tree(self.parsed),
            compiled: heap.tree(self.compiled),
            linked: match self.linked {
                Some(l) => Some(heap.tree(l)),
                None => None,
            },
        }
    }

    /// The handles of the definition name constants or slots of pages
    /// numbered `lo` or higher.
    pub open spec fn fresh(&self, lo: nat) -> bool {
        &&& self.parsed.fresh(lo)
        &&& self.compiled.fresh(lo)
        &&& self.linked matches Some(l) ==> l.fresh(lo)
    }

    /// The terms of the definition share no slot with the terms of `old`.
    pub open spec fn apart(&self, heap: &Heap, old: &Heap) -> bool {
        &&& heap.apart(old, self.parsed)
        &&& heap.apart(old, self.compiled)
        &&& self.linked matches Some(l) ==> heap.apart(old, l)
    }

    /// A definition that shares nothing with `old` still shares nothing with
    /// it in a store that keeps the meaning of every handle.
    pub proof fn lemma_apart_kept(&self, new: &Heap, before: &Heap, old: &Heap)
        requires
            before.wf(),
            new.wf(),
            new.preserves(before),
            self.wf(before),
            self.apart(before, old),
        ensures
            self.apart(new, old),
    {
        new.lemma_apart_kept(before, old, self.parsed);
        new.lemma_apart_kept(before, old, self.compiled);
        if self.linked is Some {
            new.lemma_apart_kept(before, old, self.linked->Some_0);
        }
    }

    /// A definition that shares nothing with a store shares nothing with a
    /// store that has fewer slots in use.
    pub proof fn lemma_apart_older(&self, heap: &Heap, later: &Heap, old: &Heap)
        requires
            heap.wf(),
            self.wf(heap),
            forall|q: TermRef| #[trigger] old.valid(q) ==> later.valid(q),
            self.apart(heap, later),
        ensures
            self.apart(heap, old),
    {
        heap.lemma_apart_older(later, old, self.parsed);
        heap.lemma_apart_older(later, old, self.compiled);
        if self.linked is Some {
            heap.lemma_apart_older(later, old, self.linked->Some_0);
        }
    }
}

/// A definition as trees.
pub struct DictValueView {
    pub related: Seq<Symb>,
    pub text: Seq<char>,
    pub parsed: Tree,
    pub compiled: Tree,
    pub linked: Option<Tree>,
}

/// Why a change of the dictionary was refused.
#[derive(Clone, Copy, PartialEq, Eq, Structural, Debug)]
pub enum DictError {
    /// The symbol is defined already.
    Exists,
    /// The symbol has no definition.
    Missing,
    /// The text is no term.
    Parse,
}

/// The dictionary: definitions by symbol, and the symbols in the order in
/// which they were defined.
pub struct Dict {
    map: HashMap<u32, DictValue>,
    order: Vec<u32>,
}

impl Dict {
    /// The definitions, by symbol.
    pub closed spec fn entries(&self) -> Map<Symb, DictValue> {
        Map::new(|s: Symb| self.map@.contains_key(s.0), |s: Symb| self.map@[s.0])
    }

    /// The defined symbols, in the order of their definition.
    pub closed spec fn symbols(&self) -> Seq<Symb> {
        self.order@.map_values(|k: u32| Symb(k))
    }

    /// The list of symbols names each definition once, and nothing else.
    pub closed spec fn inv(&self) -> bool {
        &&& self.order@.no_duplicates()
        &&& forall|k: u32| self.map@.contains_key(k) <==> #[trigger] self.order@.contains(k)
    }

    /// The dictionary is consistent and its handles are valid in `heap`.
    pub open spec fn wf(&self, heap: &Heap) -> bool {
        &&& self.inv()
        &&& forall|s: Symb| #[trigger]
            self.entries().contains_key(s) ==> self.entries()[s].wf(heap)
    }

    /// What each defined symbol stands for: the tree of its target.
    pub open spec fn defs(&self, heap: &Heap) -> Map<Symb, Tree> {
        Map::new(
            |s: Symb| self.entries().contains_key(s),
            |s: Symb| heap.tree(self.entries()[s].target()),
        )
    }

    /// The definitions, with every handle read in `heap`.
    pub open spec fn view(&self, heap: &Heap) -> Map<Symb, DictValueView> {
        Map::new(
            |s: Symb| self.entries().contains_key(s),
            |s: Symb| self.entries()[s].view(heap),
        )
    }

    /// The handles of every definition name constants or slots of pages
    /// numbered `lo` or higher.
    pub open spec fn fresh(&self, lo: nat) -> bool {
        forall|s: Symb| #[trigger] self.entries().contains_key(s) ==> self.entries()[s].fresh(lo)
    }

    /// The terms of every definition share no slot with the terms of `old`.
    pub open spec fn apart(&self, heap: &Heap, old: &Heap) -> bool {
        forall|s: Symb| #[trigger]
            self.entries().contains_key(s) ==> self.entries()[s].apart(heap, old)
    }

    /// Handles that lie on pages from `hi` on lie on pages from any lower
    /// page on.
    pub proof fn lemma_fresh_lower(&self, hi: nat, lo: nat)
        requires
            self.fresh(hi),
            lo <= hi,
        ensures
            self.fresh(lo),
    {
        assert forall|s: Symb| #[trigger] self.entries().contains_key(s) implies self.entries()[s].fresh(
            lo,
        ) by {
            assert(self.entries()[s].fresh(hi));
        }
    }

    /// A dictionary whose handles lie on pages from `lo` on keeps its
    /// meaning in a store that keeps those pages.
    pub proof fn lemma_restrict(&self, old: &Heap, new: &Heap, lo: nat)
        requires
            self.wf(old),
            self.fresh(lo),
            forall|r: TermRef| #[trigger] new.valid(r) <==> old.valid(r) && r.fresh(lo),
            forall|r: TermRef| #[trigger]
                new.valid(r) ==> new.node(r) == old.node(r) && new.tree(r) == old.tree(r),
        ensures
            self.wf(new),
            self.view(new) == self.view(old),
            self.defs(new) == self.defs(old),
    {
        assert forall|s: Symb| #[trigger] self.entries().contains_key(s) implies self.entries()[s].wf(
            new,
        ) && self.entries()[s].view(new) == self.entries()[s].view(old) by {
            let e = self.entries()[s];
            assert(e.wf(old));
            assert(e.fresh(lo));
            assert(new.valid(e.parsed) <==> old.valid(e.parsed) && e.parsed.fresh(lo));
            assert(new.valid(e.compiled) <==> old.valid(e.compiled) && e.compiled.fresh(lo));
            if e.linked is Some {
                let l = e.linked.unwrap();
                assert(new.valid(l) <==> old.valid(l) && l.fresh(lo));
            }
        }
        assert(self.view(new) =~= self.view(old));
        assert(self.defs(new) =~= self.defs(old));
    }

    /// In a store that extends `old`, a dictionary that was well formed stays
    /// so and keeps its meaning.
    pub proof fn lemma_extends(&self, old: &Heap, new: &Heap)
        requires
            self.wf(old),
            new.preserves(old),
        ensures
            self.wf(new),
            self.defs(new) == self.defs(old),
            self.view(new) == self.view(old),
    {
        assert forall|s: Symb| #[trigger] self.entries().contains_key(s) implies self.entries()[s].wf(
            new,
        ) && self.entries()[s].view(new) == self.entries()[s].view(old) by {
            assert(self.entries()[s].wf(old));
        }
        assert(self.view(new) =~= self.view(old));
        assert forall|s: Symb| self.defs(old).contains_key(s) implies #[trigger] self.defs(new)[s]
            == self.defs(old)[s] by {
            assert(self.entries()[s].wf(old));
        }
        assert(self.defs(new) =~= self.defs(old));
    }

    /// The empty dictionary.
    pub fn new() -> (d: Dict)
        ensures
            d.inv(),
            d.entries() == (Map::<Symb, DictValue>::empty()),
            d.symbols() == Seq::<Symb>::empty(),
    {
        let d = Dict { map: HashMap::new(), order: Vec::new() };
        assert(d.entries() =~= Map::<Symb, DictValue>::empty());
        assert(d.symbols() =~= Seq::<Symb>::empty());
        d
    }
}

/// The term that `symb` is defined as: the linked term of its definition
/// where there is one, else the compiled term; `None` where `symb` has no
/// definition.
pub fn lookup(dict: &Dict, symb: Symb) -> (r: Option<TermRef>)
    ensures
        r == (if dict.entries().contains_key(symb) {
            Some(dict.entries()[symb].target())
        } else {
            None
        }),
{
    match dict.map.get(&symb.0) {
        Some(value) => match value.linked {
            Some(linked) => Some(linked),
            None => Some(value.compiled),
        },
        None => None,
    }
}

impl Dict {
    /// The definition of `symb`, where it has one.
    pub fn get(&self, symb: Symb) -> (r: Option<&DictValue>)
        ensures
            match r {
                Some(v) => self.entries().contains_key(symb) && *v == self.entries()[symb],
                None => !self.entries().contains_key(symb),
            },
    {
        self.map.get(&symb.0)
    }

    /// The defined symbols, in the order of their definition.
    pub fn defined(&self) -> (v: Vec<Symb>)
        ensures
            v@ == self.symbols(),
    {
        let mut v: Vec<Symb> = Vec::new();
        let n = self.order.len();
        let mut i: usize = 0;
        while i < n
            invariant
                i <= n,
                n == self.order.len(),
                v@ == self.symbols().take(i as int),
            decreases n - i,
        {
            v.push(Symb(self.order[i]));
            i = i + 1;
            assert(v@ =~= self.symbols().take(i as int));
        }
        assert(self.symbols().take(n as int) =~= self.symbols());
        v
    }

    /// Binds `symb` to `value`, in place of its definition where it has one
    /// and as the newest definition otherwise.
    pub fn bind(&mut self, symb: Symb, value: DictValue)
        requires
            old(self).inv(),
        ensures
            final(self).inv(),
            final(self).entries() == old(self).entries().insert(symb, value),
            final(self).symbols() == if old(self).entries().contains_key(symb) {
                old(self).symbols()
            } else {
                old(self).symbols().push(symb)
            },
    {
        let fresh = !self.map.contains_key(&symb.0);
        self.map.insert(symb.0, value);
        if fresh {
            self.order.push(symb.0);
        }
        proof {
            let o0 = old(self).order@;
            let o1 = self.order@;
            assert(final(self).entries() =~= old(self).entries().insert(symb, value));
            if fresh {
                assert(!o0.contains(symb.0));
                assert(o1 =~= o0.push(symb.0));
                assert(final(self).symbols() =~= old(self).symbols().push(symb));
                assert forall|a: int, b: int|
                    0 <= a < o1.len() && 0 <= b < o1.len() && a != b implies o1[a] != o1[b] by {
                    if a < o0.len() {
                        assert(o0.contains(o0[a]));
                    }
                    if b < o0.len() {
                        assert(o0.contains(o0[b]));
                    }
                }
                assert forall|k: u32| self.map@.contains_key(k) <==> #[trigger] o1.contains(k) by {
                    if k == symb.0 {
                        assert(o1[o1.len() - 1] == k);
                    } else {
                        if o0.contains(k) {
                            let j = choose|j: int| 0 <= j < o0.len() && o0[j] == k;
                            assert(o1[j] == k);
                        }
                        if o1.contains(k) {
                            let j = choose|j: int| 0 <= j < o1.len() && o1[j] == k;
                            assert(o0[j] == k);
                            assert(o0.contains(k));
                        }
                    }
                }
            } else {
                assert(o0.contains(symb.0));
                assert forall|k: u32| self.map@.contains_key(k) <==> #[trigger] o1.contains(k) by {
                    assert(self.map@.contains_key(k) <==> old(self).map@.contains_key(k));
                }
            }
        }
    }
}

/// Removes the definition of `symb`.  Fails with `Missing`, and changes
/// nothing, where `symb` has no definition.
pub fn delete(dict: &mut Dict, symb: Symb) -> (r: Result<(), DictError>)
    requires
        old(dict).inv(),
    ensures
        final(dict).inv(),
        match r {
            Ok(_) => {
                &&& old(dict).entries().contains_key(symb)
                &&& final(dict).entries() == old(dict).entries().remove(symb)
                &&& exists|i: int|
                    0 <= i < old(dict).symbols().len() && old(dict).symbols()[i] == symb && final(
                        dict
                    ).symbols() == old(dict).symbols().remove(i)
            },
            Err(e) => e == DictError::Missing && !old(dict).entries().contains_key(symb) && *final(
                dict
            ) == *old(dict),
        },
{
    if !dict.map.contains_key(&symb.0) {
        return Err(DictError::Missing);
    }
    dict.map.remove(&symb.0);
    let n = dict.order.len();
    let mut i: usize = 0;
    while i < n && dict.order[i] != symb.0
        invariant
            i <= n,
            n == dict.order.len(),
            dict.order == old(dict).order,
            forall|j: int| 0 <= j < i ==> dict.order@[j] != symb.0,
            dict.order@.contains(symb.0),
        decreases n - i,
    {
        i = i + 1;
    }
    assert(i < n) by {
        let j = choose|j: int| 0 <= j < dict.order@.len() && dict.order@[j] == symb.0;
        assert(j >= i);
    }
    dict.order.remove(i);
    proof {
        let o0 = old(dict).order@;
        let o1 = dict.order@;
        assert(o1 =~= o0.remove(i as int));
        assert(final(dict).entries() =~= old(dict).entries().remove(symb));
        assert(final(dict).symbols() =~= old(dict).symbols().remove(i as int));
        assert forall|a: int, b: int| 0 <= a < o1.len() && 0 <= b < o1.len() && a != b implies o1[a]
            != o1[b] by {
            let a0 = if a < i { a } else { a + 1 };
            let b0 = if b < i { b } else { b + 1 };
            assert(o1[a] == o0[a0] && o1[b] == o0[b0]);
        }
        assert forall|k: u32| dict.map@.contains_key(k) <==> #[trigger] o1.contains(k) by {
            if o1.contains(k) {
                let j = choose|j: int| 0 <= j < o1.len() && o1[j] == k;
                let j0 = if j < i { j } else { j + 1 };
                assert(o0[j0] == k);
                assert(o0.contains(k));
                assert(k != symb.0) by {
                    if k == symb.0 {
                        assert(o0[i as int] == o0[j0] && j0 != i);
                    }
                }
            }
            if dict.map@.contains_key(k) {
                assert(o0.contains(k));
                let j = choose|j: int| 0 <= j < o0.len() && o0[j] == k;
                assert(j != i);
                let j1 = if j < i { j } else { j - 1 };
                assert(o1[j1] == k);
            }
        }
    }
    Ok(())
}

/// Copies the terms of a definition onto the current page.  The definition
/// keeps its meaning.  The copies share no slot with the terms that the
/// store held before, and lie on the page that was current or on pages made
/// since.  The store has grown by allocation alone.
pub fn dict_value_copy(value: &mut DictValue, heap: &mut Heap)
    requires
        old(heap).wf(),
        old(value).wf(old(heap)),
    ensures
        final(heap).wf(),
        final(heap).extends(old(heap)),
        final(heap).grows_from(old(heap)),
        final(value).wf(final(heap)),
        final(value).view(final(heap)) == old(value).view(old(heap)),
        final(value).fresh(old(heap).current_page()),
        final(value).apart(final(heap), old(heap)),
{
    let ghost h0 = *heap;
    value.parsed = term_copy(heap, value.parsed);
    let ghost h1 = *heap;
    value.compiled = term_copy(heap, value.compiled);
    let ghost h2 = *heap;
    proof {
        h2.lemma_grows_chain(&h1, &h0);
        h2.lemma_apart_kept(&h1, &h0, value.parsed);
        h2.lemma_apart_older(&h1, &h0, value.compiled);
    }
    match value.linked {
        Some(linked) => {
            let c = term_copy(heap, linked);
            value.linked = Some(c);
            proof {
                heap.lemma_grows_chain(&h2, &h0);
                heap.lemma_apart_older(&h2, &h0, c);
            }
        },
        None => {},
    }
    proof {
        heap.lemma_apart_kept(&h2, &h0, value.parsed);
        heap.lemma_apart_kept(&h2, &h0, value.compiled);
    }
}

/// Copies the terms of every definition onto the current page, in the order
/// of definition.  The dictionary keeps its meaning.  The copies share no
/// slot with the terms that the store held before, and lie on the page that
/// was current or on pages made since.  The store has grown by allocation
/// alone.
pub fn dict_copy(dict: &mut Dict, heap: &mut Heap)
    requires
        old(heap).wf(),
        old(dict).wf(old(heap)),
    ensures
        final(heap).wf(),
        final(heap).extends(old(heap)),
        final(heap).grows_from(old(heap)),
        final(dict).wf(final(heap)),
        final(dict).symbols() == old(dict).symbols(),
        final(dict).view(final(heap)) == old(dict).view(old(heap)),
        final(dict).defs(final(heap)) == old(dict).defs(old(heap)),
        final(dict).fresh(old(heap).current_page()),
        final(dict).apart(final(heap), old(heap)),
{
    let ghost map0 = dict.map@;
    let ghost order0 = dict.order@;
    let ghost c0 = heap.current_page();
    let n = dict.order.len();
    let mut i: usize = 0;
    proof {
        assert forall|k: u32| map0.contains_key(k) implies (#[trigger] map0[k]).wf(old(heap)) by {
            assert(old(dict).entries().contains_key(Symb(k)));
        }
        old(heap).lemma_grows_self();
    }
    while i < n
        invariant
            i <= n,
            n == order0.len(),
            dict.order@ == order0,
            order0 == old(dict).order@,
            map0 == old(dict).map@,
            c0 == old(heap).current_page(),
            old(dict).inv(),
            old(heap).wf(),
            heap.wf(),
            heap.grows_from(old(heap)),
            dict.map@.dom() =~= map0.dom(),
            forall|k: u32|
                map0.contains_key(k) ==> (#[trigger] dict.map@[k]).wf(heap) && dict.map@[k].view(
                    heap,
                ) == map0[k].view(old(heap)),
            forall|j: int| i <= j < n ==> dict.map@[#[trigger] order0[j]] == map0[order0[j]],
            forall|j: int|
                0 <= j < i ==> dict.map@[#[trigger] order0[j]].fresh(c0)
                    && dict.map@[order0[j]].apart(heap, old(heap)),
        decreases n - i,
    {
        let ghost before = *heap;
        let ghost map_before = dict.map@;
        let k = dict.order[i];
        assert(order0.contains(k));
        assert(map0.contains_key(k));
        let entry = dict.map.remove(&k);
        let mut value = entry.unwrap();
        assert(value == map0[k]);
        assert(value.wf(heap));
        dict_value_copy(&mut value, heap);
        dict.map.insert(k, value);
        i = i + 1;
        proof {
            heap.lemma_grows_chain(&before, old(heap));
            value.lemma_apart_older(heap, &before, old(heap));
            assert(dict.map@.dom() =~= map0.dom());
            assert forall|q: u32| map0.contains_key(q) implies (#[trigger] dict.map@[q]).wf(heap)
                && dict.map@[q].view(heap) == map0[q].view(old(heap)) by {
                if q != k {
                    assert(dict.map@[q] == map_before[q]);
                    assert(map_before[q].wf(&before));
                }
            }
            assert forall|j: int| i <= j < n implies dict.map@[#[trigger] order0[j]]
                == map0[order0[j]] by {
                assert(order0[j] != k);
            }
            assert forall|j: int| 0 <= j < i implies dict.map@[#[trigger] order0[j]].fresh(c0)
                && dict.map@[order0[j]].apart(heap, old(heap)) by {
                if j < i - 1 {
                    assert(order0[j] != k);
                    assert(dict.map@[order0[j]] == map_before[order0[j]]);
                    assert(map0.contains_key(order0[j])) by {
                        assert(order0.contains(order0[j]));
                    }
                    assert(map_before[order0[j]].wf(&before));
                    map_before[order0[j]].lemma_apart_kept(heap, &before, old(heap));
                }
            }
        }
    }
    proof {
        assert(dict.entries().dom() =~= old(dict).entries().dom());
        assert forall|s: Symb| #[trigger] dict.entries().contains_key(s) implies dict.entries()[s].wf(
            heap,
        ) && dict.entries()[s].view(heap) == old(dict).entries()[s].view(old(heap))
            && dict.entries()[s].fresh(c0) && dict.entries()[s].apart(heap, old(heap)) by {
            assert(map0.contains_key(s.0));
            assert(dict.map@[s.0].wf(heap));
            assert(order0.contains(s.0));
            let j = choose|j: int| 0 <= j < order0.len() && order0[j] == s.0;
            assert(dict.map@[order0[j]].fresh(c0));
        }
        assert(dict.view(heap) =~= old(dict).view(old(heap)));
        assert(dict.defs(heap) =~= old(dict).defs(old(heap)));
    }
}

/// The two-way map of an outside crate, carried as an opaque value.
#[verifier::external_type_specification]
#[verifier::external_body]
#[verifier::reject_recursive_types(L)]
#[verifier::reject_recursive_types(R)]
#[verifier::reject_recursive_types(LS)]
#[verifier::reject_recursive_types(RS)]
pub struct ExBiHashMap<L, R, LS, RS>(BiHashMap<L, R, LS, RS>);

/// The two-way map from the numbers of symbols to their names.
pub type SymbolMap = BiHashMap<u32, String, RandomState, RandomState>;

/// The pairs that a two-way map holds, as a map from the left value of each
/// pair to its right value.
pub uninterp spec fn bimap_pairs(m: SymbolMap) -> Map<u32, Seq<char>>;

/// `BiHashMap::new`: a map that holds no pair.
#[verifier::external_body]
fn bimap_new() -> (made: SymbolMap)
    ensures
        bimap_pairs(made) == (Map::<u32, Seq<char>>::empty()),
{
    BiHashMap::new()
}

/// `BiHashMap::get_by_right`: the left value of the pair whose right value
/// is `right`, or nothing where no pair has that right value.
#[verifier::external_body]
fn bimap_get_by_right(m: &SymbolMap, right: &str) -> (r: Option<u32>)
    ensures
        match r {
            Some(left) => bimap_pairs(*m).contains_key(left) && bimap_pairs(*m)[left] == right@,
            None => forall|left: u32|
                bimap_pairs(*m).contains_key(left) ==> bimap_pairs(*m)[left] != right@,
        },
{
    m.get_by_right(right).copied()
}

/// `BiHashMap::get_by_left`: the right value of the pair whose left value is
/// `left`, or nothing where no pair has that left value.
#[verifier::external_body]
fn bimap_get_by_left(m: &SymbolMap, left: u32) -> (r: Option<String>)
    ensures
        match r {
            Some(right) => bimap_pairs(*m).contains_key(left) && bimap_pairs(*m)[left] == right@,
            None => !bimap_pairs(*m).contains_key(left),
        },
{
    m.get_by_left(&left).cloned()
}

/// `BiHashMap::contains_left`: whether a pair has the left value `left`.
#[verifier::external_body]
fn bimap_contains_left(m: &SymbolMap, left: u32) -> (b: bool)
    ensures
        b == bimap_pairs(*m).contains_key(left),
{
    m.contains_left(&left)
}

/// `BiHashMap::insert`: the pair with the left value `left` and every pair
/// with the right value `right` leave the map, and the pair of `left` and
/// `right` enters it.
#[verifier::external_body]
fn bimap_insert(m: &mut SymbolMap, left: u32, right: String)
    ensures
        bimap_pairs(*final(m)) == bimap_pairs(*old(m)).remove_keys(
            Set::new(
                |k: u32| bimap_pairs(*old(m)).contains_key(k) && bimap_pairs(*old(m))[k] == right@,
            ),
        ).insert(left, right@),
{
    m.insert(left, right);
}

/// `rand::thread_rng` and `Rng::gen`: a number drawn from the generator of
/// the thread.  Nothing is known of it.
#[verifier::external_body]
fn random_u32() -> u32 {
    rand::thread_rng().gen()
}

/// The number `k` places after `start`, counting round from the greatest
/// number to zero.
pub open spec fn probe(start: u32, k: nat) -> u32 {
    ((start + k) % 0x1_0000_0000) as u32
}

/// Counting round from `start` reaches every number.
pub proof fn lemma_probe_reaches(start: u32, id: u32) -> (k: nat)
    ensures
        k < 0x1_0000_0000,
        probe(start, k) == id,
{
    if id >= start {
        (id - start) as nat
    } else {
        (id + 0x1_0000_0000 - start) as nat
    }
}

/// The first number from `start` on, counting round, that names no symbol.
#[verifier::opaque]
pub open spec fn first_free(names: Map<u32, Seq<char>>, start: u32) -> Option<u32> {
    if exists|k: nat| k < 0x1_0000_0000 && !names.contains_key(probe(start, k)) {
        let k = choose|k: nat|
            k < 0x1_0000_0000 && !names.contains_key(#[trigger] probe(start, k)) && forall|
                j: nat,
            |
                j < k ==> names.contains_key(#[trigger] probe(start, j));
        Some(probe(start, k))
    } else {
        None
    }
}

/// The table of symbols: each number in use stands for one name, and each
/// name has one number.
pub struct Interner {
    map: SymbolMap,
}

impl Interner {
    /// The name of each number in use.
    pub closed spec fn names(&self) -> Map<u32, Seq<char>> {
        bimap_pairs(self.map)
    }

    /// No two numbers stand for the same name.
    pub open spec fn inv(&self) -> bool {
        forall|a: u32, b: u32|
            self.names().contains_key(a) && self.names().contains_key(b) && #[trigger] self.names()[a]
                == #[trigger] self.names()[b] ==> a == b
    }

    /// The symbol of `name`, where it has one.
    pub open spec fn symbol_of(&self, name: Seq<char>) -> Option<Symb> {
        if exists|id: u32| self.names().contains_key(id) && self.names()[id] == name {
            Some(Symb(choose|id: u32| self.names().contains_key(id) && self.names()[id] == name))
        } else {
            None
        }
    }

    /// A table without symbols.
    pub fn new() -> (t: Interner)
        ensures
            t.inv(),
            t.names() == (Map::<u32, Seq<char>>::empty()),
    {
        Interner { map: bimap_new() }
    }

    /// The symbol of `name`, made if `name` has none yet: a new symbol takes
    /// the first free number from `start` on.  Returns nothing, and changes
    /// nothing, where `name` has no symbol and every number is in use.
    pub fn intern_from(&mut self, name: &str, start: u32) -> (r: Option<Symb>)
        requires
            old(self).inv(),
        ensures
            final(self).inv(),
            match old(self).symbol_of(name@) {
                Some(s) => r == Some(s) && final(self).names() == old(self).names(),
                None => match first_free(old(self).names(), start) {
                    Some(id) => r == Some(Symb(id)) && final(self).names() == old(
                        self,
                    ).names().insert(id, name@),
                    None => r is None && final(self).names() == old(self).names(),
                },
            },
            old(self).symbol_of(name@) is None ==> match r {
                Some(s) => !old(self).names().contains_key(s.0),
                None => forall|id: u32| old(self).names().contains_key(id),
            },
    {
        reveal(first_free);
        let ghost names = self.names();
        match bimap_get_by_right(&self.map, name) {
            Some(left) => {
                proof {
                    let id = choose|id: u32| names.contains_key(id) && names[id] == name@;
                    assert(id == left);
                }
                return Some(Symb(left));
            },
            None => {},
        }
        assert(self.symbol_of(name@) is None);
        let mut id: u32 = start;
        let mut k: u64 = 0;
        while k < 0x1_0000_0000
            invariant
                k <= 0x1_0000_0000,
                k < 0x1_0000_0000 ==> id == probe(start, k as nat),
                self.names() == names,
                *self == *old(self),
                self.inv(),
                forall|q: u32| names.contains_key(q) ==> #[trigger] names[q] != name@,
                forall|j: nat| j < k ==> names.contains_key(#[trigger] probe(start, j)),
            decreases 0x1_0000_0000 - k,
        {
            if !bimap_contains_left(&self.map, id) {
                proof {
                    reveal(first_free);
                    let kk = k as nat;
                    assert(kk < 0x1_0000_0000 && !names.contains_key(probe(start, kk)));
                    assert(exists|q: nat|
                        q < 0x1_0000_0000 && !names.contains_key(probe(start, q)));
                    assert(kk < 0x1_0000_0000 && !names.contains_key(#[trigger] probe(start, kk))
                        && forall|j: nat| j < kk ==> names.contains_key(#[trigger] probe(start, j)));
                    let c = choose|c: nat|
                        c < 0x1_0000_0000 && !names.contains_key(#[trigger] probe(start, c))
                            && forall|j: nat| j < c ==> names.contains_key(#[trigger] probe(start, j));
                    assert(c == kk) by {
                        if c < kk {
                            assert(names.contains_key(probe(start, c)));
                        }
                        if kk < c {
                            assert(names.contains_key(probe(start, kk)));
                        }
                    }
                    assert(first_free(names, start) == Some(id));
                }
                bimap_insert(&mut self.map, id, name.to_owned());
                proof {
                    let gone = Set::new(|q: u32| names.contains_key(q) && names[q] == name@);
                    assert forall|q: u32| names.contains_key(q) implies !gone.contains(q) by {
                        assert(names[q] != name@);
                    }
                    assert(names.remove_keys(gone) =~= names);
                    assert(self.names() == names.insert(id, name@));
                }
                return Some(Symb(id));
            }
            k = k + 1;
            id = if id == u32::MAX {
                0
            } else {
                id + 1
            };
        }
        proof {
            assert forall|c: nat| c < 0x1_0000_0000 implies names.contains_key(
                #[trigger] probe(start, c),
            ) by {}
            assert forall|id: u32| names.contains_key(id) by {
                let c = lemma_probe_reaches(start, id);
                assert(names.contains_key(probe(start, c)));
            }
        }
        None
    }
}

impl Symb {
    /// The symbol of `right`, made with a number drawn at random if `right`
    /// has none yet.  Returns nothing, and changes nothing, where `right`
    /// has no symbol and every number is in use.
    pub fn new(interner: &mut Interner, right: &str) -> (r: Option<Symb>)
        requires
            old(interner).inv(),
        ensures
            final(interner).inv(),
            match old(interner).symbol_of(right@) {
                Some(s) => r == Some(s) && final(interner).names() == old(interner).names(),
                None => match r {
                    Some(s) => !old(interner).names().contains_key(s.0) && final(interner).names()
                        == old(interner).names().insert(s.0, right@),
                    None => final(interner).names() == old(interner).names() && forall|id: u32|
                        old(interner).names().contains_key(id),
                },
            },
    {
        let start = random_u32();
        interner.intern_from(right, start)
    }

    /// The name of the symbol.
    pub fn str(&self, interner: &Interner) -> (name: String)
        requires
            interner.names().contains_key(self.0),
        ensures
            name@ == interner.names()[self.0],
    {
        match bimap_get_by_left(&interner.map, self.0) {
            Some(right) => right,
            None => String::new(),
        }
    }

    /// The name of the symbol, where the table knows it.
    pub fn name(&self, interner: &Interner) -> (name: Option<String>)
        ensures
            match name {
                Some(s) => interner.names().contains_key(self.0) && s@ == interner.names()[self.0],
                None => !interner.names().contains_key(self.0),
            },
    {
        bimap_get_by_left(&interner.map, self.0)
    }
}

impl DictValue {
    /// The compiled term is the optimized combinator form of the parsed
    /// term, no linked term is present, and nothing is related.
    pub open spec fn compiled_from(&self, heap: &Heap, text: Seq<char>) -> bool {
        &&& self.wf(heap)
        &&& self.text@ == text
        &&& self.related@ == Seq::<Symb>::empty()
        &&& self.linked is None
        &&& heap.tree(self.compiled) == optimize_tree(compile_tree(heap.tree(self.parsed)))
    }

    /// The definition of the parsed term `parsed`, written as `text`: the
    /// term is compiled and optimized.
    pub fn from_parsed(heap: &mut Heap, text: String, parsed: TermRef) -> (v: DictValue)
        requires
            old(heap).wf(),
            old(heap).valid(parsed),
        ensures
            final(heap).wf(),
            final(heap).extends(old(heap)),
            v.compiled_from(final(heap), text@),
            v.parsed == parsed,
    {
        let compiled = compile_ski(heap, parsed);
        let compiled = optimize(heap, compiled);
        DictValue { related: Vec::new(), text, parsed, compiled, linked: None }
    }

    /// The definition that the text `input` denotes: the whole text is parsed
    /// as one term, which is compiled and optimized.  Returns nothing where
    /// the text is no term.
    pub fn new(heap: &mut Heap, interner: &mut Interner, input: String) -> (r: Option<DictValue>)
        requires
            old(heap).wf(),
            old(interner).inv(),
        ensures
            final(heap).wf(),
            final(heap).extends(old(heap)),
            final(interner).inv(),
            grown(old(interner).names(), final(interner).names()),
            r matches Some(v) ==> v.compiled_from(final(heap), input@),
            !full(final(interner).names()) ==> match whole_term(encode_utf8(input@)) {
                Some(syn) => r matches Some(v) && denotes(
                    final(interner).names(),
                    final(heap).tree(v.parsed),
                    syn,
                ),
                None => r is None,
            },
    {
        match parse_term(input.as_str(), heap, interner) {
            Some(parsed) => Some(DictValue::from_parsed(heap, input, parsed)),
            None => None,
        }
    }
}

/// The dictionary after `symb` was bound to a definition compiled from
/// `text`: a reference to `symb` now stands for the optimized combinator
/// form of the parsed term.
pub open spec fn bound(
    before: &Dict,
    after: &Dict,
    heap: &Heap,
    symb: Symb,
    text: Seq<char>,
) -> bool {
    &&& after.entries().contains_key(symb)
    &&& after.entries() == before.entries().insert(symb, after.entries()[symb])
    &&& after.entries()[symb].compiled_from(heap, text)
    &&& after.defs(heap)[symb] == optimize_tree(
        compile_tree(heap.tree(after.entries()[symb].parsed)),
    )
}

/// Defines `symb` as the term that `input` denotes.
///
/// Fails with `Exists`, and changes nothing, where `symb` has a definition;
/// fails with `Parse`, and leaves the dictionary as it was, where `input`
/// is no term.  Otherwise `symb` is the newest definition, and a
/// reference to it stands for the optimized combinator form of the term.
pub fn define(
    dict: &mut Dict,
    heap: &mut Heap,
    interner: &mut Interner,
    symb: Symb,
    input: String,
) -> (r: Result<(), DictError>)
    requires
        old(heap).wf(),
        old(interner).inv(),
        old(dict).wf(old(heap)),
    ensures
        final(heap).wf(),
        final(heap).extends(old(heap)),
        final(interner).inv(),
        grown(old(interner).names(), final(interner).names()),
        final(dict).wf(final(heap)),
        old(dict).entries().contains_key(symb) <==> r == Err::<(), DictError>(DictError::Exists),
        match r {
            Ok(_) => !old(dict).entries().contains_key(symb) && bound(
                old(dict),
                final(dict),
                final(heap),
                symb,
                input@,
            ) && final(dict).symbols() == old(dict).symbols().push(symb),
            Err(e) => final(dict).entries() == old(dict).entries() && final(dict).symbols() == old(
                dict,
            ).symbols() && (e == DictError::Exists || e == DictError::Parse) && (e
                == DictError::Exists ==> *final(heap) == *old(heap) && final(interner).names()
                == old(interner).names()),
        },
        !old(dict).entries().contains_key(symb) && !full(final(interner).names())
            ==> match whole_term(encode_utf8(input@)) {
            Some(syn) => r is Ok && denotes(
                final(interner).names(),
                final(heap).tree(final(dict).entries()[symb].parsed),
                syn,
            ),
            None => r == Err::<(), DictError>(DictError::Parse),
        },
{
    if dict.map.contains_key(&symb.0) {
        return Err(DictError::Exists);
    }
    match DictValue::new(heap, interner, input) {
        Some(value) => {
            proof {
                dict.lemma_extends(old(heap), heap);
            }
            dict.bind(symb, value);
            proof {
                assert forall|s: Symb| #[trigger] dict.entries().contains_key(s) implies dict.entries()[s].wf(
                heap) by {
                    if s != symb {
                        assert(old(dict).entries().contains_key(s));
                    }
                }
                assert(dict.entries() =~= old(dict).entries().insert(symb, dict.entries()[symb]));
            }
            Ok(())
        },
        None => {
            proof {
                dict.lemma_extends(old(heap), heap);
            }
            Err(DictError::Parse)
        },
    }
}

/// Defines `symb` anew as the term that `input` denotes.
///
/// Fails with `Missing`, and changes nothing, where `symb` has no
/// definition; fails with `Parse`, and leaves the dictionary as it was,
/// where `input` is no term.  Otherwise the new definition takes
/// the place of the old one.
pub fn update(
    dict: &mut Dict,
    heap: &mut Heap,
    interner: &mut Interner,
    symb: Symb,
    input: String,
) -> (r: Result<(), DictError>)
    requires
        old(heap).wf(),
        old(interner).inv(),
        old(dict).wf(old(heap)),
    ensures
        final(heap).wf(),
        final(heap).extends(old(heap)),
        final(interner).inv(),
        grown(old(interner).names(), final(interner).names()),
        final(dict).wf(final(heap)),
        final(dict).symbols() == old(dict).symbols(),
        !old(dict).entries().contains_key(symb) <==> r == Err::<(), DictError>(DictError::Missing),
        match r {
            Ok(_) => old(dict).entries().contains_key(symb) && bound(
                old(dict),
                final(dict),
                final(heap),
                symb,
                input@,
            ),
            Err(e) => final(dict).entries() == old(dict).entries() && (e == DictError::Missing || e
                == DictError::Parse) && (e == DictError::Missing ==> *final(heap) == *old(heap)
                && final(interner).names() == old(interner).names()),
        },
        old(dict).entries().contains_key(symb) && !full(final(interner).names())
            ==> match whole_term(encode_utf8(input@)) {
            Some(syn) => r is Ok && denotes(
                final(interner).names(),
                final(heap).tree(final(dict).entries()[symb].parsed),
                syn,
            ),
            None => r == Err::<(), DictError>(DictError::Parse),
        },
{
    if !dict.map.contains_key(&symb.0) {
        return Err(DictError::Missing);
    }
    match DictValue::new(heap, interner, input) {
        Some(value) => {
            proof {
                dict.lemma_extends(old(heap), heap);
            }
            dict.bind(symb, value);
            proof {
                assert forall|s: Symb| #[trigger] dict.entries().contains_key(s) implies dict.entries()[s].wf(
                heap) by {
                    if s != symb {
                        assert(old(dict).entries().contains_key(s));
                    }
                }
                assert(dict.entries() =~= old(dict).entries().insert(symb, dict.entries()[symb]));
            }
            Ok(())
        },
        None => {
            proof {
                dict.lemma_extends(old(heap), heap);
            }
            Err(DictError::Parse)
        },
    }
}

/// The defined symbols in the order of their definition: what a listing of
/// the dictionary shows, line by line.
pub fn show_dict(dict: &Dict) -> (v: Vec<Symb>)
    ensures
        v@ == dict.symbols(),
{
    dict.defined()
}

} // verus!
