//! The term model: nodes, handles, and the tree a handle denotes.

use vstd::prelude::*;
use crate::symbol::Symb;
use crate::heap::{Heap, term_alloc};

verus! {

/// A term without payload.  Each has one canonical instance, which a handle
/// names directly; none is ever stored on a page.
#[derive(Clone, Copy, PartialEq, Eq, Structural, Debug, Hash)]
pub enum Constant {
    E1, E2, E3, E4,
    I, K, S, B, C, Sp, Bs, Cp,
    AddI, SubI, MulI, DivI,
    GrtI, LssI, EqlI,
    Not, And, Or, Ifte,
    Alloc, Free, Load, Save,
}

/// A handle to a term: either a constant, or a slot of a page.  Handles are
/// freely copied and own nothing.
#[derive(Clone, Copy, PartialEq, Eq, Structural, Debug, Hash)]
pub enum TermRef {
    Static(Constant),
    Slot { page: usize, index: usize },
}

/// A term node.  The children of `App` and `Lam` are handles.  `DReal` holds
/// the bit pattern of a 64-bit float; `Array` holds a length and a base slot.
#[derive(Clone, Copy, PartialEq, Eq, Structural, Debug, Hash)]
pub enum Term {
    App(TermRef, TermRef),
    Lam(Symb, TermRef),
    Var(Symb),
    DBool(bool),
    DChar(char),
    DInt(i64),
    DReal(u64),
    E1, E2, E3, E4, E(u8),
    I, K, S, B, C, Sp, Bs, Cp,
    AddI, SubI, MulI, DivI,
    GrtI, LssI, EqlI,
    Not, And, Or, Ifte,
    Array(usize, usize),
    Alloc, Free, Load, Save,
}

/// What a handle denotes: the term with every child handle followed.
pub enum Tree {
    App(Box<Tree>, Box<Tree>),
    Lam(Symb, Box<Tree>),
    Leaf(Term),
}

pub open spec fn t_app(f: Tree, a: Tree) -> Tree {
    Tree::App(Box::new(f), Box::new(a))
}

pub open spec fn t_lam(x: Symb, body: Tree) -> Tree {
    Tree::Lam(x, Box::new(body))
}

pub open spec fn t_const(k: Constant) -> Tree {
    Tree::Leaf(k.term())
}

impl Constant {
    /// The node that this constant stands for.
    pub open spec fn term(self) -> Term {
        match self {
            Constant::E1 => Term::E1,
            Constant::E2 => Term::E2,
            Constant::E3 => Term::E3,
            Constant::E4 => Term::E4,
            Constant::I => Term::I,
            Constant::K => Term::K,
            Constant::S => Term::S,
            Constant::B => Term::B,
            Constant::C => Term::C,
            Constant::Sp => Term::Sp,
            Constant::Bs => Term::Bs,
            Constant::Cp => Term::Cp,
            Constant::AddI => Term::AddI,
            Constant::SubI => Term::SubI,
            Constant::MulI => Term::MulI,
            Constant::DivI => Term::DivI,
            Constant::GrtI => Term::GrtI,
            Constant::LssI => Term::LssI,
            Constant::EqlI => Term::EqlI,
            Constant::Not => Term::Not,
            Constant::And => Term::And,
            Constant::Or => Term::Or,
            Constant::Ifte => Term::Ifte,
            Constant::Alloc => Term::Alloc,
            Constant::Free => Term::Free,
            Constant::Load => Term::Load,
            Constant::Save => Term::Save,
        }
    }

    pub fn to_term(self) -> (t: Term)
        ensures
            t == self.term(),
    {
        match self {
            Constant::E1 => Term::E1,
            Constant::E2 => Term::E2,
            Constant::E3 => Term::E3,
            Constant::E4 => Term::E4,
            Constant::I => Term::I,
            Constant::K => Term::K,
            Constant::S => Term::S,
            Constant::B => Term::B,
            Constant::C => Term::C,
            Constant::Sp => Term::Sp,
            Constant::Bs => Term::Bs,
            Constant::Cp => Term::Cp,
            Constant::AddI => Term::AddI,
            Constant::SubI => Term::SubI,
            Constant::MulI => Term::MulI,
            Constant::DivI => Term::DivI,
            Constant::GrtI => Term::GrtI,
            Constant::LssI => Term::LssI,
            Constant::EqlI => Term::EqlI,
            Constant::Not => Term::Not,
            Constant::And => Term::And,
            Constant::Or => Term::Or,
            Constant::Ifte => Term::Ifte,
            Constant::Alloc => Term::Alloc,
            Constant::Free => Term::Free,
            Constant::Load => Term::Load,
            Constant::Save => Term::Save,
        }
    }
}

impl Term {
    /// The canonical instance of a node without payload, where it has one.
    /// An eager marker `E(n)` with `n` from 1 to 4 is the constant `E1`..`E4`.
    pub open spec fn constant(self) -> Option<Constant> {
        match self {
            Term::App(_, _) | Term::Lam(_, _) | Term::Var(_) => None,
            Term::DBool(_) | Term::DChar(_) | Term::DInt(_) | Term::DReal(_) => None,
            Term::Array(_, _) => None,
            Term::E(n) => if n == 1 {
                Some(Constant::E1)
            } else if n == 2 {
                Some(Constant::E2)
            } else if n == 3 {
                Some(Constant::E3)
            } else if n == 4 {
                Some(Constant::E4)
            } else {
                None
            },
            Term::E1 => Some(Constant::E1),
            Term::E2 => Some(Constant::E2),
            Term::E3 => Some(Constant::E3),
            Term::E4 => Some(Constant::E4),
            Term::I => Some(Constant::I),
            Term::K => Some(Constant::K),
            Term::S => Some(Constant::S),
            Term::B => Some(Constant::B),
            Term::C => Some(Constant::C),
            Term::Sp => Some(Constant::Sp),
            Term::Bs => Some(Constant::Bs),
            Term::Cp => Some(Constant::Cp),
            Term::AddI => Some(Constant::AddI),
            Term::SubI => Some(Constant::SubI),
            Term::MulI => Some(Constant::MulI),
            Term::DivI => Some(Constant::DivI),
            Term::GrtI => Some(Constant::GrtI),
            Term::LssI => Some(Constant::LssI),
            Term::EqlI => Some(Constant::EqlI),
            Term::Not => Some(Constant::Not),
            Term::And => Some(Constant::And),
            Term::Or => Some(Constant::Or),
            Term::Ifte => Some(Constant::Ifte),
            Term::Alloc => Some(Constant::Alloc),
            Term::Free => Some(Constant::Free),
            Term::Load => Some(Constant::Load),
            Term::Save => Some(Constant::Save),
        }
    }

    pub fn as_constant(self) -> (k: Option<Constant>)
        ensures
            k == self.constant(),
    {
        match self {
            Term::App(_, _) | Term::Lam(_, _) | Term::Var(_) => None,
            Term::DBool(_) | Term::DChar(_) | Term::DInt(_) | Term::DReal(_) => None,
            Term::Array(_, _) => None,
            Term::E(n) => if n == 1 {
                Some(Constant::E1)
            } else if n == 2 {
                Some(Constant::E2)
            } else if n == 3 {
                Some(Constant::E3)
            } else if n == 4 {
                Some(Constant::E4)
            } else {
                None
            },
            Term::E1 => Some(Constant::E1),
            Term::E2 => Some(Constant::E2),
            Term::E3 => Some(Constant::E3),
            Term::E4 => Some(Constant::E4),
            Term::I => Some(Constant::I),
            Term::K => Some(Constant::K),
            Term::S => Some(Constant::S),
            Term::B => Some(Constant::B),
            Term::C => Some(Constant::C),
            Term::Sp => Some(Constant::Sp),
            Term::Bs => Some(Constant::Bs),
            Term::Cp => Some(Constant::Cp),
            Term::AddI => Some(Constant::AddI),
            Term::SubI => Some(Constant::SubI),
            Term::MulI => Some(Constant::MulI),
            Term::DivI => Some(Constant::DivI),
            Term::GrtI => Some(Constant::GrtI),
            Term::LssI => Some(Constant::LssI),
            Term::EqlI => Some(Constant::EqlI),
            Term::Not => Some(Constant::Not),
            Term::And => Some(Constant::And),
            Term::Or => Some(Constant::Or),
            Term::Ifte => Some(Constant::Ifte),
            Term::Alloc => Some(Constant::Alloc),
            Term::Free => Some(Constant::Free),
            Term::Load => Some(Constant::Load),
            Term::Save => Some(Constant::Save),
        }
    }

    /// The node as it is stored or named: the constant's own node where the
    /// node has a constant, the node itself otherwise.
    pub open spec fn canonical(self) -> Term {
        match self.constant() {
            Some(k) => k.term(),
            None => self,
        }
    }

    /// A literal value: a boolean, a character, an integer or a real.
    pub open spec fn is_literal(self) -> bool {
        self is DBool || self is DChar || self is DInt || self is DReal
    }

    /// The number of arguments an eager marker forces, for a marker.
    pub open spec fn eager_index(self) -> Option<u8> {
        match self {
            Term::E1 => Some(1u8),
            Term::E2 => Some(2u8),
            Term::E3 => Some(3u8),
            Term::E4 => Some(4u8),
            Term::E(n) => Some(n),
            _ => None,
        }
    }
}

impl TermRef {
    /// The handle of slot `index` of page `page`.
    pub fn new(page: usize, index: usize) -> (r: TermRef)
        ensures
            r == (TermRef::Slot { page, index }),
    {
        TermRef::Slot { page, index }
    }
}

impl Tree {
    /// The number of nodes of the tree.
    pub open spec fn size(self) -> nat
        decreases self,
    {
        match self {
            Tree::App(f, a) => 1 + f.size() + a.size(),
            Tree::Lam(_, b) => 1 + b.size(),
            Tree::Leaf(_) => 1,
        }
    }

    /// The number of abstractions in the tree.
    pub open spec fn lam_count(self) -> nat
        decreases self,
    {
        match self {
            Tree::App(f, a) => f.lam_count() + a.lam_count(),
            Tree::Lam(_, b) => 1 + b.lam_count(),
            Tree::Leaf(_) => 0,
        }
    }
}

/// Allocates the application of `f` to `a`.
pub fn app(heap: &mut Heap, f: TermRef, a: TermRef) -> (r: TermRef)
    requires
        old(heap).wf(),
        old(heap).valid(f),
        old(heap).valid(a),
    ensures
        final(heap).wf(),
        final(heap).allocated(old(heap), Term::App(f, a), r),
{
    term_alloc(heap, Term::App(f, a))
}

/// Allocates the abstraction of `x` over `body`.
pub fn lam(heap: &mut Heap, x: Symb, body: TermRef) -> (r: TermRef)
    requires
        old(heap).wf(),
        old(heap).valid(body),
    ensures
        final(heap).wf(),
        final(heap).allocated(old(heap), Term::Lam(x, body), r),
{
    term_alloc(heap, Term::Lam(x, body))
}

/// Allocates a reference to the definition of `x`.
pub fn var(heap: &mut Heap, x: Symb) -> (r: TermRef)
    requires
        old(heap).wf(),
    ensures
        final(heap).wf(),
        final(heap).allocated(old(heap), Term::Var(x), r),
{
    term_alloc(heap, Term::Var(x))
}

/// Allocates an integer literal.
pub fn dint(heap: &mut Heap, i: i64) -> (r: TermRef)
    requires
        old(heap).wf(),
    ensures
        final(heap).wf(),
        final(heap).allocated(old(heap), Term::DInt(i), r),
{
    term_alloc(heap, Term::DInt(i))
}

/// Allocates a boolean literal.
pub fn dbool(heap: &mut Heap, b: bool) -> (r: TermRef)
    requires
        old(heap).wf(),
    ensures
        final(heap).wf(),
        final(heap).allocated(old(heap), Term::DBool(b), r),
{
    term_alloc(heap, Term::DBool(b))
}

/// Allocates a character literal.
pub fn dchar(heap: &mut Heap, c: char) -> (r: TermRef)
    requires
        old(heap).wf(),
    ensures
        final(heap).wf(),
        final(heap).allocated(old(heap), Term::DChar(c), r),
{
    term_alloc(heap, Term::DChar(c))
}

/// Allocates a real literal, given by the bits of a 64-bit float.
pub fn dreal(heap: &mut Heap, bits: u64) -> (r: TermRef)
    requires
        old(heap).wf(),
    ensures
        final(heap).wf(),
        final(heap).allocated(old(heap), Term::DReal(bits), r),
{
    term_alloc(heap, Term::DReal(bits))
}

/// The eager marker that forces `n` arguments: one of the constants `E1` to
/// `E4` for `n` from 1 to 4, else a newly allocated `E(n)`.
pub fn eager(heap: &mut Heap, n: u8) -> (r: TermRef)
    requires
        old(heap).wf(),
    ensures
        final(heap).wf(),
        final(heap).allocated(old(heap), Term::E(n), r),
{
    term_alloc(heap, Term::E(n))
}

/// Copies the term under a handle onto the current page.
///
/// Applications and abstractions are built anew, children first, and every
/// other node goes through `term_alloc` again: variables, literals, arrays
/// and eager markers above four take a new slot, and a constant is returned
/// as it is, with the store unchanged.  The copy denotes the
/// tree of `term`.  It shares no slot with the terms that the store held
/// before: every slot that it reaches was not in use, and the copy lies on
/// the page that was current or on a page made since.  The store has grown
/// by allocation alone.
pub fn term_copy(heap: &mut Heap, term: TermRef) -> (r: TermRef)
    requires
        old(heap).wf(),
        old(heap).valid(term),
    ensures
        final(heap).wf(),
        final(heap).extends(old(heap)),
        final(heap).valid(r),
        final(heap).tree(r) == old(heap).tree(term),
        final(heap).node(r) is App <==> old(heap).node(term) is App,
        final(heap).node(r) is Lam <==> old(heap).node(term) is Lam,
        !(final(heap).node(r) is App || final(heap).node(r) is Lam) ==> final(heap).node(r)
            == old(heap).node(term),
        term is Static ==> r == term && *final(heap) == *old(heap),
        term is Slot ==> r is Slot && !old(heap).valid(r),
        r.fresh(old(heap).current_page()),
        final(heap).apart(old(heap), r),
        final(heap).grows_from(old(heap)),
    decreases old(heap).tree(term).size(),
{
    match heap.get(term) {
        Term::App(t1, t2) => {
            let new_t1 = term_copy(heap, t1);
            let ghost h1 = *heap;
            let new_t2 = term_copy(heap, t2);
            let ghost h2 = *heap;
            let r = app(heap, new_t1, new_t2);
            proof {
                h2.lemma_grows_chain(&h1, old(heap));
                heap.lemma_allocated_grows(&h2, old(heap), Term::App(new_t1, new_t2), r);
                h2.lemma_apart_kept(&h1, old(heap), new_t1);
                h2.lemma_apart_older(&h1, old(heap), new_t2);
                heap.lemma_apart_kept(&h2, old(heap), new_t1);
                heap.lemma_apart_kept(&h2, old(heap), new_t2);
                assert(!h2.valid(r));
                assert(heap.unfolds(r));
            }
            r
        },
        Term::Lam(x, t) => {
            let new_t = term_copy(heap, t);
            let ghost h1 = *heap;
            let r = lam(heap, x, new_t);
            proof {
                heap.lemma_allocated_grows(&h1, old(heap), Term::Lam(x, new_t), r);
                heap.lemma_apart_kept(&h1, old(heap), new_t);
                assert(!h1.valid(r));
                assert(heap.unfolds(r));
            }
            r
        },
        node => {
            let r = term_alloc(heap, node);
            proof {
                old(heap).lemma_grows_self();
                heap.lemma_allocated_grows(old(heap), old(heap), node, r);
            }
            r
        },
    }
}

/// Whether two handles denote the same tree: the same handle, or nodes of
/// the same kind whose payloads and children are equal in turn.
pub fn term_eq(heap: &Heap, a: TermRef, b: TermRef) -> (same: bool)
    requires
        heap.wf(),
        heap.valid(a),
        heap.valid(b),
    ensures
        same == (heap.tree(a) == heap.tree(b)),
    decreases heap.tree(a).size(),
{
    if a == b {
        return true;
    }
    let x = heap.get(a);
    let y = heap.get(b);
    match x {
        Term::App(f, s) => match y {
            Term::App(g, t) => term_eq(heap, f, g) && term_eq(heap, s, t),
            _ => false,
        },
        Term::Lam(v, s) => match y {
            Term::Lam(w, t) => v == w && term_eq(heap, s, t),
            _ => false,
        },
        _ => match y {
            Term::App(_, _) => false,
            Term::Lam(_, _) => false,
            _ => x == y,
        },
    }
}

/// A tree as a spine: its head, then its arguments from the first to the
/// last.
pub open spec fn spine_of(t: Tree) -> Seq<Tree>
    decreases t,
{
    match t {
        Tree::App(f, a) => spine_of(*f).push(*a),
        _ => seq![t],
    }
}

/// The tree under a row of abstractions, and the symbols that the row
/// binds, from the outermost to the innermost.
pub open spec fn binders_of(t: Tree) -> (Seq<Symb>, Tree)
    decreases t,
{
    match t {
        Tree::Lam(x, b) => (seq![x] + binders_of(*b).0, binders_of(*b).1),
        _ => (Seq::empty(), t),
    }
}

/// The trees of a row of handles.
pub open spec fn trees_of(heap: &Heap, s: Seq<TermRef>) -> Seq<Tree> {
    s.map_values(|r: TermRef| heap.tree(r))
}

/// The head of the term under `term` and its arguments, from the first to
/// the last: what a listing of an application shows, word by word.
pub fn spine(heap: &Heap, term: TermRef) -> (v: Vec<TermRef>)
    requires
        heap.wf(),
        heap.valid(term),
    ensures
        forall|i: int| 0 <= i < v.len() ==> heap.valid(#[trigger] v[i]),
        trees_of(heap, v@) == spine_of(heap.tree(term)),
        v.len() >= 1,
        !(heap.node(v[0]) is App),
{
    let mut rev: Vec<TermRef> = Vec::new();
    let mut cur = term;
    let ghost whole = heap.tree(term);
    loop
        invariant
            heap.wf(),
            heap.valid(cur),
            whole == heap.tree(term),
            forall|i: int| 0 <= i < rev.len() ==> heap.valid(#[trigger] rev[i]),
            spine_of(whole) == spine_of(heap.tree(cur)) + trees_of(heap, rev@).reverse(),
        ensures
            heap.valid(cur),
            !(heap.node(cur) is App),
            forall|i: int| 0 <= i < rev.len() ==> heap.valid(#[trigger] rev[i]),
            spine_of(whole) == seq![heap.tree(cur)] + trees_of(heap, rev@).reverse(),
        decreases heap.tree(cur).size(),
    {
        match heap.get(cur) {
            Term::App(f, a) => {
                let ghost before = rev@;
                rev.push(a);
                proof {
                    assert(trees_of(heap, rev@).reverse() =~= seq![heap.tree(a)] + trees_of(
                        heap,
                        before,
                    ).reverse());
                    assert(spine_of(heap.tree(cur)) == spine_of(heap.tree(f)).push(heap.tree(a)));
                    assert(spine_of(heap.tree(f)).push(heap.tree(a)) + trees_of(
                        heap,
                        before,
                    ).reverse() =~= spine_of(heap.tree(f)) + (seq![heap.tree(a)] + trees_of(
                        heap,
                        before,
                    ).reverse()));
                }
                cur = f;
            },
            _ => {
                break ;
            },
        }
    }
    let mut v: Vec<TermRef> = Vec::new();
    v.push(cur);
    let n = rev.len();
    let mut i: usize = n;
    while i > 0
        invariant
            i <= n,
            n == rev.len(),
            v.len() == 1 + (n - i),
            v[0] == cur,
            forall|k: int| 0 <= k < rev.len() ==> heap.valid(#[trigger] rev[k]),
            forall|k: int| 0 <= k < v.len() ==> heap.valid(#[trigger] v[k]),
            forall|k: int| 1 <= k < v.len() ==> v[k] == rev[n - k],
        decreases i,
    {
        i = i - 1;
        v.push(rev[i]);
    }
    proof {
        assert(trees_of(heap, v@) =~= seq![heap.tree(cur)] + trees_of(heap, rev@).reverse());
    }
    v
}

/// The symbols that the row of abstractions at `term` binds, from the
/// outermost to the innermost, and the term under the row: what a listing
/// of an abstraction shows before and after its dot.
pub fn binders(heap: &Heap, term: TermRef) -> (r: (Vec<Symb>, TermRef))
    requires
        heap.wf(),
        heap.valid(term),
    ensures
        heap.valid(r.1),
        r.0@ == binders_of(heap.tree(term)).0,
        heap.tree(r.1) == binders_of(heap.tree(term)).1,
        !(heap.node(r.1) is Lam),
{
    let mut names: Vec<Symb> = Vec::new();
    let mut cur = term;
    let ghost whole = heap.tree(term);
    loop
        invariant
            heap.wf(),
            heap.valid(cur),
            whole == heap.tree(term),
            binders_of(whole).0 == names@ + binders_of(heap.tree(cur)).0,
            binders_of(whole).1 == binders_of(heap.tree(cur)).1,
        ensures
            heap.valid(cur),
            !(heap.node(cur) is Lam),
            binders_of(whole).0 == names@,
            binders_of(whole).1 == heap.tree(cur),
        decreases heap.tree(cur).size(),
    {
        match heap.get(cur) {
            Term::Lam(x, b) => {
                let ghost before = names@;
                names.push(x);
                proof {
                    assert(before + (seq![x] + binders_of(heap.tree(b)).0) =~= names@
                        + binders_of(heap.tree(b)).0);
                }
                cur = b;
            },
            _ => {
                proof {
                    assert(names@ + Seq::<Symb>::empty() =~= names@);
                }
                break ;
            },
        }
    }
    (names, cur)
}

} // verus!
