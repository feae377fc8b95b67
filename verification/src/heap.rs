//! Bump pages, the page table, and the pool of retired pages.

use vstd::prelude::*;
use crate::term::{Constant, Term, TermRef, Tree, t_app, t_const, t_lam};
use crate::eval::{Task, run_view, task_copy};
use crate::symbol::{Dict, dict_copy};
use crate::task::{TaskPool, drain_task, send_task};

verus! {

/// The number of slots of an ordinary page.
pub const PAGE_SIZE: usize = 65536;

/// The number of retired pages at which a collection is requested.
pub const WATERMARK: usize = 32;

/// One slot of a page: the node, and the tree that it denotes.
pub struct Cell {
    node: Term,
    tree: Ghost<Tree>,
}

/// A bump page: slots filled in order, up to `size` of them.
pub struct Page {
    slots: Vec<Cell>,
    size: usize,
}

impl Page {
    /// The capacity the page was made with.
    pub closed spec fn size(&self) -> nat {
        self.size as nat
    }

    /// The number of slots in use.
    pub closed spec fn index(&self) -> nat {
        self.slots.len() as nat
    }

    /// An empty page of `size` slots.  A page of no slots is the sentinel
    /// left behind by a worker that has nothing more to allocate.
    pub fn new(size: usize) -> (p: Page)
        ensures
            p.size() == size,
            p.index() == 0,
    {
        Page { slots: Vec::with_capacity(size), size }
    }
}

/// The store of terms: the table of all pages, the page that allocation
/// fills, the pool of retired pages, and the flag that workers poll.
pub struct Heap {
    pages: Vec<Page>,
    current: usize,
    dump: Vec<usize>,
    running: bool,
}

impl Heap {
    /// Slot `index` of page `page` is in use.
    pub closed spec fn in_use(&self, page: usize, index: usize) -> bool {
        page < self.pages.len() && index < self.pages[page as int].slots.len()
    }

    /// The node in a slot.
    pub closed spec fn slot_node(&self, page: usize, index: usize) -> Term {
        self.pages[page as int].slots[index as int].node
    }

    /// The tree that the node in a slot denotes.
    pub closed spec fn slot_tree(&self, page: usize, index: usize) -> Tree {
        self.pages[page as int].slots[index as int].tree@
    }

    /// The handle names a constant or a slot in use.
    pub open spec fn valid(&self, r: TermRef) -> bool {
        match r {
            TermRef::Static(_) => true,
            TermRef::Slot { page, index } => self.in_use(page, index),
        }
    }

    /// The node that a handle names.
    pub open spec fn node(&self, r: TermRef) -> Term {
        match r {
            TermRef::Static(k) => k.term(),
            TermRef::Slot { page, index } => self.slot_node(page, index),
        }
    }

    /// The tree that a handle denotes.
    pub open spec fn tree(&self, r: TermRef) -> Tree {
        match r {
            TermRef::Static(k) => t_const(k),
            TermRef::Slot { page, index } => self.slot_tree(page, index),
        }
    }

    /// The number of pages made so far, released ones included.
    pub closed spec fn page_count(&self) -> nat {
        self.pages.len() as nat
    }

    /// The page that allocation fills.
    pub closed spec fn current_page(&self) -> nat {
        self.current as nat
    }

    /// The current page has no free slot.
    pub closed spec fn page_full(&self) -> bool {
        self.pages[self.current as int].slots.len() >= self.pages[self.current as int].size
    }

    /// The retired pages, oldest first.
    pub closed spec fn dumped(&self) -> Seq<usize> {
        self.dump@
    }

    /// The flag that workers poll: cleared to request a collection.
    pub closed spec fn running(&self) -> bool {
        self.running
    }

    /// The tree of a handle is the tree of its node: children are valid
    /// handles, and only payload nodes live in slots.
    pub open spec fn unfolds(&self, r: TermRef) -> bool {
        &&& match self.node(r) {
            Term::App(f, a) => self.valid(f) && self.valid(a) && self.tree(r) == t_app(
                self.tree(f),
                self.tree(a),
            ),
            Term::Lam(x, b) => self.valid(b) && self.tree(r) == t_lam(x, self.tree(b)),
            t => self.tree(r) == Tree::Leaf(t),
        }
        &&& r is Slot ==> self.node(r).constant() is None
        &&& r matches TermRef::Static(k) ==> self.node(r) == k.term()
    }

    /// The invariant of the store.
    pub closed spec fn wf(&self) -> bool {
        &&& self.current < self.pages.len()
        &&& forall|p: int|
            0 <= p < self.pages.len() ==> (#[trigger] self.pages[p]).slots.len()
                <= self.pages[p].size
        &&& forall|i: int| 0 <= i < self.dump.len() ==> #[trigger] self.dump[i] < self.pages.len()
        &&& forall|r: TermRef| #[trigger] self.valid(r) ==> self.unfolds(r)
    }

    /// Every handle of `old` names the same node and denotes the same tree
    /// here.
    pub open spec fn preserves(&self, old: &Heap) -> bool {
        forall|r: TermRef| #[trigger]
            old.valid(r) ==> self.valid(r) && self.node(r) == old.node(r) && self.tree(r)
                == old.tree(r)
    }

    /// Every handle of `old` keeps its meaning here, no page was taken away,
    /// the pool of retired pages has only grown, and the flag was not set.
    pub open spec fn extends(&self, old: &Heap) -> bool {
        &&& self.preserves(old)
        &&& old.page_count() <= self.page_count()
        &&& old.current_page() <= self.current_page()
        &&& old.dumped().is_prefix_of(self.dumped())
        &&& self.running() ==> old.running()
    }

    /// The tree that a node denotes, given the trees of its children.
    pub open spec fn tree_of(&self, t: Term) -> Tree {
        match t {
            Term::App(f, a) => t_app(self.tree(f), self.tree(a)),
            Term::Lam(x, b) => t_lam(x, self.tree(b)),
            t => Tree::Leaf(t.canonical()),
        }
    }

    /// The children of a node are valid handles.
    pub open spec fn accepts(&self, t: Term) -> bool {
        match t {
            Term::App(f, a) => self.valid(f) && self.valid(a),
            Term::Lam(_, b) => self.valid(b),
            _ => true,
        }
    }

    /// The number of free slots of the current page.
    pub closed spec fn current_free(&self) -> nat {
        (self.pages[self.current as int].size - self.pages[self.current as int].slots.len()) as nat
    }

    /// Every node on a page numbered `lo` or higher has children that are
    /// constants or lie on such pages themselves.
    pub closed spec fn closed_from(&self, lo: nat) -> bool {
        forall|r: TermRef| #[trigger]
            self.valid(r) && r.fresh(lo) ==> match self.node(r) {
                Term::App(f, a) => f.fresh(lo) && a.fresh(lo),
                Term::Lam(_, b) => b.fresh(lo),
                _ => true,
            }
    }

    /// `self` is `old` after its current page was retired to the pool and an
    /// empty page of `size` slots took its place.  No handle is gained or lost.
    pub open spec fn turned_from(&self, old: &Heap, size: nat) -> bool {
        &&& self.extends(old)
        &&& forall|r: TermRef| #[trigger] self.valid(r) ==> old.valid(r)
        &&& self.page_count() == old.page_count() + 1
        &&& self.current_page() == old.page_count()
        &&& self.current_free() == size
        &&& self.dumped() == old.dumped().push(old.current_page() as usize)
        &&& forall|lo: nat| old.closed_from(lo) ==> #[trigger] self.closed_from(lo)
    }

    /// `self` is `old` with one more slot in use: `r`, on the current page.
    pub open spec fn gained(&self, old: &Heap, r: TermRef) -> bool {
        &&& self.extends(old)
        &&& !old.valid(r)
        &&& forall|q: TermRef| #[trigger] self.valid(q) ==> old.valid(q) || q == r
        &&& r matches TermRef::Slot { page, .. } && page == self.current_page()
    }

    /// The pages, their contents and the current page are those of `other`.
    pub open spec fn same_store(&self, other: &Heap) -> bool {
        &&& self.preserves(other)
        &&& forall|r: TermRef| #[trigger] self.valid(r) <==> other.valid(r)
        &&& forall|r: TermRef| #[trigger]
            self.valid(r) ==> self.node(r) == other.node(r) && self.tree(r) == other.tree(r)
        &&& self.page_count() == other.page_count()
        &&& self.current_page() == other.current_page()
        &&& self.current_free() == other.current_free()
        &&& forall|lo: nat| #[trigger] self.closed_from(lo) == other.closed_from(lo)
    }

    /// Two stores with the same pages and current page are the same store.
    proof fn lemma_same_pages(&self, other: &Heap)
        requires
            self.pages == other.pages,
            self.current == other.current,
        ensures
            self.same_store(other),
    {
        assert forall|r: TermRef| #[trigger] self.valid(r) <==> other.valid(r) by {}
        assert forall|r: TermRef| #[trigger] other.valid(r) implies self.valid(r) && self.node(r)
            == other.node(r) && self.tree(r) == other.tree(r) by {}
        assert forall|lo: nat| #[trigger] self.closed_from(lo) == other.closed_from(lo) by {
            if self.closed_from(lo) {
                assert forall|r: TermRef| #[trigger] other.valid(r) && r.fresh(lo) implies (
                match other.node(r) {
                    Term::App(f, a) => f.fresh(lo) && a.fresh(lo),
                    Term::Lam(_, b) => b.fresh(lo),
                    _ => true,
                }) by {
                    assert(self.valid(r));
                }
            }
            if other.closed_from(lo) {
                assert forall|r: TermRef| #[trigger] self.valid(r) && r.fresh(lo) implies (
                match self.node(r) {
                    Term::App(f, a) => f.fresh(lo) && a.fresh(lo),
                    Term::Lam(_, b) => b.fresh(lo),
                    _ => true,
                }) by {
                    assert(other.valid(r));
                }
            }
        }
    }

    /// `self` is `old` after `term` was put in the store, with `r` its handle.
    ///
    /// A node without payload leaves the store unchanged and `r` names its
    /// constant.  Any other node takes one slot of the current page, after a
    /// turn of the page where the current page of `old` was full.
    pub open spec fn allocated(&self, old: &Heap, term: Term, r: TermRef) -> bool {
        &&& self.extends(old)
        &&& self.valid(r)
        &&& self.node(r) == term.canonical()
        &&& self.tree(r) == old.tree_of(term)
        &&& match term.constant() {
            Some(k) => r == TermRef::Static(k) && *self == *old,
            None => {
                &&& self.gained(old, r)
                &&& if old.page_full() {
                    &&& self.page_count() == old.page_count() + 1
                    &&& self.current_page() == old.page_count()
                    &&& self.current_free() == PAGE_SIZE - 1
                    &&& self.dumped() == old.dumped().push(old.current_page() as usize)
                    &&& self.running() == (old.running() && self.dumped().len() < WATERMARK)
                } else {
                    &&& self.page_count() == old.page_count()
                    &&& self.current_page() == old.current_page()
                    &&& self.current_free() == old.current_free() - 1
                    &&& self.dumped() == old.dumped()
                    &&& self.running() == old.running()
                }
            },
        }
        &&& forall|lo: nat|
            old.closed_from(lo) && lo <= old.current_page() && term.children_fresh(lo)
                ==> #[trigger] self.closed_from(lo)
    }

    /// Every slot that the term under `r` reaches, `r` itself included, is a
    /// slot that `old` does not have in use: the term shares nothing with
    /// the terms of `old` but constants.
    pub open spec fn apart(&self, old: &Heap, r: TermRef) -> bool
        decreases self.tree(r).size(),
        when self.wf() && self.valid(r)
    {
        match r {
            TermRef::Static(_) => true,
            TermRef::Slot { .. } => !old.valid(r) && match self.node(r) {
                Term::App(f, a) => {
                    proof {
                        assert(self.unfolds(r));
                    }
                    self.apart(old, f) && self.apart(old, a)
                },
                Term::Lam(_, b) => {
                    proof {
                        assert(self.unfolds(r));
                    }
                    self.apart(old, b)
                },
                _ => true,
            },
        }
    }

    /// A term that shares nothing with `old` still shares nothing with it in
    /// a store that keeps the meaning of every handle.
    pub proof fn lemma_apart_kept(&self, before: &Heap, old: &Heap, r: TermRef)
        requires
            before.wf(),
            self.wf(),
            self.preserves(before),
            before.valid(r),
            before.apart(old, r),
        ensures
            self.apart(old, r),
        decreases before.tree(r).size(),
    {
        assert(before.unfolds(r));
        assert(self.valid(r));
        if r is Slot {
            match before.node(r) {
                Term::App(f, a) => {
                    self.lemma_apart_kept(before, old, f);
                    self.lemma_apart_kept(before, old, a);
                },
                Term::Lam(_, b) => {
                    self.lemma_apart_kept(before, old, b);
                },
                _ => {},
            }
        }
    }

    /// A term that shares nothing with a store shares nothing with a store
    /// that has fewer slots in use.
    pub proof fn lemma_apart_older(&self, later: &Heap, old: &Heap, r: TermRef)
        requires
            self.wf(),
            self.valid(r),
            forall|q: TermRef| #[trigger] old.valid(q) ==> later.valid(q),
            self.apart(later, r),
        ensures
            self.apart(old, r),
        decreases self.tree(r).size(),
    {
        assert(self.unfolds(r));
        if r is Slot {
            if old.valid(r) {
                assert(later.valid(r));
            }
            match self.node(r) {
                Term::App(f, a) => {
                    self.lemma_apart_older(later, old, f);
                    self.lemma_apart_older(later, old, a);
                },
                Term::Lam(_, b) => {
                    self.lemma_apart_older(later, old, b);
                },
                _ => {},
            }
        }
    }

    /// The store has grown from `old` by allocation alone: every handle of
    /// `old` keeps its meaning; the store is closed from every page from
    /// which `old` was closed and which was not above its current page; and
    /// every page retired since was the current page of `old` or was made
    /// later.
    pub open spec fn grows_from(&self, old: &Heap) -> bool {
        &&& self.extends(old)
        &&& forall|lo: nat|
            old.closed_from(lo) && lo <= old.current_page() ==> #[trigger] self.closed_from(lo)
        &&& forall|i: int|
            old.dumped().len() <= i < self.dumped().len() ==> #[trigger] self.dumped()[i]
                >= old.current_page()
    }

    /// Growth in two stages is growth.
    pub proof fn lemma_grows_chain(&self, mid: &Heap, old: &Heap)
        requires
            mid.grows_from(old),
            self.grows_from(mid),
        ensures
            self.grows_from(old),
    {
        assert forall|lo: nat|
            old.closed_from(lo) && lo <= old.current_page() implies #[trigger] self.closed_from(
            lo,
        ) by {
            assert(mid.closed_from(lo));
        }
        assert forall|i: int| old.dumped().len() <= i < self.dumped().len() implies #[trigger] self.dumped()[i]
            >= old.current_page() by {
            if i < mid.dumped().len() {
                assert(mid.dumped()[i] == self.dumped()[i]);
            }
        }
    }

    /// A store grows from itself.
    pub proof fn lemma_grows_self(&self)
        ensures
            self.grows_from(self),
    {
    }

    /// After growth from `old`, putting in the store a node whose children
    /// lie on the page that was current in `old`, or on pages made later, is
    /// growth from `old` still.
    pub proof fn lemma_allocated_grows(&self, mid: &Heap, old: &Heap, term: Term, r: TermRef)
        requires
            mid.grows_from(old),
            self.allocated(mid, term, r),
            term.children_fresh(old.current_page()),
        ensures
            self.grows_from(old),
            r.fresh(old.current_page()),
    {
        assert forall|lo: nat|
            old.closed_from(lo) && lo <= old.current_page() implies #[trigger] self.closed_from(
            lo,
        ) by {
            assert(mid.closed_from(lo));
            assert(term.children_fresh(lo));
        }
        assert forall|i: int| old.dumped().len() <= i < self.dumped().len() implies #[trigger] self.dumped()[i]
            >= old.current_page() by {
            if i < mid.dumped().len() {
                assert(mid.dumped()[i] == self.dumped()[i]);
            }
        }
    }

    /// A store with one empty page, no retired page, and the flag set.
    pub fn new() -> (h: Heap)
        ensures
            h.wf(),
            h.page_count() == 1,
            h.current_page() == 0,
            h.current_free() == PAGE_SIZE,
            h.dumped() == Seq::<usize>::empty(),
            h.running(),
            forall|r: TermRef| h.valid(r) ==> r is Static,
    {
        let mut pages: Vec<Page> = Vec::new();
        pages.push(Page::new(PAGE_SIZE));
        Heap { pages, current: 0, dump: Vec::new(), running: true }
    }

    /// Whether a handle names a constant or a slot in use.
    pub fn is_valid(&self, r: TermRef) -> (b: bool)
        ensures
            b == self.valid(r),
    {
        match r {
            TermRef::Static(_) => true,
            TermRef::Slot { page, index } => page < self.pages.len() && index
                < self.pages[page].slots.len(),
        }
    }

    /// The node that a handle names.
    pub fn get(&self, r: TermRef) -> (t: Term)
        requires
            self.wf(),
            self.valid(r),
        ensures
            t == self.node(r),
            self.unfolds(r),
    {
        match r {
            TermRef::Static(k) => k.to_term(),
            TermRef::Slot { page, index } => self.pages[page].slots[index].node,
        }
    }
}

impl TermRef {
    /// The handle names a constant or a slot of a page numbered `lo` or higher.
    pub open spec fn fresh(self, lo: nat) -> bool {
        match self {
            TermRef::Static(_) => true,
            TermRef::Slot { page, .. } => page >= lo,
        }
    }
}

impl Term {
    /// The children of the node are constants or lie on pages numbered `lo`
    /// or higher.
    pub open spec fn children_fresh(self, lo: nat) -> bool {
        match self {
            Term::App(f, a) => f.fresh(lo) && a.fresh(lo),
            Term::Lam(_, b) => b.fresh(lo),
            _ => true,
        }
    }
}

/// Whether workers may go on: false once a collection has been requested.
pub fn singal_running(heap: &Heap) -> (b: bool)
    ensures
        b == heap.running(),
{
    heap.running
}

/// Sets the flag that lets workers run.  Nothing else changes.
pub fn set_singal_run(heap: &mut Heap)
    ensures
        final(heap).running(),
        final(heap).same_store(old(heap)),
        final(heap).dumped() == old(heap).dumped(),
        old(heap).wf() ==> final(heap).wf(),
{
    heap.running = true;
    proof {
        heap.lemma_same_pages(old(heap));
        if old(heap).wf() {
            assert forall|r: TermRef| #[trigger] heap.valid(r) implies heap.unfolds(r) by {
                assert(old(heap).valid(r));
                assert(old(heap).unfolds(r));
            }
        }
    }
}

/// Clears the flag, which asks every worker to stop for a collection.
/// Nothing else changes.
pub fn set_singal_stop(heap: &mut Heap)
    ensures
        !final(heap).running(),
        final(heap).same_store(old(heap)),
        final(heap).dumped() == old(heap).dumped(),
        old(heap).wf() ==> final(heap).wf(),
{
    heap.running = false;
    proof {
        heap.lemma_same_pages(old(heap));
        if old(heap).wf() {
            assert forall|r: TermRef| #[trigger] heap.valid(r) implies heap.unfolds(r) by {
                assert(old(heap).valid(r));
                assert(old(heap).unfolds(r));
            }
        }
    }
}

/// Makes an empty page of `PAGE_SIZE` slots for a worker that has none, and
/// returns its number.  The current page stays current.
pub fn new_page(heap: &mut Heap) -> (page: usize)
    requires
        old(heap).wf(),
    ensures
        final(heap).wf(),
        page == old(heap).page_count(),
        final(heap).page_count() == old(heap).page_count() + 1,
        final(heap).extends(old(heap)),
        forall|r: TermRef| #[trigger] final(heap).valid(r) ==> old(heap).valid(r),
        final(heap).current_page() == old(heap).current_page(),
        final(heap).current_free() == old(heap).current_free(),
        final(heap).dumped() == old(heap).dumped(),
        final(heap).running() == old(heap).running(),
        forall|lo: nat| old(heap).closed_from(lo) ==> #[trigger] final(heap).closed_from(lo),
{
    let page = heap.pages.len();
    heap.pages.push(Page::new(PAGE_SIZE));
    proof {
        assert forall|r: TermRef| #[trigger] heap.valid(r) implies old(heap).valid(r) by {}
        assert forall|r: TermRef| #[trigger] heap.valid(r) implies heap.unfolds(r) by {
            assert(old(heap).valid(r));
        }
    }
    page
}

/// Makes the page numbered `page` the current page, on behalf of the
/// worker that owns it, and returns the number of the page that was
/// current.  Nothing changes where the store has no such page.
pub fn attach(heap: &mut Heap, page: usize) -> (was: usize)
    requires
        old(heap).wf(),
    ensures
        final(heap).wf(),
        was == old(heap).current_page(),
        final(heap).current_page() == if page < old(heap).page_count() {
            page as nat
        } else {
            old(heap).current_page()
        },
        final(heap).preserves(old(heap)),
        forall|r: TermRef| #[trigger] final(heap).valid(r) ==> old(heap).valid(r),
        final(heap).page_count() == old(heap).page_count(),
        final(heap).dumped() == old(heap).dumped(),
        final(heap).running() == old(heap).running(),
        forall|lo: nat| #[trigger] final(heap).closed_from(lo) == old(heap).closed_from(lo),
{
    let was = heap.current;
    if page < heap.pages.len() {
        heap.current = page;
    }
    proof {
        assert forall|r: TermRef| #[trigger] heap.valid(r) implies old(heap).valid(r) by {}
        assert forall|r: TermRef| #[trigger] old(heap).valid(r) implies heap.valid(r)
            && heap.node(r) == old(heap).node(r) && heap.tree(r) == old(heap).tree(r) by {}
        assert forall|r: TermRef| #[trigger] heap.valid(r) implies heap.unfolds(r) by {
            assert(old(heap).valid(r));
            assert(old(heap).unfolds(r));
        }
        assert forall|lo: nat| #[trigger] heap.closed_from(lo) == old(heap).closed_from(lo) by {
            if heap.closed_from(lo) {
                assert forall|r: TermRef| #[trigger]
                    old(heap).valid(r) && r.fresh(lo) implies (match old(heap).node(r) {
                    Term::App(f, a) => f.fresh(lo) && a.fresh(lo),
                    Term::Lam(_, b) => b.fresh(lo),
                    _ => true,
                }) by {
                    assert(heap.valid(r));
                }
            }
            if old(heap).closed_from(lo) {
                assert forall|r: TermRef| #[trigger] heap.valid(r) && r.fresh(lo) implies (
                match heap.node(r) {
                    Term::App(f, a) => f.fresh(lo) && a.fresh(lo),
                    Term::Lam(_, b) => b.fresh(lo),
                    _ => true,
                }) by {
                    assert(old(heap).valid(r));
                }
            }
        }
    }
    was
}

/// Retires the current page to the pool and installs an empty page of
/// `PAGE_SIZE` slots.  Once the pool holds `WATERMARK` pages the flag is
/// cleared to request a collection.
pub fn next_page(heap: &mut Heap)
    requires
        old(heap).wf(),
    ensures
        final(heap).wf(),
        final(heap).turned_from(old(heap), PAGE_SIZE as nat),
        final(heap).running() == (old(heap).running() && final(heap).dumped().len() < WATERMARK),
{
    let retired = heap.current;
    let fresh = heap.pages.len();
    heap.pages.push(Page::new(PAGE_SIZE));
    heap.current = fresh;
    heap.dump.push(retired);
    if heap.dump.len() >= WATERMARK {
        heap.running = false;
    }
    proof {
        assert forall|r: TermRef| #[trigger] heap.valid(r) implies old(heap).valid(r) by {}
        assert forall|r: TermRef| #[trigger] heap.valid(r) implies heap.unfolds(r) by {
            assert(old(heap).valid(r));
        }
    }
}

/// Retires the current page to the pool and leaves the sentinel, a page of
/// no slots, in its place: what a worker does when it stops.
pub fn dump_page(heap: &mut Heap)
    requires
        old(heap).wf(),
    ensures
        final(heap).wf(),
        final(heap).turned_from(old(heap), 0),
        final(heap).running() == old(heap).running(),
{
    let retired = heap.current;
    let fresh = heap.pages.len();
    heap.pages.push(Page::new(0));
    heap.current = fresh;
    heap.dump.push(retired);
    proof {
        assert forall|r: TermRef| #[trigger] heap.valid(r) implies old(heap).valid(r) by {}
        assert forall|r: TermRef| #[trigger] heap.valid(r) implies heap.unfolds(r) by {
            assert(old(heap).valid(r));
        }
    }
}

/// Empties the pool of retired pages and returns their numbers, oldest
/// first.  The pages themselves stay readable until they are released.
pub fn drain_dump(heap: &mut Heap) -> (ids: Vec<usize>)
    requires
        old(heap).wf(),
    ensures
        final(heap).wf(),
        ids@ == old(heap).dumped(),
        final(heap).dumped() == Seq::<usize>::empty(),
        final(heap).same_store(old(heap)),
        final(heap).running() == old(heap).running(),
{
    let mut ids: Vec<usize> = Vec::new();
    std::mem::swap(&mut ids, &mut heap.dump);
    proof {
        heap.lemma_same_pages(old(heap));
        assert forall|r: TermRef| #[trigger] heap.valid(r) implies heap.unfolds(r) by {
            assert(old(heap).valid(r));
            assert(old(heap).unfolds(r));
        }
    }
    ids
}

/// Puts a node in the store and returns its handle.
///
/// A node without payload is not stored: the handle names its constant, and
/// the store is unchanged.  Any other node takes the next free slot of the
/// current page; where the page is full, `next_page` runs first.
pub fn term_alloc(heap: &mut Heap, term: Term) -> (r: TermRef)
    requires
        old(heap).wf(),
        old(heap).accepts(term),
    ensures
        final(heap).wf(),
        final(heap).allocated(old(heap), term, r),
{
    match term.as_constant() {
        Some(k) => TermRef::Static(k),
        None => {
            let cur0 = heap.current;
            if heap.pages[cur0].slots.len() >= heap.pages[cur0].size {
                next_page(heap);
            }
            let ghost mid = *heap;
            let cur = heap.current;
            let index = heap.pages[cur].slots.len();
            let ghost tree = heap.tree_of(term);
            heap.pages[cur].slots.push(Cell { node: term, tree: Ghost(tree) });
            let r = TermRef::Slot { page: cur, index };
            proof {
                assert forall|q: TermRef| #[trigger] mid.valid(q) implies heap.valid(q)
                    && heap.node(q) == mid.node(q) && heap.tree(q) == mid.tree(q) by {}
                assert forall|q: TermRef| #[trigger] heap.valid(q) implies mid.valid(q) || q
                    == r by {}
                assert forall|q: TermRef| #[trigger] heap.valid(q) implies heap.unfolds(q) by {
                    if q != r {
                        assert(mid.valid(q));
                        assert(mid.unfolds(q));
                    }
                }
                assert forall|lo: nat|
                    old(heap).closed_from(lo) && lo <= old(heap).current_page()
                        && term.children_fresh(lo) implies #[trigger] heap.closed_from(lo) by {
                    assert(mid.closed_from(lo));
                    assert forall|q: TermRef| #[trigger] heap.valid(q) && q.fresh(lo) implies (
                    match heap.node(q) {
                        Term::App(f, a) => f.fresh(lo) && a.fresh(lo),
                        Term::Lam(_, b) => b.fresh(lo),
                        _ => true,
                    }) by {
                        if q != r {
                            assert(mid.valid(q));
                        }
                    }
                }
            }
            r
        },
    }
}

/// Releases the storage of every page numbered below `lo`.  Handles into
/// those pages are no longer valid; all others keep their meaning.
pub fn release_before(heap: &mut Heap, lo: usize)
    requires
        old(heap).wf(),
        old(heap).closed_from(lo as nat),
        lo <= old(heap).current_page(),
    ensures
        final(heap).wf(),
        forall|r: TermRef| #[trigger]
            final(heap).valid(r) <==> old(heap).valid(r) && r.fresh(lo as nat),
        forall|r: TermRef| #[trigger]
            final(heap).valid(r) ==> final(heap).node(r) == old(heap).node(r)
                && final(heap).tree(r) == old(heap).tree(r),
        final(heap).page_count() == old(heap).page_count(),
        final(heap).current_page() == old(heap).current_page(),
        final(heap).current_free() == old(heap).current_free(),
        final(heap).dumped() == old(heap).dumped(),
        final(heap).running() == old(heap).running(),
        final(heap).closed_from(lo as nat),
{
    let mut i: usize = 0;
    while i < lo
        invariant
            i <= lo,
            lo <= heap.current,
            heap.current == old(heap).current,
            heap.dump == old(heap).dump,
            heap.running == old(heap).running,
            heap.pages.len() == old(heap).pages.len(),
            heap.current < heap.pages.len(),
            forall|p: int| 0 <= p < i ==> (#[trigger] heap.pages[p]).slots.len() == 0,
            forall|p: int| i <= p < heap.pages.len() ==> #[trigger] heap.pages[p] == old(heap).pages[p],
        decreases lo - i,
    {
        heap.pages.set(i, Page::new(0));
        i = i + 1;
    }
    proof {
        assert forall|r: TermRef| #[trigger] heap.valid(r) implies old(heap).valid(r) && r.fresh(
            lo as nat,
        ) && heap.node(r) == old(heap).node(r) && heap.tree(r) == old(heap).tree(r) by {}
        assert forall|r: TermRef| old(heap).valid(r) && r.fresh(lo as nat) implies #[trigger] heap.valid(r) by {}
        assert forall|r: TermRef| #[trigger] heap.valid(r) implies heap.unfolds(r) by {
            assert(old(heap).valid(r));
            assert(old(heap).unfolds(r));
        }
    }
}

impl Heap {
    /// The number of pages made so far, released ones included.
    pub fn page_total(&self) -> (n: usize)
        ensures
            n == self.page_count(),
    {
        self.pages.len()
    }

    /// The number of retired pages in the pool.
    pub fn dump_total(&self) -> (n: usize)
        ensures
            n == self.dumped().len(),
    {
        self.dump.len()
    }
}

/// One collection.
///
/// The current page is retired and the pool of retired pages is emptied.
/// Every waiting task and every definition is copied onto new pages; then
/// every page that existed before is released, and the flag is set.
///
/// Afterwards each task and each definition means what it meant, the tasks
/// wait in reverse order, and no handle into a page that existed before is
/// valid: whatever is reachable lies on pages made during the collection.
/// The pool holds only pages that were filled and retired while copying.
pub fn run_gc(heap: &mut Heap, pool: &mut TaskPool, dict: &mut Dict)
    requires
        old(heap).wf(),
        old(pool).wf(old(heap)),
        old(dict).wf(old(heap)),
    ensures
        final(heap).wf(),
        final(heap).running(),
        final(heap).page_count() > old(heap).page_count(),
        final(heap).current_page() >= old(heap).page_count(),
        forall|r: TermRef| #[trigger] final(heap).valid(r) ==> r.fresh(old(heap).page_count()),
        forall|i: int|
            0 <= i < final(heap).dumped().len() ==> #[trigger] final(heap).dumped()[i] >= old(
                heap
            ).page_count(),
        final(pool).wf(final(heap)),
        final(pool).live() == old(pool).live(),
        final(pool).views(final(heap)) == old(pool).views(old(heap)).reverse(),
        final(dict).wf(final(heap)),
        final(dict).symbols() == old(dict).symbols(),
        final(dict).view(final(heap)) == old(dict).view(old(heap)),
        final(dict).defs(final(heap)) == old(dict).defs(old(heap)),
{
    let lo = heap.pages.len();
    let ghost tasks0 = pool.tasks();
    let ghost views0 = pool.views(heap);
    dump_page(heap);
    let _ = drain_dump(heap);
    let ghost h1 = *heap;
    proof {
        assert(heap.closed_from(lo as nat)) by {
            assert forall|r: TermRef| #[trigger] heap.valid(r) && r.fresh(lo as nat) implies (
            match heap.node(r) {
                Term::App(f, a) => f.fresh(lo as nat) && a.fresh(lo as nat),
                Term::Lam(_, b) => b.fresh(lo as nat),
                _ => true,
            }) by {
                if r is Slot {
                    assert(old(heap).valid(r));
                }
            }
        }
        pool.lemma_extends(old(heap), heap);
        dict.lemma_extends(old(heap), heap);
    }
    let mut vec = drain_task(pool);
    let n = vec.len();
    while vec.len() > 0
        invariant
            heap.wf(),
            heap.preserves(&h1),
            h1.preserves(old(heap)),
            heap.closed_from(lo as nat),
            lo <= heap.current_page(),
            lo == old(heap).page_count(),
            heap.page_count() > lo,
            forall|i: int| 0 <= i < heap.dumped().len() ==> #[trigger] heap.dumped()[i] >= lo,
            n == tasks0.len(),
            tasks0 == old(pool).tasks(),
            views0 == old(pool).views(old(heap)),
            old(pool).wf(old(heap)),
            dict.wf(heap),
            *dict == *old(dict),
            dict.view(heap) == old(dict).view(old(heap)),
            pool.live() == old(pool).live(),
            vec@ =~= tasks0.take(vec@.len() as int),
            vec@.len() <= n,
            pool.tasks().len() == n - vec@.len(),
            forall|j: int|
                0 <= j < pool.tasks().len() ==> (#[trigger] pool.tasks()[j]).valid(heap)
                    && pool.tasks()[j].view(heap) == views0[n - 1 - j] && pool.tasks()[j].fresh(
                    lo as nat,
                ),
        decreases vec@.len(),
    {
        let ghost before = *heap;
        let ghost queued = pool.tasks();
        let ghost k = vec@.len() - 1;
        let mut task = vec.pop().unwrap();
        proof {
            assert(task == tasks0[k]);
            assert(tasks0[k].wf(old(heap)));
            tasks0[k].lemma_extends(old(heap), &h1);
            tasks0[k].lemma_extends(&h1, heap);
        }
        task_copy(&mut task, heap);
        send_task(pool, task);
        proof {
            assert(heap.closed_from(lo as nat));
            task.lemma_fresh_lower(before.current_page(), lo as nat);
            assert forall|i: int| 0 <= i < heap.dumped().len() implies #[trigger] heap.dumped()[i]
                >= lo by {
                if i < before.dumped().len() {
                    assert(before.dumped()[i] == heap.dumped()[i]);
                }
            }
            dict.lemma_extends(&before, heap);
            assert forall|j: int| 0 <= j < pool.tasks().len() implies (
            #[trigger] pool.tasks()[j]).valid(heap) && pool.tasks()[j].view(heap) == views0[n - 1
                - j] && pool.tasks()[j].fresh(lo as nat) by {
                if j < queued.len() {
                    assert(pool.tasks()[j] == queued[j]);
                    queued[j].lemma_extends(&before, heap);
                } else {
                    assert(pool.tasks()[j] == task);
                    assert(views0[k] == tasks0[k].view(old(heap)));
                }
            }
        }
    }
    let ghost h2 = *heap;
    dict_copy(dict, heap);
    let ghost h3 = *heap;
    proof {
        assert(heap.closed_from(lo as nat));
        dict.lemma_fresh_lower(h2.current_page(), lo as nat);
        assert forall|i: int| 0 <= i < heap.dumped().len() implies #[trigger] heap.dumped()[i]
            >= lo by {
            if i < h2.dumped().len() {
                assert(h2.dumped()[i] == heap.dumped()[i]);
            }
        }
    }
    release_before(heap, lo);
    let ghost h4 = *heap;
    set_singal_run(heap);
    proof {
        assert forall|r: TermRef| #[trigger] heap.valid(r) implies r.fresh(lo as nat) by {
            assert(h4.valid(r));
        }
        dict.lemma_restrict(&h3, &h4, lo as nat);
        dict.lemma_extends(&h4, heap);
        assert forall|j: int| 0 <= j < pool.tasks().len() implies (#[trigger] pool.tasks()[j]).wf(
            heap,
        ) && pool.tasks()[j].view(heap) == views0[n - 1 - j] by {
            let t = pool.tasks()[j];
            t.lemma_extends(&h2, &h3);
            t.lemma_restrict(&h3, &h4, lo as nat);
            t.lemma_extends(&h4, heap);
            assert(views0[n - 1 - j] == tasks0[n - 1 - j].view(old(heap)));
            assert(tasks0[n - 1 - j].wf(old(heap)));
        }
        assert(pool.views(heap) =~= views0.reverse());
    }
}

/// A collection is transparent: a task whose state was kept, with a
/// dictionary whose meaning was kept, runs on as it would have run, step
/// for step, to the same end.  The conditions are what `run_gc` ensures of
/// each task and of the dictionary.
pub proof fn lemma_collection_transparent(
    task_before: &Task,
    heap_before: &Heap,
    dict_before: &Dict,
    task_after: &Task,
    heap_after: &Heap,
    dict_after: &Dict,
    n: nat,
)
    requires
        task_after.view(heap_after) == task_before.view(heap_before),
        dict_after.defs(heap_after) == dict_before.defs(heap_before),
    ensures
        run_view(dict_after.defs(heap_after), task_after.view(heap_after), n) == run_view(
            dict_before.defs(heap_before),
            task_before.view(heap_before),
            n,
        ),
{
}

} // verus!
