//! Bracket abstraction from lambda terms to combinators, and the peephole
//! optimizer that runs after it.

use vstd::prelude::*;
use crate::symbol::Symb;
use crate::term::{Constant, Term, TermRef, Tree, app, lam, t_app, t_const, t_lam};
use crate::heap::Heap;

verus! {

/// Whether `x` occurs free in `t`: as a variable that no abstraction of `x`
/// encloses.
pub open spec fn free_in(x: Symb, t: Tree) -> bool
    decreases t,
{
    match t {
        Tree::App(f, a) => free_in(x, *f) || free_in(x, *a),
        Tree::Lam(y, b) => y != x && free_in(x, *b),
        Tree::Leaf(Term::Var(y)) => y == x,
        Tree::Leaf(_) => false,
    }
}

/// The abstraction of `x` from a tree without abstractions: a combinator
/// tree that, applied to an argument, behaves as `c` with the argument in
/// place of `x`.
pub open spec fn abstract_var(x: Symb, c: Tree) -> Tree
    decreases c,
{
    if !free_in(x, c) {
        t_app(t_const(Constant::K), c)
    } else {
        match c {
            Tree::App(f, a) => t_app(
                t_app(t_const(Constant::S), abstract_var(x, *f)),
                abstract_var(x, *a),
            ),
            _ => t_const(Constant::I),
        }
    }
}

/// The combinator form of a term: every abstraction is replaced, the
/// innermost first, by its variable abstracted from the combinator form of
/// its body.
pub open spec fn compile_tree(t: Tree) -> Tree
    decreases t,
{
    match t {
        Tree::App(f, a) => t_app(compile_tree(*f), compile_tree(*a)),
        Tree::Lam(x, b) => abstract_var(x, compile_tree(*b)),
        Tree::Leaf(_) => t,
    }
}

/// `t` is the constant `k` applied to one argument: the argument.
pub open spec fn headed(t: Tree, k: Constant) -> Option<Tree> {
    match t {
        Tree::App(f, a) => if *f == t_const(k) {
            Some(*a)
        } else {
            None
        },
        _ => None,
    }
}

/// `t` is the constant `k` applied to two arguments: the arguments.
pub open spec fn headed2(t: Tree, k: Constant) -> Option<(Tree, Tree)> {
    match t {
        Tree::App(f, b) => match headed(*f, k) {
            Some(a) => Some((a, *b)),
            None => None,
        },
        _ => None,
    }
}

/// The tree after one pass of the optimizer.
///
/// At an application of `S` to two arguments the first pattern that matches
/// is rewritten, and the parts of the rewritten tree are optimized in turn:
///
/// | pattern | result |
/// |---|---|
/// | `S (K p) I` | `p` |
/// | `S (K p) (K q)` | `K (p q)` |
/// | `S (K p) (B q r)` | `B* p q r` |
/// | `S (K p) q` | `B p q` |
/// | `S (B p q) (K r)` | `C' p q r` |
/// | `S (B p q) r` | `S' p q r` |
/// | `S p (K q)` | `C p q` |
/// | `S p q` | `S p q` |
///
/// Any other application has both children optimized; any other tree is
/// left as it is.
pub open spec fn optimize_tree(t: Tree) -> Tree
    decreases t.size(),
    via optimize_tree_decreases
{
    match headed2(t, Constant::S) {
        Some((a1, a2)) => match headed(a1, Constant::K) {
            Some(p) => if a2 == t_const(Constant::I) {
                optimize_tree(p)
            } else {
                match headed(a2, Constant::K) {
                    Some(q) => t_app(t_const(Constant::K), optimize_tree(t_app(p, q))),
                    None => match headed2(a2, Constant::B) {
                        Some((q, r)) => t_app(
                            t_app(
                                t_app(t_const(Constant::Bs), optimize_tree(p)),
                                optimize_tree(q),
                            ),
                            optimize_tree(r),
                        ),
                        None => t_app(
                            t_app(t_const(Constant::B), optimize_tree(p)),
                            optimize_tree(a2),
                        ),
                    },
                }
            },
            None => match headed2(a1, Constant::B) {
                Some((p, q)) => match headed(a2, Constant::K) {
                    Some(r) => t_app(
                        t_app(t_app(t_const(Constant::Cp), optimize_tree(p)), optimize_tree(q)),
                        optimize_tree(r),
                    ),
                    None => t_app(
                        t_app(t_app(t_const(Constant::Sp), optimize_tree(p)), optimize_tree(q)),
                        optimize_tree(a2),
                    ),
                },
                None => match headed(a2, Constant::K) {
                    Some(q) => t_app(
                        t_app(t_const(Constant::C), optimize_tree(a1)),
                        optimize_tree(q),
                    ),
                    None => t_app(
                        t_app(t_const(Constant::S), optimize_tree(a1)),
                        optimize_tree(a2),
                    ),
                },
            },
        },
        None => match t {
            Tree::App(f, a) => t_app(optimize_tree(*f), optimize_tree(*a)),
            _ => t,
        },
    }
}

#[via_fn]
proof fn optimize_tree_decreases(t: Tree) {
    lemma_headed_sizes(t, Constant::S);
    match headed2(t, Constant::S) {
        Some((a1, a2)) => {
            lemma_headed_sizes(a1, Constant::K);
            lemma_headed_sizes(a1, Constant::B);
            lemma_headed_sizes(a2, Constant::K);
            lemma_headed_sizes(a2, Constant::B);
        },
        None => {},
    }
}

/// The arguments of a headed tree are smaller than the tree.
pub proof fn lemma_headed_sizes(t: Tree, k: Constant)
    ensures
        headed(t, k) matches Some(a) ==> t.size() == a.size() + 2,
        headed2(t, k) matches Some((a, b)) ==> t.size() == a.size() + b.size() + 3,
{
    reveal_with_fuel(Tree::size, 3);
}

/// A rewrite pattern of the optimizer matches at the root of `t`: `t` is `S`
/// applied to two arguments of which the first is `K p` or `B p q`, or the
/// second is `K q`.
pub open spec fn redex(t: Tree) -> bool {
    match headed2(t, Constant::S) {
        Some((a1, a2)) => headed(a1, Constant::K) is Some || headed2(a1, Constant::B) is Some
            || headed(a2, Constant::K) is Some,
        None => false,
    }
}

/// No rewrite pattern of the optimizer matches anywhere in `t`, below
/// abstractions excepted.
pub open spec fn stable(t: Tree) -> bool
    decreases t,
{
    match t {
        Tree::App(f, a) => !redex(t) && stable(*f) && stable(*a),
        _ => true,
    }
}

/// Abstracting a variable from a tree without abstractions gives a tree
/// without abstractions.
pub proof fn lemma_abstract_lam_free(x: Symb, c: Tree)
    requires
        c.lam_count() == 0,
    ensures
        abstract_var(x, c).lam_count() == 0,
    decreases c,
{
    reveal_with_fuel(Tree::lam_count, 3);
    match c {
        Tree::App(f, a) => {
            lemma_abstract_lam_free(x, *f);
            lemma_abstract_lam_free(x, *a);
        },
        _ => {},
    }
}

/// The combinator form of a term holds no abstraction.
pub proof fn lemma_compile_lam_free(t: Tree)
    ensures
        compile_tree(t).lam_count() == 0,
    decreases t,
{
    match t {
        Tree::App(f, a) => {
            lemma_compile_lam_free(*f);
            lemma_compile_lam_free(*a);
        },
        Tree::Lam(x, b) => {
            lemma_compile_lam_free(*b);
            lemma_abstract_lam_free(x, compile_tree(*b));
        },
        Tree::Leaf(_) => {},
    }
}

/// A tree without abstractions is its own combinator form.
pub proof fn lemma_compile_fixed(t: Tree)
    requires
        t.lam_count() == 0,
    ensures
        compile_tree(t) == t,
    decreases t,
{
    match t {
        Tree::App(f, a) => {
            lemma_compile_fixed(*f);
            lemma_compile_fixed(*a);
        },
        _ => {},
    }
}

/// Abstracting `x` binds `x` and no other variable.
pub proof fn lemma_abstract_free(y: Symb, x: Symb, c: Tree)
    requires
        c.lam_count() == 0,
    ensures
        free_in(y, abstract_var(x, c)) == (y != x && free_in(y, c)),
    decreases c,
{
    reveal_with_fuel(free_in, 3);
    if free_in(x, c) {
        match c {
            Tree::App(f, a) => {
                lemma_abstract_free(y, x, *f);
                lemma_abstract_free(y, x, *a);
            },
            _ => {},
        }
    }
}

/// The combinator form of a term has the free variables of the term: a
/// closed term has a closed combinator form.
pub proof fn lemma_compile_free(x: Symb, t: Tree)
    ensures
        free_in(x, compile_tree(t)) == free_in(x, t),
    decreases t,
{
    match t {
        Tree::App(f, a) => {
            lemma_compile_free(x, *f);
            lemma_compile_free(x, *a);
        },
        Tree::Lam(y, b) => {
            lemma_compile_free(x, *b);
            lemma_compile_lam_free(*b);
            lemma_abstract_free(x, y, compile_tree(*b));
        },
        Tree::Leaf(_) => {},
    }
}

/// A pass of the optimizer never makes a tree larger.
pub proof fn lemma_optimize_size(t: Tree)
    ensures
        optimize_tree(t).size() <= t.size(),
    decreases t.size(),
{
    reveal_with_fuel(Tree::size, 4);
    lemma_headed_sizes(t, Constant::S);
    match headed2(t, Constant::S) {
        Some((a1, a2)) => {
            lemma_headed_sizes(a1, Constant::K);
            lemma_headed_sizes(a1, Constant::B);
            lemma_headed_sizes(a2, Constant::K);
            lemma_headed_sizes(a2, Constant::B);
            lemma_optimize_size(a1);
            lemma_optimize_size(a2);
            match headed(a1, Constant::K) {
                Some(p) => {
                    lemma_optimize_size(p);
                    match headed(a2, Constant::K) {
                        Some(q) => {
                            lemma_optimize_size(t_app(p, q));
                        },
                        None => match headed2(a2, Constant::B) {
                            Some((q, r)) => {
                                lemma_optimize_size(q);
                                lemma_optimize_size(r);
                            },
                            None => {},
                        },
                    }
                },
                None => match headed2(a1, Constant::B) {
                    Some((p, q)) => {
                        lemma_optimize_size(p);
                        lemma_optimize_size(q);
                        match headed(a2, Constant::K) {
                            Some(r) => {
                                lemma_optimize_size(r);
                            },
                            None => {},
                        }
                    },
                    None => match headed(a2, Constant::K) {
                        Some(q) => {
                            lemma_optimize_size(q);
                        },
                        None => {},
                    },
                },
            }
        },
        None => match t {
            Tree::App(f, a) => {
                lemma_optimize_size(*f);
                lemma_optimize_size(*a);
            },
            _ => {},
        },
    }
}

/// The fixed points of the optimizer are the trees in which no rewrite
/// pattern matches.
pub proof fn lemma_optimize_fixed_point(t: Tree)
    ensures
        (optimize_tree(t) == t) <==> stable(t),
    decreases t,
{
    match t {
        Tree::App(f, a) => {
            lemma_optimize_fixed_point(*f);
            lemma_optimize_fixed_point(*a);
            match headed2(t, Constant::S) {
                Some((a1, a2)) => {
                    assert(*f == t_app(t_const(Constant::S), a1));
                    assert(t == t_app(t_app(t_const(Constant::S), a1), a2));
                    match *f {
                        Tree::App(h, g) => {
                            lemma_optimize_fixed_point(*g);
                        },
                        _ => {},
                    }
                    assert(!redex(*f));
                    assert(stable(*f) == stable(a1)) by {
                        reveal_with_fuel(stable, 3);
                    }
                    let o = optimize_tree(t);
                    match headed(a1, Constant::K) {
                        Some(p) => {
                            if a2 == t_const(Constant::I) {
                                lemma_optimize_size(p);
                                lemma_headed_sizes(t, Constant::S);
                                lemma_headed_sizes(a1, Constant::K);
                                assert(o.size() < t.size());
                            } else {
                                match headed(a2, Constant::K) {
                                    Some(q) => {
                                        assert(o == t_app(
                                            t_const(Constant::K),
                                            optimize_tree(t_app(p, q)),
                                        ));
                                    },
                                    None => match headed2(a2, Constant::B) {
                                        Some((q, r)) => {
                                            assert(o == t_app(
                                                t_app(
                                                    t_app(
                                                        t_const(Constant::Bs),
                                                        optimize_tree(p),
                                                    ),
                                                    optimize_tree(q),
                                                ),
                                                optimize_tree(r),
                                            ));
                                        },
                                        None => {
                                            assert(o == t_app(
                                                t_app(t_const(Constant::B), optimize_tree(p)),
                                                optimize_tree(a2),
                                            ));
                                        },
                                    },
                                }
                            }
                            assert(o != t);
                        },
                        None => match headed2(a1, Constant::B) {
                            Some((p, q)) => {
                                match headed(a2, Constant::K) {
                                    Some(r) => {
                                        assert(o == t_app(
                                            t_app(
                                                t_app(t_const(Constant::Cp), optimize_tree(p)),
                                                optimize_tree(q),
                                            ),
                                            optimize_tree(r),
                                        ));
                                    },
                                    None => {
                                        assert(o == t_app(
                                            t_app(
                                                t_app(t_const(Constant::Sp), optimize_tree(p)),
                                                optimize_tree(q),
                                            ),
                                            optimize_tree(a2),
                                        ));
                                    },
                                }
                                assert(o != t);
                            },
                            None => match headed(a2, Constant::K) {
                                Some(q) => {
                                    assert(o == t_app(
                                        t_app(t_const(Constant::C), optimize_tree(a1)),
                                        optimize_tree(q),
                                    ));
                                    assert(o != t);
                                },
                                None => {
                                    assert(!redex(t));
                                    assert(o == t_app(
                                        t_app(t_const(Constant::S), optimize_tree(a1)),
                                        optimize_tree(a2),
                                    ));
                                },
                            },
                        },
                    }
                },
                None => {
                    assert(optimize_tree(t) == t_app(optimize_tree(*f), optimize_tree(*a)));
                },
            }
        },
        _ => {},
    }
}

/// A second pass of the optimizer changes nothing, wherever the first pass
/// left no rewrite pattern behind.
pub proof fn lemma_optimize_idempotent(x: Tree)
    requires
        stable(optimize_tree(x)),
    ensures
        optimize_tree(optimize_tree(x)) == optimize_tree(x),
{
    lemma_optimize_fixed_point(optimize_tree(x));
}

/// `t` is the constant `k` applied to three arguments: the arguments.
pub open spec fn headed3(t: Tree, k: Constant) -> Option<(Tree, Tree, Tree)> {
    match t {
        Tree::App(f, c) => match headed2(*f, k) {
            Some((a, b)) => Some((a, b, *c)),
            None => None,
        },
        _ => None,
    }
}

/// The tree `c` with `a` in place of the variable `x`, for a tree without
/// abstractions.
pub open spec fn instance(c: Tree, x: Symb, a: Tree) -> Tree
    decreases c,
{
    match c {
        Tree::App(f, g) => t_app(instance(*f, x, a), instance(*g, x, a)),
        Tree::Leaf(Term::Var(y)) => if y == x {
            a
        } else {
            c
        },
        _ => c,
    }
}

/// `t` is the constant `k` applied to four arguments: the arguments.
pub open spec fn headed4(t: Tree, k: Constant) -> Option<(Tree, Tree, Tree, Tree)> {
    match t {
        Tree::App(f, d) => match headed3(*f, k) {
            Some((a, b, c)) => Some((a, b, c, *d)),
            None => None,
        },
        _ => None,
    }
}

/// The tree after one rewrite at its root by the rule of a combinator:
///
/// | tree | result |
/// |---|---|
/// | `I a` | `a` |
/// | `K a b` | `a` |
/// | `S f g x` | `f x (g x)` |
/// | `B f g x` | `f (g x)` |
/// | `C f g x` | `f x g` |
/// | `S' c f g x` | `c (f x) (g x)` |
/// | `B* c f g x` | `c f (g x)` |
/// | `C' c f g x` | `c (f x) g` |
pub open spec fn contract_root(t: Tree) -> Option<Tree> {
    match headed(t, Constant::I) {
        Some(a) => Some(a),
        None => match headed2(t, Constant::K) {
            Some((a, _)) => Some(a),
            None => match headed3(t, Constant::S) {
                Some((f, g, x)) => Some(t_app(t_app(f, x), t_app(g, x))),
                None => match headed3(t, Constant::B) {
                    Some((f, g, x)) => Some(t_app(f, t_app(g, x))),
                    None => match headed3(t, Constant::C) {
                        Some((f, g, x)) => Some(t_app(t_app(f, x), g)),
                        None => contract_root4(t),
                    },
                },
            },
        },
    }
}

/// The tree after one rewrite at its root by the rule of a combinator that
/// takes four arguments.
pub open spec fn contract_root4(t: Tree) -> Option<Tree> {
    match headed4(t, Constant::Sp) {
        Some((c, f, g, x)) => Some(t_app(t_app(c, t_app(f, x)), t_app(g, x))),
        None => match headed4(t, Constant::Bs) {
            Some((c, f, g, x)) => Some(t_app(t_app(c, f), t_app(g, x))),
            None => match headed4(t, Constant::Cp) {
                Some((c, f, g, x)) => Some(t_app(t_app(c, t_app(f, x)), g)),
                None => None,
            },
        },
    }
}

/// The tree after one rewrite at the place that `path` leads to from the
/// root: `false` goes to the function of an application, `true` to its
/// argument.
pub open spec fn contract_at(t: Tree, path: Seq<bool>) -> Option<Tree>
    decreases path.len(),
{
    if path.len() == 0 {
        contract_root(t)
    } else {
        match t {
            Tree::App(f, a) => if path[0] {
                match contract_at(*a, path.drop_first()) {
                    Some(b) => Some(t_app(*f, b)),
                    None => None,
                }
            } else {
                match contract_at(*f, path.drop_first()) {
                    Some(g) => Some(t_app(g, *a)),
                    None => None,
                }
            },
            _ => None,
        }
    }
}

/// The tree after rewrites at the places `paths`, one after the other.
pub open spec fn contract_all(t: Tree, paths: Seq<Seq<bool>>) -> Option<Tree>
    decreases paths.len(),
{
    if paths.len() == 0 {
        Some(t)
    } else {
        match contract_at(t, paths[0]) {
            Some(u) => contract_all(u, paths.drop_first()),
            None => None,
        }
    }
}

/// `t` can be rewritten to `u` by the rules of the combinators.
pub open spec fn reduces_to(t: Tree, u: Tree) -> bool {
    exists|paths: Seq<Seq<bool>>| contract_all(t, paths) == Some(u)
}

/// The places `paths`, each reached through the side `side` of an
/// application.
pub open spec fn under(side: bool, paths: Seq<Seq<bool>>) -> Seq<Seq<bool>> {
    paths.map_values(|p: Seq<bool>| seq![side] + p)
}

/// Rewrites one after the other: first those of `first`, then those of
/// `second`.
pub proof fn lemma_contract_chain(t: Tree, u: Tree, first: Seq<Seq<bool>>, second: Seq<Seq<bool>>)
    requires
        contract_all(t, first) == Some(u),
    ensures
        contract_all(t, first + second) == contract_all(u, second),
    decreases first.len(),
{
    if first.len() == 0 {
        assert(first + second =~= second);
    } else {
        let v = contract_at(t, first[0]).unwrap();
        lemma_contract_chain(v, u, first.drop_first(), second);
        assert((first + second).drop_first() =~= first.drop_first() + second);
    }
}

/// Rewrites inside one side of an application leave the other side as it
/// is.
pub proof fn lemma_contract_under(f: Tree, a: Tree, side: bool, paths: Seq<Seq<bool>>, u: Tree)
    requires
        contract_all(if side { a } else { f }, paths) == Some(u),
    ensures
        contract_all(t_app(f, a), under(side, paths)) == Some(
            if side {
                t_app(f, u)
            } else {
                t_app(u, a)
            },
        ),
    decreases paths.len(),
{
    if paths.len() > 0 {
        let inner = if side { a } else { f };
        let v = contract_at(inner, paths[0]).unwrap();
        let p = seq![side] + paths[0];
        assert(p.drop_first() =~= paths[0]);
        assert(under(side, paths)[0] == p);
        assert(under(side, paths).drop_first() =~= under(side, paths.drop_first()));
        if side {
            lemma_contract_under(f, v, side, paths.drop_first(), u);
        } else {
            lemma_contract_under(v, a, side, paths.drop_first(), u);
        }
    }
}

/// A tree in which `x` is not free is its own instance.
pub proof fn lemma_instance_closed(c: Tree, x: Symb, a: Tree)
    requires
        c.lam_count() == 0,
        !free_in(x, c),
    ensures
        instance(c, x, a) == c,
    decreases c,
{
    match c {
        Tree::App(f, g) => {
            lemma_instance_closed(*f, x, a);
            lemma_instance_closed(*g, x, a);
        },
        _ => {},
    }
}

/// Bracket abstraction is abstraction: the abstraction of `x` from a tree
/// without abstractions, applied to an argument, can be rewritten by the
/// rules of the combinators to the tree with the argument in place of `x`.
/// Returns the places of the rewrites.
pub proof fn lemma_abstraction_applies(x: Symb, c: Tree, a: Tree) -> (paths: Seq<Seq<bool>>)
    requires
        c.lam_count() == 0,
    ensures
        contract_all(t_app(abstract_var(x, c), a), paths) == Some(instance(c, x, a)),
        reduces_to(t_app(abstract_var(x, c), a), instance(c, x, a)),
    decreases c,
{
    let whole = t_app(abstract_var(x, c), a);
    let root = Seq::<bool>::empty();
    if !free_in(x, c) {
        lemma_instance_closed(c, x, a);
        let paths = seq![root];
        assert(contract_root(whole) == Some(c));
        assert(paths.drop_first() =~= Seq::<Seq<bool>>::empty());
        assert(contract_all(c, paths.drop_first()) == Some(c));
        paths
    } else {
        match c {
            Tree::App(f, g) => {
                let left = lemma_abstraction_applies(x, *f, a);
                let right = lemma_abstraction_applies(x, *g, a);
                let fa = t_app(abstract_var(x, *f), a);
                let ga = t_app(abstract_var(x, *g), a);
                let split = t_app(fa, ga);
                assert(contract_root(whole) == Some(split));
                let head = seq![root];
                assert(head.drop_first() =~= Seq::<Seq<bool>>::empty());
                assert(contract_at(whole, head[0]) == Some(split));
                assert(contract_all(split, head.drop_first()) == Some(split));
                assert(contract_all(whole, head) == Some(split));
                lemma_contract_under(fa, ga, false, left, instance(*f, x, a));
                let half = t_app(instance(*f, x, a), ga);
                lemma_contract_under(instance(*f, x, a), ga, true, right, instance(*g, x, a));
                lemma_contract_chain(split, half, under(false, left), under(true, right));
                lemma_contract_chain(
                    whole,
                    split,
                    head,
                    under(false, left) + under(true, right),
                );
                head + (under(false, left) + under(true, right))
            },
            _ => {
                let paths = seq![root];
                assert(contract_root(whole) == Some(a));
                assert(paths.drop_first() =~= Seq::<Seq<bool>>::empty());
                assert(contract_all(a, paths.drop_first()) == Some(a));
                paths
            },
        }
    }
}

/// The combinator form of an abstraction applied to an argument can be
/// rewritten, by the rules of the combinators, to the combinator form of the
/// body with the combinator form of the argument in place of the variable.
pub proof fn lemma_compiled_redex(x: Symb, body: Tree, arg: Tree)
    ensures
        reduces_to(
            compile_tree(t_app(t_lam(x, body), arg)),
            instance(compile_tree(body), x, compile_tree(arg)),
        ),
{
    lemma_compile_lam_free(body);
    assert(compile_tree(t_app(t_lam(x, body), arg)) == t_app(
        abstract_var(x, compile_tree(body)),
        compile_tree(arg),
    )) by {
        reveal_with_fuel(compile_tree, 3);
    }
    let _ = lemma_abstraction_applies(x, compile_tree(body), compile_tree(arg));
}

/// The two trees can be rewritten to one and the same tree.
pub open spec fn joinable(t: Tree, u: Tree) -> bool {
    exists|n: Tree| reduces_to(t, n) && reduces_to(u, n)
}

/// The tree after rewrites at up to three places, for a check by
/// unfolding.
proof fn lemma_contract_three(t: Tree, a: Seq<bool>, b: Seq<bool>, c: Seq<bool>, n: nat)
    requires
        n <= 3,
    ensures
        n == 1 ==> contract_all(t, seq![a]) == contract_at(t, a),
        n == 2 ==> contract_all(t, seq![a, b]) == match contract_at(t, a) {
            Some(u) => contract_at(u, b),
            None => None,
        },
        n == 3 ==> contract_all(t, seq![a, b, c]) == match contract_at(t, a) {
            Some(u) => match contract_at(u, b) {
                Some(v) => contract_at(v, c),
                None => None,
            },
            None => None,
        },
{
    reveal_with_fuel(contract_all, 5);
    assert(seq![a].drop_first() =~= Seq::<Seq<bool>>::empty());
    assert(seq![a, b].drop_first() =~= seq![b]);
    assert(seq![b].drop_first() =~= Seq::<Seq<bool>>::empty());
    assert(seq![a, b, c].drop_first() =~= seq![b, c]);
    assert(seq![b, c].drop_first() =~= seq![c]);
    assert(seq![c].drop_first() =~= Seq::<Seq<bool>>::empty());
}

/// A rewrite at the root, at the function side, or at the argument side of
/// the function side.
proof fn lemma_contract_places(t: Tree)
    ensures
        contract_at(t, Seq::<bool>::empty()) == contract_root(t),
        t matches Tree::App(f, a) ==> contract_at(t, seq![false]) == match contract_root(*f) {
            Some(g) => Some(t_app(g, *a)),
            None => None,
        },
        t matches Tree::App(f, a) ==> contract_at(t, seq![true]) == match contract_root(*a) {
            Some(b) => Some(t_app(*f, b)),
            None => None,
        },
{
    reveal_with_fuel(contract_at, 3);
    assert(seq![false].drop_first() =~= Seq::<bool>::empty());
    assert(seq![true].drop_first() =~= Seq::<bool>::empty());
}

/// The rewrites of the optimizer, but for the one that gives `B*`, agree
/// with the rules of the combinators: applied to an argument `x`, the
/// pattern and its result can be rewritten to one and the same tree.
///
/// | pattern | result | both applied to `x` give |
/// |---|---|---|
/// | `S (K p) I` | `p` | `p x` |
/// | `S (K p) (K q)` | `K (p q)` | `p q` |
/// | `S (K p) q` | `B p q` | `p (q x)` |
/// | `S (B p q) (K r)` | `C' p q r` | `p (q x) r` |
/// | `S (B p q) r` | `S' p q r` | `p (q x) (r x)` |
/// | `S p (K q)` | `C p q` | `p x q` |
pub proof fn lemma_rewrites_agree(p: Tree, q: Tree, r: Tree, x: Tree)
    ensures
        joinable(
            t_app(t_app(t_app(t_const(Constant::S), t_app(t_const(Constant::K), p)), t_const(Constant::I)), x),
            t_app(p, x),
        ),
        joinable(
            t_app(
                t_app(
                    t_app(t_const(Constant::S), t_app(t_const(Constant::K), p)),
                    t_app(t_const(Constant::K), q),
                ),
                x,
            ),
            t_app(t_app(t_const(Constant::K), t_app(p, q)), x),
        ),
        joinable(
            t_app(t_app(t_app(t_const(Constant::S), t_app(t_const(Constant::K), p)), q), x),
            t_app(t_app(t_app(t_const(Constant::B), p), q), x),
        ),
        joinable(
            t_app(
                t_app(
                    t_app(t_const(Constant::S), t_app(t_app(t_const(Constant::B), p), q)),
                    t_app(t_const(Constant::K), r),
                ),
                x,
            ),
            t_app(t_app(t_app(t_app(t_const(Constant::Cp), p), q), r), x),
        ),
        joinable(
            t_app(
                t_app(t_app(t_const(Constant::S), t_app(t_app(t_const(Constant::B), p), q)), r),
                x,
            ),
            t_app(t_app(t_app(t_app(t_const(Constant::Sp), p), q), r), x),
        ),
        joinable(
            t_app(t_app(t_app(t_const(Constant::S), p), t_app(t_const(Constant::K), q)), x),
            t_app(t_app(t_app(t_const(Constant::C), p), q), x),
        ),
{
    let k = t_const(Constant::K);
    let s = t_const(Constant::S);
    let b = t_const(Constant::B);
    let root = Seq::<bool>::empty();
    let fun = seq![false];
    let arg = seq![true];
    let none = Seq::<Seq<bool>>::empty();
    // S (K p) I x  ->  K p x (I x)  ->  p (I x)  ->  p x
    {
        let t0 = t_app(t_app(t_app(s, t_app(k, p)), t_const(Constant::I)), x);
        let t1 = t_app(t_app(t_app(k, p), x), t_app(t_const(Constant::I), x));
        let t2 = t_app(p, t_app(t_const(Constant::I), x));
        let n = t_app(p, x);
        lemma_contract_places(t0);
        lemma_contract_places(t1);
        lemma_contract_places(t2);
        lemma_contract_three(t0, root, fun, arg, 3);
        assert(contract_all(t0, seq![root, fun, arg]) == Some(n));
        assert(contract_all(n, none) == Some(n));
        assert(reduces_to(t0, n) && reduces_to(n, n));
    }
    // S (K p) (K q) x  ->  K p x (K q x)  ->  p (K q x)  ->  p q  <-  K (p q) x
    {
        let t0 = t_app(t_app(t_app(s, t_app(k, p)), t_app(k, q)), x);
        let t1 = t_app(t_app(t_app(k, p), x), t_app(t_app(k, q), x));
        let t2 = t_app(p, t_app(t_app(k, q), x));
        let n = t_app(p, q);
        let u0 = t_app(t_app(k, n), x);
        lemma_contract_places(t0);
        lemma_contract_places(t1);
        lemma_contract_places(t2);
        lemma_contract_places(u0);
        lemma_contract_three(t0, root, fun, arg, 3);
        lemma_contract_three(u0, root, root, root, 1);
        assert(contract_all(t0, seq![root, fun, arg]) == Some(n));
        assert(contract_all(u0, seq![root]) == Some(n));
        assert(reduces_to(t0, n) && reduces_to(u0, n));
    }
    // S (K p) q x  ->  K p x (q x)  ->  p (q x)  <-  B p q x
    {
        let t0 = t_app(t_app(t_app(s, t_app(k, p)), q), x);
        let t1 = t_app(t_app(t_app(k, p), x), t_app(q, x));
        let n = t_app(p, t_app(q, x));
        let u0 = t_app(t_app(t_app(b, p), q), x);
        lemma_contract_places(t0);
        lemma_contract_places(t1);
        lemma_contract_places(u0);
        lemma_contract_three(t0, root, fun, root, 2);
        lemma_contract_three(u0, root, root, root, 1);
        assert(contract_all(t0, seq![root, fun]) == Some(n));
        assert(contract_all(u0, seq![root]) == Some(n));
        assert(reduces_to(t0, n) && reduces_to(u0, n));
    }
    // S (B p q) (K r) x  ->  B p q x (K r x)  ->  p (q x) (K r x)  ->  p (q x) r  <-  C' p q r x
    {
        let bpq = t_app(t_app(b, p), q);
        let t0 = t_app(t_app(t_app(s, bpq), t_app(k, r)), x);
        let t1 = t_app(t_app(bpq, x), t_app(t_app(k, r), x));
        let t2 = t_app(t_app(p, t_app(q, x)), t_app(t_app(k, r), x));
        let n = t_app(t_app(p, t_app(q, x)), r);
        let u0 = t_app(t_app(t_app(t_app(t_const(Constant::Cp), p), q), r), x);
        lemma_contract_places(t0);
        lemma_contract_places(t1);
        lemma_contract_places(t2);
        lemma_contract_places(u0);
        lemma_contract_three(t0, root, fun, arg, 3);
        lemma_contract_three(u0, root, root, root, 1);
        assert(contract_all(t0, seq![root, fun, arg]) == Some(n));
        assert(contract_all(u0, seq![root]) == Some(n));
        assert(reduces_to(t0, n) && reduces_to(u0, n));
    }
    // S (B p q) r x  ->  B p q x (r x)  ->  p (q x) (r x)  <-  S' p q r x
    {
        let bpq = t_app(t_app(b, p), q);
        let t0 = t_app(t_app(t_app(s, bpq), r), x);
        let t1 = t_app(t_app(bpq, x), t_app(r, x));
        let n = t_app(t_app(p, t_app(q, x)), t_app(r, x));
        let u0 = t_app(t_app(t_app(t_app(t_const(Constant::Sp), p), q), r), x);
        lemma_contract_places(t0);
        lemma_contract_places(t1);
        lemma_contract_places(u0);
        lemma_contract_three(t0, root, fun, root, 2);
        lemma_contract_three(u0, root, root, root, 1);
        assert(contract_all(t0, seq![root, fun]) == Some(n));
        assert(contract_all(u0, seq![root]) == Some(n));
        assert(reduces_to(t0, n) && reduces_to(u0, n));
    }
    // S p (K q) x  ->  p x (K q x)  ->  p x q  <-  C p q x
    {
        let t0 = t_app(t_app(t_app(s, p), t_app(k, q)), x);
        let t1 = t_app(t_app(p, x), t_app(t_app(k, q), x));
        let n = t_app(t_app(p, x), q);
        let u0 = t_app(t_app(t_app(t_const(Constant::C), p), q), x);
        lemma_contract_places(t0);
        lemma_contract_places(t1);
        lemma_contract_places(u0);
        lemma_contract_three(t0, root, arg, root, 2);
        lemma_contract_three(u0, root, root, root, 1);
        assert(contract_all(t0, seq![root, arg]) == Some(n));
        assert(contract_all(u0, seq![root]) == Some(n));
        assert(reduces_to(t0, n) && reduces_to(u0, n));
    }
}

/// Whether `symb` occurs free in the term under `term`.
pub fn is_free_in(heap: &Heap, symb: Symb, term: TermRef) -> (b: bool)
    requires
        heap.wf(),
        heap.valid(term),
    ensures
        b == free_in(symb, heap.tree(term)),
    decreases heap.tree(term).size(),
{
    match heap.get(term) {
        Term::Var(x) => x == symb,
        Term::Lam(x, t) => {
            if x == symb {
                false
            } else {
                is_free_in(heap, symb, t)
            }
        },
        Term::App(t1, t2) => is_free_in(heap, symb, t1) || is_free_in(heap, symb, t2),
        _ => false,
    }
}

/// Turns every abstraction under `term` into combinators.  The result
/// denotes the combinator form of the tree of `term`; every handle of the
/// store keeps its meaning.
pub fn compile_ski(heap: &mut Heap, term: TermRef) -> (r: TermRef)
    requires
        old(heap).wf(),
        old(heap).valid(term),
    ensures
        final(heap).wf(),
        final(heap).extends(old(heap)),
        final(heap).valid(r),
        final(heap).tree(r) == compile_tree(old(heap).tree(term)),
    decreases old(heap).tree(term).lam_count(), old(heap).tree(term).size(),
{
    match heap.get(term) {
        Term::App(t1, t2) => {
            let c1 = compile_ski(heap, t1);
            let c2 = compile_ski(heap, t2);
            app(heap, c1, c2)
        },
        Term::Lam(x, t) => {
            let ghost body = heap.tree(t);
            proof {
                lemma_compile_free(x, body);
                lemma_compile_lam_free(body);
            }
            if !is_free_in(heap, x, t) {
                let c = compile_ski(heap, t);
                app(heap, TermRef::Static(Constant::K), c)
            } else {
                match heap.get(t) {
                    Term::Lam(_, _) => {
                        let inner = compile_ski(heap, t);
                        let outer = lam(heap, x, inner);
                        proof {
                            reveal_with_fuel(Tree::lam_count, 3);
                            lemma_compile_fixed(compile_tree(body));
                            assert(t_lam(x, compile_tree(body)).lam_count() == 1);
                            assert(t_lam(x, body).lam_count() >= 2);
                        }
                        compile_ski(heap, outer)
                    },
                    Term::App(t1, t2) => {
                        let ghost b1 = heap.tree(t1);
                        let ghost b2 = heap.tree(t2);
                        proof {
                            reveal_with_fuel(Tree::lam_count, 3);
                            reveal_with_fuel(Tree::size, 3);
                            assert(body == t_app(b1, b2));
                            assert(t_lam(x, b1).lam_count() <= t_lam(x, body).lam_count());
                            assert(t_lam(x, b1).size() < t_lam(x, body).size());
                            assert(t_lam(x, b2).lam_count() <= t_lam(x, body).lam_count());
                            assert(t_lam(x, b2).size() < t_lam(x, body).size());
                        }
                        let l1 = lam(heap, x, t1);
                        let c1 = compile_ski(heap, l1);
                        let l2 = lam(heap, x, t2);
                        let c2 = compile_ski(heap, l2);
                        let s1 = app(heap, TermRef::Static(Constant::S), c1);
                        app(heap, s1, c2)
                    },
                    _ => TermRef::Static(Constant::I),
                }
            }
        },
        _ => term,
    }
}

/// The argument of `term`, where `term` is the constant `k` applied to one
/// argument.
fn head_arg(heap: &Heap, term: TermRef, k: Constant) -> (r: Option<TermRef>)
    requires
        heap.wf(),
        heap.valid(term),
    ensures
        match r {
            Some(a) => heap.valid(a) && headed(heap.tree(term), k) == Some(heap.tree(a)),
            None => headed(heap.tree(term), k) is None,
        },
{
    match heap.get(term) {
        Term::App(f, a) => {
            let _ = heap.get(f);
            if f == TermRef::Static(k) {
                Some(a)
            } else {
                None
            }
        },
        _ => None,
    }
}

/// The arguments of `term`, where `term` is the constant `k` applied to two
/// arguments.
fn head_args(heap: &Heap, term: TermRef, k: Constant) -> (r: Option<(TermRef, TermRef)>)
    requires
        heap.wf(),
        heap.valid(term),
    ensures
        match r {
            Some((a, b)) => heap.valid(a) && heap.valid(b) && headed2(heap.tree(term), k) == Some(
                (heap.tree(a), heap.tree(b)),
            ),
            None => headed2(heap.tree(term), k) is None,
        },
{
    match heap.get(term) {
        Term::App(f, b) => match head_arg(heap, f, k) {
            Some(a) => Some((a, b)),
            None => None,
        },
        _ => None,
    }
}

/// Allocates `k a b`.
fn app2(heap: &mut Heap, k: Constant, a: TermRef, b: TermRef) -> (r: TermRef)
    requires
        old(heap).wf(),
        old(heap).valid(a),
        old(heap).valid(b),
    ensures
        final(heap).wf(),
        final(heap).extends(old(heap)),
        final(heap).valid(r),
        final(heap).tree(r) == t_app(t_app(t_const(k), old(heap).tree(a)), old(heap).tree(b)),
{
    let ka = app(heap, TermRef::Static(k), a);
    app(heap, ka, b)
}

/// Allocates `k a b c`.
fn app3(heap: &mut Heap, k: Constant, a: TermRef, b: TermRef, c: TermRef) -> (r: TermRef)
    requires
        old(heap).wf(),
        old(heap).valid(a),
        old(heap).valid(b),
        old(heap).valid(c),
    ensures
        final(heap).wf(),
        final(heap).extends(old(heap)),
        final(heap).valid(r),
        final(heap).tree(r) == t_app(
            t_app(t_app(t_const(k), old(heap).tree(a)), old(heap).tree(b)),
            old(heap).tree(c),
        ),
{
    let kab = app2(heap, k, a, b);
    app(heap, kab, c)
}

/// One pass of the peephole optimizer over the term under `term`.  The
/// result denotes `optimize_tree` of the tree of `term`; every handle of the
/// store keeps its meaning.
pub fn optimize(heap: &mut Heap, term: TermRef) -> (r: TermRef)
    requires
        old(heap).wf(),
        old(heap).valid(term),
    ensures
        final(heap).wf(),
        final(heap).extends(old(heap)),
        final(heap).valid(r),
        final(heap).tree(r) == optimize_tree(old(heap).tree(term)),
    decreases old(heap).tree(term).size(),
{
    let ghost whole = heap.tree(term);
    proof {
        lemma_headed_sizes(whole, Constant::S);
    }
    match head_args(heap, term, Constant::S) {
        Some((arg1, arg2)) => {
            proof {
                lemma_headed_sizes(heap.tree(arg1), Constant::K);
                lemma_headed_sizes(heap.tree(arg1), Constant::B);
                lemma_headed_sizes(heap.tree(arg2), Constant::K);
                lemma_headed_sizes(heap.tree(arg2), Constant::B);
            }
            match head_arg(heap, arg1, Constant::K) {
                Some(p) => {
                    if arg2 == TermRef::Static(Constant::I) {
                        return optimize(heap, p);
                    }
                    let _ = heap.get(arg2);
                    match head_arg(heap, arg2, Constant::K) {
                        Some(q) => {
                            let pq = app(heap, p, q);
                            let opt = optimize(heap, pq);
                            app(heap, TermRef::Static(Constant::K), opt)
                        },
                        None => match head_args(heap, arg2, Constant::B) {
                            Some((q, r)) => {
                                let left = optimize(heap, p);
                                let mid = optimize(heap, q);
                                let right = optimize(heap, r);
                                app3(heap, Constant::Bs, left, mid, right)
                            },
                            None => {
                                let left = optimize(heap, p);
                                let mid = optimize(heap, arg2);
                                app2(heap, Constant::B, left, mid)
                            },
                        },
                    }
                },
                None => match head_args(heap, arg1, Constant::B) {
                    Some((p, q)) => {
                        let left = optimize(heap, p);
                        let mid = optimize(heap, q);
                        match head_arg(heap, arg2, Constant::K) {
                            Some(r) => {
                                let right = optimize(heap, r);
                                app3(heap, Constant::Cp, left, mid, right)
                            },
                            None => {
                                let right = optimize(heap, arg2);
                                app3(heap, Constant::Sp, left, mid, right)
                            },
                        }
                    },
                    None => {
                        let left = optimize(heap, arg1);
                        match head_arg(heap, arg2, Constant::K) {
                            Some(q) => {
                                let mid = optimize(heap, q);
                                app2(heap, Constant::C, left, mid)
                            },
                            None => {
                                let mid = optimize(heap, arg2);
                                app2(heap, Constant::S, left, mid)
                            },
                        }
                    },
                },
            }
        },
        None => match heap.get(term) {
            Term::App(t1, t2) => {
                let o1 = optimize(heap, t1);
                let o2 = optimize(heap, t2);
                app(heap, o1, o2)
            },
            _ => term,
        },
    }
}

} // verus!
