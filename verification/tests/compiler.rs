use ski_machine::compile::{compile_ski, is_free_in, optimize};
use ski_machine::eval::Task;
use ski_machine::heap::Heap;
use ski_machine::parser::{parse_term, read_command, Command, Parser};
use ski_machine::symbol::{Dict, Interner, Symb};
use ski_machine::term::{app, dint, lam, term_eq, var, Constant, Term, TermRef};

fn konst(k: Constant) -> TermRef {
    TermRef::Static(k)
}

fn read(heap: &mut Heap, interner: &mut Interner, text: &str) -> TermRef {
    let mut par = Parser::new(text.to_string());
    match read_command(&mut par, heap, interner) {
        Some(Command::Repl(t)) => t,
        _ => panic!("no term in {}", text),
    }
}

fn compiled(heap: &mut Heap, interner: &mut Interner, text: &str) -> TermRef {
    let t = read(heap, interner, text);
    let c = compile_ski(heap, t);
    optimize(heap, c)
}

fn value(heap: &mut Heap, t: TermRef) -> Term {
    let dict = Dict::new();
    let mut task = Task::new(t);
    let r = task.eval(heap, &dict, 10_000).expect("finished").expect("no fault");
    heap.get(r)
}

#[test]
fn identity_compiles_to_i() {
    let mut heap = Heap::new();
    let mut interner = Interner::new();
    let c = compiled(&mut heap, &mut interner, "\\x. x");
    assert_eq!(c, konst(Constant::I));
}

#[test]
fn first_projection_compiles_to_k() {
    let mut heap = Heap::new();
    let mut interner = Interner::new();
    let c = compiled(&mut heap, &mut interner, "\\x. \\y. x");
    assert_eq!(c, konst(Constant::K));
}

#[test]
fn the_s_abstraction_compiles_to_a_tree_that_acts_as_s() {
    let mut heap = Heap::new();
    let mut interner = Interner::new();
    let c = compiled(&mut heap, &mut interner, "\\f. \\g. \\x. f x (g x)");
    // One pass of the optimizer leaves a tree headed by `C`, not the bare `S`.
    assert_ne!(c, konst(Constant::S));
    let again = compiled(&mut heap, &mut interner, "\\f. \\g. \\x. f x (g x)");
    assert!(term_eq(&heap, c, again));
    // Applied to three arguments it does what `S` does.
    let plus = app(&mut heap, konst(Constant::E2), konst(Constant::AddI));
    let three = dint(&mut heap, 3);
    let t = app(&mut heap, c, plus);
    let t = app(&mut heap, t, konst(Constant::I));
    let t = app(&mut heap, t, three);
    assert_eq!(value(&mut heap, t), Term::DInt(6));
    let s = app(&mut heap, konst(Constant::S), plus);
    let s = app(&mut heap, s, konst(Constant::I));
    let s = app(&mut heap, s, three);
    assert_eq!(value(&mut heap, s), Term::DInt(6));
}

#[test]
fn adding_one_compiles_to_the_same_tree_every_time() {
    let mut heap = Heap::new();
    let mut interner = Interner::new();
    let first = compiled(&mut heap, &mut interner, "\\x. + 1 x");
    let second = compiled(&mut heap, &mut interner, "\\x. + 1 x");
    assert!(term_eq(&heap, first, second));
    // `S (K (+ 1)) I` is rewritten to `+ 1`.
    let plus = app(&mut heap, konst(Constant::E2), konst(Constant::AddI));
    let one = dint(&mut heap, 1);
    let expected = app(&mut heap, plus, one);
    assert!(term_eq(&heap, first, expected));
}

#[test]
fn compile_follows_bracket_abstraction() {
    let mut heap = Heap::new();
    let mut interner = Interner::new();
    let x = Symb::new(&mut interner, "x").unwrap();
    let y = Symb::new(&mut interner, "y").unwrap();
    let vx = var(&mut heap, x);
    let vy = var(&mut heap, y);
    // \x. y  =>  K y
    let t = lam(&mut heap, x, vy);
    let c = compile_ski(&mut heap, t);
    let expected = app(&mut heap, konst(Constant::K), vy);
    assert!(term_eq(&heap, c, expected));
    // \x. x y  =>  S I (K y)
    let xy = app(&mut heap, vx, vy);
    let t = lam(&mut heap, x, xy);
    let c = compile_ski(&mut heap, t);
    let si = app(&mut heap, konst(Constant::S), konst(Constant::I));
    let ky = app(&mut heap, konst(Constant::K), vy);
    let expected = app(&mut heap, si, ky);
    assert!(term_eq(&heap, c, expected));
    // \x. \y. y  =>  K I
    let inner = lam(&mut heap, y, vy);
    let t = lam(&mut heap, x, inner);
    let c = compile_ski(&mut heap, t);
    let expected = app(&mut heap, konst(Constant::K), konst(Constant::I));
    assert!(term_eq(&heap, c, expected));
    // A term without abstraction keeps its shape.
    let c = compile_ski(&mut heap, xy);
    assert!(term_eq(&heap, c, xy));
    assert_eq!(compile_ski(&mut heap, vx), vx);
}

#[test]
fn free_variables_are_found_outside_their_binders() {
    let mut heap = Heap::new();
    let mut interner = Interner::new();
    let x = Symb::new(&mut interner, "x").unwrap();
    let y = Symb::new(&mut interner, "y").unwrap();
    let t = parse_term("(\\x. x y)", &mut heap, &mut interner).unwrap();
    assert!(!is_free_in(&heap, x, t));
    assert!(is_free_in(&heap, y, t));
    let u = parse_term("((\\x. x) x)", &mut heap, &mut interner).unwrap();
    assert!(is_free_in(&heap, x, u));
    assert!(!is_free_in(&heap, y, konst(Constant::S)));
}

fn s2(heap: &mut Heap, a: TermRef, b: TermRef) -> TermRef {
    let s = app(heap, konst(Constant::S), a);
    app(heap, s, b)
}

fn k1(heap: &mut Heap, a: TermRef) -> TermRef {
    app(heap, konst(Constant::K), a)
}

fn b2(heap: &mut Heap, a: TermRef, b: TermRef) -> TermRef {
    let t = app(heap, konst(Constant::B), a);
    app(heap, t, b)
}

fn headed(heap: &mut Heap, k: Constant, args: &[TermRef]) -> TermRef {
    let mut t = konst(k);
    for a in args {
        t = app(heap, t, *a);
    }
    t
}

#[test]
fn each_rewrite_of_the_optimizer_gives_its_result() {
    let mut heap = Heap::new();
    let p = dint(&mut heap, 1);
    let q = dint(&mut heap, 2);
    let r = dint(&mut heap, 3);
    let i = konst(Constant::I);
    // S (K p) I = p
    let kp = k1(&mut heap, p);
    let t = s2(&mut heap, kp, i);
    let o = optimize(&mut heap, t);
    assert!(term_eq(&heap, o, p));
    // S (K p) (K q) = K (p q)
    let kq = k1(&mut heap, q);
    let t = s2(&mut heap, kp, kq);
    let o = optimize(&mut heap, t);
    let pq = app(&mut heap, p, q);
    let e = k1(&mut heap, pq);
    assert!(term_eq(&heap, o, e));
    // S (K p) (B q r) = B* p q r
    let bqr = b2(&mut heap, q, r);
    let t = s2(&mut heap, kp, bqr);
    let o = optimize(&mut heap, t);
    let e = headed(&mut heap, Constant::Bs, &[p, q, r]);
    assert!(term_eq(&heap, o, e));
    // S (K p) q = B p q
    let t = s2(&mut heap, kp, q);
    let o = optimize(&mut heap, t);
    let e = headed(&mut heap, Constant::B, &[p, q]);
    assert!(term_eq(&heap, o, e));
    // S (B p q) (K r) = C' p q r
    let bpq = b2(&mut heap, p, q);
    let kr = k1(&mut heap, r);
    let t = s2(&mut heap, bpq, kr);
    let o = optimize(&mut heap, t);
    let e = headed(&mut heap, Constant::Cp, &[p, q, r]);
    assert!(term_eq(&heap, o, e));
    // S (B p q) r = S' p q r, also where r is no application
    let t = s2(&mut heap, bpq, r);
    let o = optimize(&mut heap, t);
    let e = headed(&mut heap, Constant::Sp, &[p, q, r]);
    assert!(term_eq(&heap, o, e));
    let t = s2(&mut heap, bpq, i);
    let o = optimize(&mut heap, t);
    let e = headed(&mut heap, Constant::Sp, &[p, q, i]);
    assert!(term_eq(&heap, o, e));
    // S p (K q) = C p q
    let t = s2(&mut heap, p, kq);
    let o = optimize(&mut heap, t);
    let e = headed(&mut heap, Constant::C, &[p, q]);
    assert!(term_eq(&heap, o, e));
    // S p q is kept
    let t = s2(&mut heap, p, q);
    let o = optimize(&mut heap, t);
    assert!(term_eq(&heap, o, t));
    // anything else is left alone
    assert_eq!(optimize(&mut heap, p), p);
    assert_eq!(optimize(&mut heap, i), i);
}

#[test]
fn the_parts_of_a_rewrite_are_optimized_in_turn() {
    let mut heap = Heap::new();
    let a = dint(&mut heap, 1);
    let q = dint(&mut heap, 2);
    let i = konst(Constant::I);
    // S (K (S (K a) I)) q = B (S (K a) I) q, whose first part becomes a
    let ka = k1(&mut heap, a);
    let inner = s2(&mut heap, ka, i);
    let kinner = k1(&mut heap, inner);
    let t = s2(&mut heap, kinner, q);
    let o = optimize(&mut heap, t);
    let e = headed(&mut heap, Constant::B, &[a, q]);
    assert!(term_eq(&heap, o, e));
    // below another head both children are optimized
    let t = app(&mut heap, inner, inner);
    let o = optimize(&mut heap, t);
    let e = app(&mut heap, a, a);
    assert!(term_eq(&heap, o, e));
}

#[test]
fn a_second_pass_changes_nothing_where_no_pattern_is_left() {
    let mut heap = Heap::new();
    let mut interner = Interner::new();
    for text in ["\\x. x", "\\x. \\y. x", "\\x. + 1 x", "\\f. \\g. \\x. f x (g x)", "(\\x. + x x) 7"] {
        let once = compiled(&mut heap, &mut interner, text);
        let twice = optimize(&mut heap, once);
        assert!(term_eq(&heap, once, twice), "{}", text);
    }
}

#[test]
fn a_second_pass_can_rewrite_what_the_first_pass_built() {
    let mut heap = Heap::new();
    // (S (K S) I) (K p) I  becomes  S (K p) I, which a second pass turns into p.
    let p = dint(&mut heap, 1);
    let i = konst(Constant::I);
    let ks = k1(&mut heap, konst(Constant::S));
    let head = s2(&mut heap, ks, i);
    let kp = k1(&mut heap, p);
    let t = app(&mut heap, head, kp);
    let t = app(&mut heap, t, i);
    let once = optimize(&mut heap, t);
    let expected = s2(&mut heap, kp, i);
    assert!(term_eq(&heap, once, expected));
    let twice = optimize(&mut heap, once);
    assert!(term_eq(&heap, twice, p));
}
