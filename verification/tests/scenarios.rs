use ski_machine::compile::{compile_ski, optimize};
use ski_machine::eval::{EvalError, Task};
use ski_machine::heap::Heap;
use ski_machine::parser::{read_command, Command, Parser};
use ski_machine::symbol::{define, Dict, Interner, Symb};
use ski_machine::term::{Term, TermRef};

struct World {
    heap: Heap,
    dict: Dict,
    interner: Interner,
}

fn world() -> World {
    World { heap: Heap::new(), dict: Dict::new(), interner: Interner::new() }
}

fn read(w: &mut World, text: &str) -> TermRef {
    let mut par = Parser::new(text.to_string());
    match read_command(&mut par, &mut w.heap, &mut w.interner) {
        Some(Command::Repl(t)) => t,
        _ => panic!("no term in {}", text),
    }
}

fn run(w: &mut World, text: &str) -> Result<Term, EvalError> {
    let parsed = read(w, text);
    let compiled = compile_ski(&mut w.heap, parsed);
    let optimized = optimize(&mut w.heap, compiled);
    let mut task = Task::new(optimized);
    for _ in 0..1000 {
        match task.eval(&mut w.heap, &w.dict, 256) {
            Some(Ok(r)) => {
                assert!(task.is_balanced());
                return Ok(w.heap.get(r));
            }
            Some(Err(e)) => return Err(e),
            None => {}
        }
    }
    panic!("{} did not finish", text);
}

#[test]
fn adds_two_and_three() {
    let mut w = world();
    assert_eq!(run(&mut w, "+ 2 3"), Ok(Term::DInt(5)));
}

#[test]
fn takes_the_first_branch_when_the_condition_holds() {
    let mut w = world();
    assert_eq!(run(&mut w, "if (> 3 2) 10 20"), Ok(Term::DInt(10)));
}

#[test]
fn takes_the_second_branch_when_the_condition_fails() {
    let mut w = world();
    assert_eq!(run(&mut w, "if (= 1 2) 10 20"), Ok(Term::DInt(20)));
}

#[test]
fn doubles_seven() {
    let mut w = world();
    assert_eq!(run(&mut w, "(\\x. + x x) 7"), Ok(Term::DInt(14)));
}

#[test]
fn applies_a_successor_twice() {
    let mut w = world();
    assert_eq!(run(&mut w, "(\\f. \\x. f (f x)) (\\y. + y 1) 5"), Ok(Term::DInt(7)));
}

#[test]
fn division_by_zero_is_a_fault() {
    let mut w = world();
    assert_eq!(run(&mut w, "/ 10 0"), Err(EvalError::DivideByZero));
}

#[test]
fn subtracts_multiplies_and_divides_in_argument_order() {
    let mut w = world();
    assert_eq!(run(&mut w, "- 5 3"), Ok(Term::DInt(2)));
    assert_eq!(run(&mut w, "* 6 7"), Ok(Term::DInt(42)));
    assert_eq!(run(&mut w, "/ 7 2"), Ok(Term::DInt(3)));
    assert_eq!(run(&mut w, "/ (- 0 7) 2"), Ok(Term::DInt(-3)));
    assert_eq!(run(&mut w, "< 1 2"), Ok(Term::DBool(true)));
    assert_eq!(run(&mut w, "> 1 2"), Ok(Term::DBool(false)));
    assert_eq!(run(&mut w, "= 4 4"), Ok(Term::DBool(true)));
}

#[test]
fn integer_arithmetic_wraps() {
    let mut w = world();
    assert_eq!(run(&mut w, "+ 9223372036854775807 1"), Ok(Term::DInt(i64::MIN)));
    assert_eq!(run(&mut w, "* 9223372036854775807 2"), Ok(Term::DInt(-2)));
    assert_eq!(
        run(&mut w, "/ (- (- 0 9223372036854775807) 1) (- 0 1)"),
        Ok(Term::DInt(i64::MIN))
    );
}

#[test]
fn nested_eager_arguments_are_forced() {
    let mut w = world();
    assert_eq!(run(&mut w, "+ (* 2 3) (- 10 (+ 1 2))"), Ok(Term::DInt(13)));
    assert_eq!(run(&mut w, "if (< (+ 1 1) 3) (+ 1 2) (/ 1 0)"), Ok(Term::DInt(3)));
}

#[test]
fn the_branch_not_taken_is_not_evaluated() {
    let mut w = world();
    assert_eq!(run(&mut w, "if (> 3 2) 1 (/ 1 0)"), Ok(Term::DInt(1)));
}

#[test]
fn and_and_or_take_two_booleans() {
    let mut w = world();
    assert_eq!(run(&mut w, "and (> 2 1) (> 1 2)"), Ok(Term::DBool(false)));
    assert_eq!(run(&mut w, "and (> 2 1) (> 3 2)"), Ok(Term::DBool(true)));
    assert_eq!(run(&mut w, "or (> 1 2) (> 3 2)"), Ok(Term::DBool(true)));
    assert_eq!(run(&mut w, "or (> 1 2) (> 1 2)"), Ok(Term::DBool(false)));
    assert_eq!(run(&mut w, "and 1 (> 1 2)"), Err(EvalError::TypeMismatch));
}

#[test]
fn a_primitive_on_the_wrong_kind_is_a_fault() {
    let mut w = world();
    assert_eq!(run(&mut w, "+ 1 (> 2 1)"), Err(EvalError::TypeMismatch));
    assert_eq!(run(&mut w, "if 1 2 3"), Err(EvalError::TypeMismatch));
}

#[test]
fn an_applied_literal_is_a_fault() {
    let mut w = world();
    assert_eq!(run(&mut w, "1 2"), Err(EvalError::NotAFunction));
}

#[test]
fn a_variable_without_definition_is_a_fault() {
    let mut w = world();
    let x = Symb::new(&mut w.interner, "nowhere").unwrap();
    assert_eq!(run(&mut w, "+ nowhere 1"), Err(EvalError::UnboundSymbol(x)));
}

#[test]
fn a_head_without_arguments_is_stuck() {
    let mut w = world();
    assert_eq!(run(&mut w, "K 1"), Err(EvalError::Stuck));
}

#[test]
fn a_stuck_argument_is_returned_as_it_is() {
    let mut w = world();
    // The second operand reduces to `K 1`, which is no integer.
    assert_eq!(run(&mut w, "+ 1 (K 1)"), Err(EvalError::TypeMismatch));
    // A partial application passed through an eager marker still applies.
    assert_eq!(run(&mut w, "(\\f. f 2 3) +"), Ok(Term::DInt(5)));
}

#[test]
fn combinators_reduce_as_defined() {
    let mut w = world();
    assert_eq!(run(&mut w, "I 4"), Ok(Term::DInt(4)));
    assert_eq!(run(&mut w, "K 4 5"), Ok(Term::DInt(4)));
    assert_eq!(run(&mut w, "S + I 3"), Ok(Term::DInt(6)));
    assert_eq!(run(&mut w, "B (+ 1) (* 2) 5"), Ok(Term::DInt(11)));
    assert_eq!(run(&mut w, "C - 1 10"), Ok(Term::DInt(9)));
    assert_eq!(run(&mut w, "S' + (* 2) (* 3) 4"), Ok(Term::DInt(20)));
    assert_eq!(run(&mut w, "B* + 1 (* 2) 5"), Ok(Term::DInt(11)));
    assert_eq!(run(&mut w, "C' + (* 2) 1 5"), Ok(Term::DInt(11)));
}

#[test]
fn a_semicolon_opens_the_last_argument() {
    let mut w = world();
    assert_eq!(run(&mut w, "(+ 1; * 2 3)"), Ok(Term::DInt(7)));
}

#[test]
fn a_definition_is_looked_up_when_reached() {
    let mut w = world();
    let inc = Symb::new(&mut w.interner, "inc").unwrap();
    assert_eq!(
        define(&mut w.dict, &mut w.heap, &mut w.interner, inc, "(\\x. + x 1)".to_string()),
        Ok(())
    );
    assert_eq!(run(&mut w, "inc (inc 5)"), Ok(Term::DInt(7)));
}

#[test]
fn a_recursive_definition_runs_over_many_slices() {
    let mut w = world();
    let sum = Symb::new(&mut w.interner, "sum").unwrap();
    assert_eq!(
        define(
            &mut w.dict,
            &mut w.heap,
            &mut w.interner,
            sum,
            "(\\n. if (= n 0) 0 (+ n (sum (- n 1))))".to_string()
        ),
        Ok(())
    );
    assert_eq!(run(&mut w, "sum 100"), Ok(Term::DInt(5050)));
}

#[test]
fn three_nested_calls_under_an_abstraction_keep_their_grouping() {
    let mut w = world();
    assert_eq!(run(&mut w, "(\\x. + 1 (* 2 (+ 3 x))) 4"), Ok(Term::DInt(15)));
    assert_eq!(run(&mut w, "(\\x. + 1 (* 2 x)) 4"), Ok(Term::DInt(9)));
}

#[test]
fn the_b_star_rewrite_regroups_a_written_b() {
    let mut w = world();
    let text = "S (K (+ 1)) (B (* 2) (+ 3)) 4";
    // As written, the term reduces to 1 + 2 * (3 + 4).
    let parsed = read(&mut w, text);
    let mut task = Task::new(parsed);
    let r = task.eval(&mut w.heap, &w.dict, 10_000).expect("finished").expect("no fault");
    assert_eq!(w.heap.get(r), Term::DInt(15));
    // The optimizer turns it into `B* (+ 1) (* 2) (+ 3) 4`, which the machine
    // reduces to `(+ 1) (* 2) (+ 3 4)`.
    assert_eq!(run(&mut w, text), Err(EvalError::TypeMismatch));
}

#[test]
fn a_reserved_term_is_not_reduced() {
    let mut w = world();
    for k in [
        ski_machine::term::Constant::Alloc,
        ski_machine::term::Constant::Free,
        ski_machine::term::Constant::Load,
        ski_machine::term::Constant::Save,
    ] {
        let mut task = Task::new(TermRef::Static(k));
        assert_eq!(task.eval(&mut w.heap, &w.dict, 10), Some(Err(EvalError::UnknownTerm)));
    }
    let array = ski_machine::heap::term_alloc(&mut w.heap, Term::Array(2, 0));
    let mut task = Task::new(array);
    assert_eq!(task.eval(&mut w.heap, &w.dict, 10), Some(Err(EvalError::UnknownTerm)));
    let e0 = ski_machine::term::eager(&mut w.heap, 0);
    let mut task = Task::new(e0);
    assert_eq!(task.eval(&mut w.heap, &w.dict, 10), Some(Err(EvalError::UnknownTerm)));
}

#[test]
fn negation_takes_one_boolean() {
    let mut w = world();
    let e1 = TermRef::Static(ski_machine::term::Constant::E1);
    let not = TermRef::Static(ski_machine::term::Constant::Not);
    let forced = ski_machine::term::app(&mut w.heap, e1, not);
    let arg = read(&mut w, "(> 1 2)");
    let t = ski_machine::term::app(&mut w.heap, forced, arg);
    let mut task = Task::new(t);
    let r = task.eval(&mut w.heap, &w.dict, 100).unwrap().unwrap();
    assert_eq!(w.heap.get(r), Term::DBool(true));
    let seven = ski_machine::term::dint(&mut w.heap, 7);
    let t = ski_machine::term::app(&mut w.heap, forced, seven);
    let mut task = Task::new(t);
    assert_eq!(task.eval(&mut w.heap, &w.dict, 100), Some(Err(EvalError::TypeMismatch)));
    // As it is read, `not` stands under the marker for two arguments.
    assert_eq!(run(&mut w, "not (> 1 2)"), Err(EvalError::Stuck));
}

#[test]
fn characters_and_reals_are_literals() {
    let mut w = world();
    let c = ski_machine::term::dchar(&mut w.heap, 'x');
    let mut task = Task::new(c);
    let r = task.eval(&mut w.heap, &w.dict, 10).unwrap().unwrap();
    assert_eq!(w.heap.get(r), Term::DChar('x'));
    let bits = 2.5f64.to_bits();
    let x = ski_machine::term::dreal(&mut w.heap, bits);
    let k = TermRef::Static(ski_machine::term::Constant::K);
    let t = ski_machine::term::app(&mut w.heap, k, x);
    let t = ski_machine::term::app(&mut w.heap, t, c);
    let mut task = Task::new(t);
    let r = task.eval(&mut w.heap, &w.dict, 10).unwrap().unwrap();
    assert_eq!(w.heap.get(r), Term::DReal(bits));
    let t = ski_machine::term::app(&mut w.heap, x, c);
    let mut task = Task::new(t);
    assert_eq!(task.eval(&mut w.heap, &w.dict, 10), Some(Err(EvalError::NotAFunction)));
}

#[test]
fn a_slice_that_runs_out_leaves_the_task_to_go_on() {
    let mut w = world();
    let parsed = read(&mut w, "+ (* 2 3) (- 10 (+ 1 2))");
    let mut task = Task::new(parsed);
    let mut slices = 0;
    let r = loop {
        match task.eval(&mut w.heap, &w.dict, 1) {
            Some(r) => break r,
            None => slices += 1,
        }
        assert!(slices < 1000);
    };
    assert_eq!(w.heap.get(r.unwrap()), Term::DInt(13));
    let mut again = Task::new(parsed);
    let mut steps = 0;
    while again.step(&mut w.heap, &w.dict).is_none() {
        steps += 1;
    }
    assert_eq!(steps, slices);
}

#[test]
fn an_eager_marker_above_four_forces_all_its_arguments() {
    let mut w = world();
    // E5 f a b c d e forces the five arguments after f, the last first.
    let e5 = ski_machine::term::eager(&mut w.heap, 5);
    assert_eq!(w.heap.get(e5), Term::E(5));
    let f = read(&mut w, "(\\a. \\b. \\c. \\d. \\e. + a (+ b (+ c (+ d e))))");
    let mut t = ski_machine::term::app(&mut w.heap, e5, f);
    for text in ["(+ 1 0)", "(+ 2 0)", "(+ 3 0)", "(+ 4 0)", "(+ 5 0)"] {
        let a = read(&mut w, text);
        t = ski_machine::term::app(&mut w.heap, t, a);
    }
    let c = compile_ski(&mut w.heap, t);
    let mut task = Task::new(c);
    let r = task.eval(&mut w.heap, &w.dict, 10_000).unwrap().unwrap();
    assert_eq!(w.heap.get(r), Term::DInt(15));
}
