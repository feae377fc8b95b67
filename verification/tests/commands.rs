use ski_machine::eval::EvalError;
use ski_machine::heap::Heap;
use ski_machine::parser::Command;
use ski_machine::repl::{
    command_line, execute, launch, split_commands, trim_text, Reply, Runtime, FIRST_SLICE,
};
use ski_machine::symbol::{lookup, DictError, Interner, Symb};
use ski_machine::task::fetch_task;
use ski_machine::term::{app, binders, dint, lam, spine, var, Constant, Term, TermRef};

fn line(rt: &mut Runtime, text: &str) -> Reply {
    command_line(rt, text.to_string())
}

fn value(rt: &Runtime, reply: Reply) -> Result<Term, EvalError> {
    match reply {
        Reply::Ran(_, l) => match l.outcome {
            Some(Ok(r)) => Ok(rt.heap.get(r)),
            Some(Err(e)) => Err(e),
            None => panic!("sent to the pool"),
        },
        _ => panic!("no term was run"),
    }
}

#[test]
fn a_blank_line_does_nothing() {
    let mut rt = Runtime::new();
    assert!(matches!(line(&mut rt, ""), Reply::Nothing));
    assert!(matches!(line(&mut rt, "  \t \n"), Reply::Nothing));
    assert_eq!(rt.pool.waiting(), 0);
}

#[test]
fn a_line_is_trimmed_before_it_is_read() {
    let mut rt = Runtime::new();
    assert!(matches!(line(&mut rt, "  :quit \n"), Reply::Quit));
    assert!(matches!(line(&mut rt, "\t:dict"), Reply::Listing(_)));
}

#[test]
fn a_line_that_is_no_command_is_unreadable() {
    let mut rt = Runtime::new();
    assert!(matches!(line(&mut rt, ":frobnicate"), Reply::Unreadable));
    assert!(matches!(line(&mut rt, "(+ 1"), Reply::Unreadable));
    assert!(matches!(line(&mut rt, ":delete"), Reply::Unreadable));
}

#[test]
fn a_term_is_launched_and_its_value_reported() {
    let mut rt = Runtime::new();
    let r = line(&mut rt, "+ 2 3");
    assert_eq!(value(&rt, r), Ok(Term::DInt(5)));
    let r = line(&mut rt, "/ 10 0");
    assert_eq!(value(&rt, r), Err(EvalError::DivideByZero));
    assert_eq!(rt.pool.waiting(), 0);
}

#[test]
fn the_dictionary_is_changed_by_commands() {
    let mut rt = Runtime::new();
    let two = Symb::new(&mut rt.interner, "two").unwrap();
    assert!(matches!(line(&mut rt, ":define two (+ 1 1)"), Reply::Defined(s) if s == two));
    assert!(matches!(
        line(&mut rt, ":define two 3"),
        Reply::NotDefined(s, DictError::Exists) if s == two
    ));
    let r = line(&mut rt, "* two two");
    assert_eq!(value(&rt, r), Ok(Term::DInt(4)));
    assert!(matches!(line(&mut rt, ":update two 3"), Reply::Updated(s) if s == two));
    let r = line(&mut rt, "* two two");
    assert_eq!(value(&rt, r), Ok(Term::DInt(9)));
    assert!(matches!(
        line(&mut rt, ":update three 3"),
        Reply::NotUpdated(_, DictError::Missing)
    ));
    assert!(matches!(line(&mut rt, ":update two )"), Reply::NotUpdated(_, DictError::Parse)));
    assert!(matches!(line(&mut rt, ":define bad )"), Reply::NotDefined(_, DictError::Parse)));
    match line(&mut rt, ":dict") {
        Reply::Listing(v) => assert_eq!(v, vec![two]),
        _ => panic!(),
    }
    assert!(matches!(line(&mut rt, ":delete two"), Reply::Deleted(s) if s == two));
    assert!(matches!(line(&mut rt, ":delete two"), Reply::NotDeleted(s) if s == two));
    assert_eq!(lookup(&rt.dict, two), None);
    let r = line(&mut rt, "* two two");
    assert_eq!(value(&rt, r), Err(EvalError::UnboundSymbol(two)));
}

#[test]
fn a_load_is_handed_to_the_caller() {
    let mut rt = Runtime::new();
    match line(&mut rt, ":load  lib/prelude.nrm ") {
        Reply::Load(path) => assert_eq!(path, "lib/prelude.nrm"),
        _ => panic!(),
    }
    match execute(&mut rt, Command::Load("x".to_string())) {
        Reply::Load(path) => assert_eq!(path, "x"),
        _ => panic!(),
    }
    assert!(matches!(execute(&mut rt, Command::Quit), Reply::Quit));
}

#[test]
fn a_long_task_goes_to_the_pool_after_its_first_slice() {
    let mut rt = Runtime::new();
    let body = ":define sum (\\n. if (= n 0) 0 (+ n (sum (- n 1))))";
    assert!(matches!(line(&mut rt, body), Reply::Defined(_)));
    match line(&mut rt, "sum 50") {
        Reply::Ran(_, l) => assert!(l.outcome.is_none()),
        _ => panic!(),
    }
    assert_eq!(rt.pool.waiting(), 1);
    let mut task = fetch_task(&mut rt.pool).unwrap();
    let mut slices = 1;
    let r = loop {
        match task.eval(&mut rt.heap, &rt.dict, FIRST_SLICE) {
            Some(r) => break r,
            None => slices += 1,
        }
    };
    assert!(slices > 1);
    assert_eq!(rt.heap.get(r.unwrap()), Term::DInt(1275));
}

#[test]
fn launch_reports_the_compiled_forms() {
    let mut rt = Runtime::new();
    let x = Symb::new(&mut rt.interner, "x").unwrap();
    let vx = var(&mut rt.heap, x);
    let id = lam(&mut rt.heap, x, vx);
    let seven = dint(&mut rt.heap, 7);
    let t = app(&mut rt.heap, id, seven);
    let l = launch(&mut rt, t);
    assert_eq!(rt.heap.get(l.compiled), Term::App(TermRef::Static(Constant::I), seven));
    assert_eq!(rt.heap.get(l.outcome.unwrap().unwrap()), Term::DInt(7));
}

#[test]
fn a_file_is_split_at_double_semicolons() {
    assert_eq!(split_commands(""), vec![""]);
    assert_eq!(split_commands("a"), vec!["a"]);
    assert_eq!(split_commands("a;;b"), vec!["a", "b"]);
    assert_eq!(split_commands("a;b;;c;"), vec!["a;b", "c;"]);
    assert_eq!(split_commands(";;"), vec!["", ""]);
    assert_eq!(split_commands(";;;"), vec!["", ";"]);
    assert_eq!(split_commands(";;;;"), vec!["", "", ""]);
    assert_eq!(
        split_commands(":define é 1;;\n+ é 1 ;;"),
        vec![":define é 1", "\n+ é 1 ", ""]
    );
    let text = "x;;y;;;;z;";
    let expected: Vec<String> = text.split(";;").map(|s| s.to_string()).collect();
    assert_eq!(split_commands(text), expected);
}

#[test]
fn an_application_is_listed_head_first() {
    let mut heap = Heap::new();
    let a = dint(&mut heap, 1);
    let b = dint(&mut heap, 2);
    let c = dint(&mut heap, 3);
    let s = TermRef::Static(Constant::S);
    let t = app(&mut heap, s, a);
    let t = app(&mut heap, t, b);
    let bc = app(&mut heap, b, c);
    let t = app(&mut heap, t, bc);
    assert_eq!(spine(&heap, t), vec![s, a, b, bc]);
    assert_eq!(spine(&heap, a), vec![a]);
    assert_eq!(spine(&heap, bc), vec![b, c]);
}

#[test]
fn an_abstraction_is_listed_with_all_its_binders() {
    let mut heap = Heap::new();
    let mut interner = Interner::new();
    let x = Symb::new(&mut interner, "x").unwrap();
    let y = Symb::new(&mut interner, "y").unwrap();
    let vx = var(&mut heap, x);
    let inner = lam(&mut heap, y, vx);
    let outer = lam(&mut heap, x, inner);
    assert_eq!(binders(&heap, outer), (vec![x, y], vx));
    assert_eq!(binders(&heap, inner), (vec![y], vx));
    assert_eq!(binders(&heap, vx), (vec![], vx));
}

#[test]
fn a_task_shows_its_stack_from_the_top() {
    let mut rt = Runtime::new();
    let mut task = {
        let plus = app(&mut rt.heap, TermRef::Static(Constant::E2), TermRef::Static(Constant::AddI));
        let one = dint(&mut rt.heap, 1);
        let two = dint(&mut rt.heap, 2);
        let t = app(&mut rt.heap, plus, one);
        let t = app(&mut rt.heap, t, two);
        ski_machine::eval::Task::new(t)
    };
    assert!(task.is_balanced());
    assert_eq!(task.arguments(), 0);
    // Three steps unwind the spine; the fourth suspends the frame.
    for _ in 0..3 {
        assert!(task.step(&mut rt.heap, &rt.dict).is_none());
    }
    assert_eq!(task.focus(), TermRef::Static(Constant::E2));
    assert_eq!(task.arguments(), 3);
    assert_eq!(task.frames(), Vec::<usize>::new());
    let top: Vec<Term> = task.entries().iter().map(|r| rt.heap.get(*r)).collect();
    assert_eq!(top, vec![Term::AddI, Term::DInt(1), Term::DInt(2)]);
    assert!(task.step(&mut rt.heap, &rt.dict).is_none());
    assert_eq!(rt.heap.get(task.focus()), Term::DInt(2));
    assert_eq!(task.arguments(), 0);
    assert_eq!(task.frames(), vec![4]);
    assert_eq!(task.entries().len(), 4);
    assert_eq!(task.entries()[0], TermRef::Static(Constant::E2));
    assert_eq!(task.returned(), None);
    // The literal returns to the marker, which takes the value up.
    assert!(task.step(&mut rt.heap, &rt.dict).is_none());
    assert_eq!(task.focus(), TermRef::Static(Constant::E2));
    assert_eq!(rt.heap.get(task.returned().unwrap()), Term::DInt(2));
    assert!(!task.is_balanced());
    assert!(task.step(&mut rt.heap, &rt.dict).is_none());
    assert_eq!(task.focus(), TermRef::Static(Constant::E1));
    assert_eq!(task.returned(), None);
    let r = task.eval(&mut rt.heap, &rt.dict, 100).unwrap().unwrap();
    assert_eq!(rt.heap.get(r), Term::DInt(3));
    assert!(task.is_balanced());
}

#[test]
fn a_definition_takes_the_rest_of_the_line_as_its_term() {
    let mut rt = Runtime::new();
    assert!(matches!(line(&mut rt, ":define five + 2 3"), Reply::Defined(_)));
    let r = line(&mut rt, "five");
    assert_eq!(value(&rt, r), Ok(Term::DInt(5)));
    assert!(matches!(line(&mut rt, ":define ten * five 2 "), Reply::Defined(_)));
    let r = line(&mut rt, "ten");
    assert_eq!(value(&rt, r), Ok(Term::DInt(10)));
    assert!(matches!(line(&mut rt, ":update five 1 ) "), Reply::NotUpdated(_, DictError::Parse)));
    let r = line(&mut rt, "ten");
    assert_eq!(value(&rt, r), Ok(Term::DInt(10)));
}

#[test]
fn white_space_is_trimmed_at_both_ends() {
    for text in [
        "",
        " ",
        "a",
        "  a b  ",
        "\t\n x \r\n",
        "\u{a0}\u{3000}x y\u{2003}\u{85}",
        "\u{200b}x ",
        " \u{1680}\u{2028}\u{2029}\u{202f}\u{205f} ",
        "é ",
    ] {
        assert_eq!(trim_text(text), text.trim(), "{:?}", text);
    }
    assert_eq!(trim_text("  :quit \n"), ":quit");
}
