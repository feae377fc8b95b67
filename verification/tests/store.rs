use ski_machine::compile::{compile_ski, optimize};
use ski_machine::eval::{task_copy, Task};
use ski_machine::heap::{
    attach, drain_dump, dump_page, new_page, next_page, release_before, run_gc, set_singal_run,
    set_singal_stop, singal_running, term_alloc, Heap, Page, PAGE_SIZE, WATERMARK,
};
use ski_machine::parser::{parse_term, read_command, Command, Parser};
use ski_machine::symbol::{
    define, delete, dict_copy, dict_value_copy, lookup, show_dict, update, Dict, DictError,
    DictValue, Interner, Symb,
};
use ski_machine::task::{
    drain_task, fetch_task, send_task, thread_init, worker_exit, worker_turn, TaskPool, Turn,
    THREAD_MAX,
};
use ski_machine::term::{
    app, dbool, dchar, dint, dreal, eager, lam, term_copy, term_eq, var, Constant, Term, TermRef,
};

fn read(heap: &mut Heap, interner: &mut Interner, text: &str) -> TermRef {
    let mut par = Parser::new(text.to_string());
    match read_command(&mut par, heap, interner) {
        Some(Command::Repl(t)) => t,
        _ => panic!("no term in {}", text),
    }
}

fn task_for(heap: &mut Heap, interner: &mut Interner, text: &str) -> Task {
    let t = read(heap, interner, text);
    let c = compile_ski(heap, t);
    let o = optimize(heap, c);
    Task::new(o)
}

fn fresh(r: TermRef, lo: usize) -> bool {
    match r {
        TermRef::Static(_) => true,
        TermRef::Slot { page, .. } => page >= lo,
    }
}

#[test]
fn a_node_without_payload_is_its_constant() {
    let mut heap = Heap::new();
    assert_eq!(term_alloc(&mut heap, Term::I), TermRef::Static(Constant::I));
    assert_eq!(term_alloc(&mut heap, Term::Ifte), TermRef::Static(Constant::Ifte));
    assert_eq!(term_alloc(&mut heap, Term::Save), TermRef::Static(Constant::Save));
    assert_eq!(heap.get(TermRef::Static(Constant::Bs)), Term::Bs);
    assert_eq!(Constant::Sp.to_term(), Term::Sp);
    assert_eq!(Term::Cp.as_constant(), Some(Constant::Cp));
    assert_eq!(Term::DInt(1).as_constant(), None);
    assert_eq!(heap.page_total(), 1);
}

#[test]
fn eager_markers_up_to_four_are_constants() {
    let mut heap = Heap::new();
    assert_eq!(eager(&mut heap, 1), TermRef::Static(Constant::E1));
    assert_eq!(eager(&mut heap, 2), TermRef::Static(Constant::E2));
    assert_eq!(eager(&mut heap, 3), TermRef::Static(Constant::E3));
    assert_eq!(eager(&mut heap, 4), TermRef::Static(Constant::E4));
    let e5 = eager(&mut heap, 5);
    assert_eq!(e5, TermRef::new(0, 0));
    assert_eq!(heap.get(e5), Term::E(5));
    assert_eq!(term_alloc(&mut heap, Term::E(3)), TermRef::Static(Constant::E3));
}

#[test]
fn nodes_fill_the_page_in_order() {
    let mut heap = Heap::new();
    let a = dint(&mut heap, 7);
    let b = dbool(&mut heap, true);
    let c = dchar(&mut heap, 'c');
    let d = dreal(&mut heap, 1.5f64.to_bits());
    assert_eq!(a, TermRef::Slot { page: 0, index: 0 });
    assert_eq!(b, TermRef::Slot { page: 0, index: 1 });
    assert_eq!(c, TermRef::Slot { page: 0, index: 2 });
    assert_eq!(d, TermRef::Slot { page: 0, index: 3 });
    assert_eq!(heap.get(a), Term::DInt(7));
    assert_eq!(heap.get(b), Term::DBool(true));
    assert_eq!(heap.get(c), Term::DChar('c'));
    assert_eq!(heap.get(d), Term::DReal(1.5f64.to_bits()));
    let ab = app(&mut heap, a, b);
    assert_eq!(heap.get(ab), Term::App(a, b));
    assert!(heap.is_valid(ab));
    assert!(!heap.is_valid(TermRef::Slot { page: 0, index: 5 }));
    assert!(!heap.is_valid(TermRef::Slot { page: 1, index: 0 }));
}

#[test]
fn a_full_page_is_retired_and_a_new_one_begun() {
    let mut heap = Heap::new();
    let mut last = TermRef::Static(Constant::I);
    for i in 0..PAGE_SIZE {
        last = dint(&mut heap, i as i64);
    }
    assert_eq!(last, TermRef::Slot { page: 0, index: PAGE_SIZE - 1 });
    assert_eq!(heap.page_total(), 1);
    assert_eq!(heap.dump_total(), 0);
    let next = dint(&mut heap, -1);
    assert_eq!(next, TermRef::Slot { page: 1, index: 0 });
    assert_eq!(heap.page_total(), 2);
    assert_eq!(heap.dump_total(), 1);
    assert_eq!(heap.get(last), Term::DInt(PAGE_SIZE as i64 - 1));
    assert!(singal_running(&heap));
}

#[test]
fn the_watermark_clears_the_flag() {
    let mut heap = Heap::new();
    for _ in 0..WATERMARK - 1 {
        next_page(&mut heap);
    }
    assert!(singal_running(&heap));
    assert_eq!(heap.dump_total(), WATERMARK - 1);
    next_page(&mut heap);
    assert!(!singal_running(&heap));
    assert_eq!(heap.dump_total(), WATERMARK);
    set_singal_run(&mut heap);
    assert!(singal_running(&heap));
    set_singal_stop(&mut heap);
    assert!(!singal_running(&heap));
}

#[test]
fn a_dumped_page_leaves_the_sentinel() {
    let mut heap = Heap::new();
    let a = dint(&mut heap, 1);
    dump_page(&mut heap);
    assert_eq!(heap.page_total(), 2);
    assert_eq!(drain_dump(&mut heap), vec![0]);
    assert_eq!(heap.dump_total(), 0);
    // The sentinel has no slot: the next node turns the page.
    let b = dint(&mut heap, 2);
    assert_eq!(b, TermRef::Slot { page: 2, index: 0 });
    assert_eq!(drain_dump(&mut heap), vec![1]);
    assert_eq!(heap.get(a), Term::DInt(1));
    let _ = Page::new(0);
}

#[test]
fn a_copy_denotes_the_same_tree_on_new_slots() {
    let mut heap = Heap::new();
    let mut interner = Interner::new();
    let t = read(&mut heap, &mut interner, "(\\x. + x (f 1 x)) S");
    dump_page(&mut heap);
    let lo = heap.page_total() - 1;
    let c = term_copy(&mut heap, t);
    assert!(term_eq(&heap, t, c));
    assert_ne!(t, c);
    assert!(fresh(c, lo));
    release_before(&mut heap, lo);
    assert!(!heap.is_valid(t));
    assert!(heap.is_valid(c));
    let again = read(&mut heap, &mut interner, "(\\x. + x (f 1 x)) S");
    assert!(term_eq(&heap, again, c));
    assert_eq!(term_copy(&mut heap, TermRef::Static(Constant::K)), TermRef::Static(Constant::K));
    let e7 = eager(&mut heap, 7);
    let e7c = term_copy(&mut heap, e7);
    assert_eq!(heap.get(e7c), Term::E(7));
    assert_ne!(e7, e7c);
}

#[test]
fn terms_are_compared_by_their_trees() {
    let mut heap = Heap::new();
    let mut interner = Interner::new();
    let x = Symb::new(&mut interner, "x").unwrap();
    let y = Symb::new(&mut interner, "y").unwrap();
    let a = dint(&mut heap, 1);
    let b = dint(&mut heap, 1);
    let c = dint(&mut heap, 2);
    assert!(term_eq(&heap, a, b));
    assert!(!term_eq(&heap, a, c));
    let vx = var(&mut heap, x);
    let vy = var(&mut heap, y);
    assert!(!term_eq(&heap, vx, vy));
    let l1 = lam(&mut heap, x, a);
    let l2 = lam(&mut heap, x, b);
    let l3 = lam(&mut heap, y, a);
    assert!(term_eq(&heap, l1, l2));
    assert!(!term_eq(&heap, l1, l3));
    let p = app(&mut heap, l1, vx);
    let q = app(&mut heap, l2, vx);
    let r = app(&mut heap, vx, l1);
    assert!(term_eq(&heap, p, q));
    assert!(!term_eq(&heap, p, r));
    assert!(!term_eq(&heap, p, a));
    assert!(!term_eq(&heap, TermRef::Static(Constant::S), TermRef::Static(Constant::K)));
}

#[test]
fn a_task_goes_on_after_its_terms_were_copied() {
    let mut heap = Heap::new();
    let mut interner = Interner::new();
    let dict = Dict::new();
    let mut task = task_for(&mut heap, &mut interner, "+ (* 2 3) (- 10 (+ 1 2))");
    let mut twin = task_for(&mut heap, &mut interner, "+ (* 2 3) (- 10 (+ 1 2))");
    let mut steps = 0;
    loop {
        // Copy the task onto new pages and drop the old ones before each step.
        dump_page(&mut heap);
        let lo = heap.page_total() - 1;
        task_copy(&mut task, &mut heap);
        task_copy(&mut twin, &mut heap);
        release_before(&mut heap, lo);
        let out = task.step(&mut heap, &dict);
        let same = twin.step(&mut heap, &dict);
        steps += 1;
        match (out, same) {
            (Some(Ok(r)), Some(Ok(s))) => {
                assert_eq!(heap.get(r), Term::DInt(13));
                assert_eq!(heap.get(s), Term::DInt(13));
                assert!(task.is_balanced());
                break;
            }
            (None, None) => {}
            _ => panic!("the twins parted"),
        }
        assert!(steps < 1000);
    }
    assert!(steps > 10);
}

#[test]
fn a_collection_keeps_tasks_and_definitions_and_drops_old_pages() {
    let mut heap = Heap::new();
    let mut interner = Interner::new();
    let mut dict = Dict::new();
    let mut pool = TaskPool::new();
    let inc = Symb::new(&mut interner, "inc").unwrap();
    assert_eq!(define(&mut dict, &mut heap, &mut interner, inc, "(+ 1)".to_string()), Ok(()));
    let stale = lookup(&dict, inc).unwrap();
    let mut first = task_for(&mut heap, &mut interner, "inc (inc 5)");
    assert!(first.eval(&mut heap, &dict, 3).is_none());
    let second = task_for(&mut heap, &mut interner, "* 6 7");
    send_task(&mut pool, first);
    send_task(&mut pool, second);
    set_singal_stop(&mut heap);
    let lo = heap.page_total();
    run_gc(&mut heap, &mut pool, &mut dict);
    assert!(singal_running(&heap));
    assert!(!heap.is_valid(stale));
    let target = lookup(&dict, inc).unwrap();
    assert!(heap.is_valid(target));
    assert!(fresh(target, lo));
    let entry = dict.get(inc).unwrap();
    assert!(fresh(entry.parsed, lo) && fresh(entry.compiled, lo));
    assert_eq!(entry.text, "(+ 1)");
    // The tasks wait in reverse order and run to the same values.
    assert_eq!(pool.waiting(), 2);
    let mut a = fetch_task(&mut pool).unwrap();
    let mut b = fetch_task(&mut pool).unwrap();
    assert!(fresh(a.focus(), lo) && fresh(b.focus(), lo));
    let ra = a.eval(&mut heap, &dict, 1000).unwrap().unwrap();
    let rb = b.eval(&mut heap, &dict, 1000).unwrap().unwrap();
    assert_eq!(heap.get(ra), Term::DInt(42));
    assert_eq!(heap.get(rb), Term::DInt(7));
}

#[test]
fn the_queue_is_first_in_first_out() {
    let mut pool = TaskPool::new();
    assert!(fetch_task(&mut pool).is_none());
    send_task(&mut pool, Task::new(TermRef::Static(Constant::I)));
    send_task(&mut pool, Task::new(TermRef::Static(Constant::K)));
    send_task(&mut pool, Task::new(TermRef::Static(Constant::S)));
    assert_eq!(pool.waiting(), 3);
    assert_eq!(fetch_task(&mut pool).unwrap().focus(), TermRef::Static(Constant::I));
    let rest = drain_task(&mut pool);
    assert_eq!(rest.len(), 2);
    assert_eq!(rest[0].focus(), TermRef::Static(Constant::K));
    assert_eq!(rest[1].focus(), TermRef::Static(Constant::S));
    assert_eq!(pool.waiting(), 0);
}

#[test]
fn a_worker_runs_the_task_at_the_front() {
    let mut heap = Heap::new();
    let mut interner = Interner::new();
    let mut dict = Dict::new();
    let mut pool = TaskPool::new();
    assert_eq!(thread_init(&mut pool, &mut heap), THREAD_MAX);
    assert_eq!(pool.workers(), THREAD_MAX);
    assert_eq!(worker_turn(&mut pool, &mut heap, &dict), Turn::Idle);
    let sum = Symb::new(&mut interner, "sum").unwrap();
    let body = "(\\n. if (= n 0) 0 (+ n (sum (- n 1))))";
    assert_eq!(define(&mut dict, &mut heap, &mut interner, sum, body.to_string()), Ok(()));
    let long = task_for(&mut heap, &mut interner, "sum 200");
    let short = task_for(&mut heap, &mut interner, "+ 1 2");
    let bad = task_for(&mut heap, &mut interner, "/ 1 0");
    send_task(&mut pool, long);
    send_task(&mut pool, short);
    send_task(&mut pool, bad);
    assert_eq!(worker_turn(&mut pool, &mut heap, &dict), Turn::Requeued);
    assert_eq!(pool.waiting(), 3);
    match worker_turn(&mut pool, &mut heap, &dict) {
        Turn::Finished(r) => assert_eq!(heap.get(r), Term::DInt(3)),
        other => panic!("{:?}", other),
    }
    assert_eq!(
        worker_turn(&mut pool, &mut heap, &dict),
        Turn::Failed(ski_machine::eval::EvalError::DivideByZero)
    );
    let mut turns = 0;
    loop {
        match worker_turn(&mut pool, &mut heap, &dict) {
            Turn::Requeued => turns += 1,
            Turn::Finished(r) => {
                assert_eq!(heap.get(r), Term::DInt(20100));
                break;
            }
            other => panic!("{:?}", other),
        }
        assert!(turns < 5000);
    }
    assert!(turns >= 1);
    set_singal_stop(&mut heap);
    assert_eq!(worker_turn(&mut pool, &mut heap, &dict), Turn::Stop);
}

#[test]
fn the_last_worker_out_collects_and_restarts_the_pool() {
    let mut heap = Heap::new();
    let mut interner = Interner::new();
    let mut dict = Dict::new();
    let mut pool = TaskPool::new();
    thread_init(&mut pool, &mut heap);
    let task = task_for(&mut heap, &mut interner, "+ 20 22");
    send_task(&mut pool, task);
    set_singal_stop(&mut heap);
    for left in (1..THREAD_MAX).rev() {
        assert_eq!(worker_exit(&mut pool, &mut heap, &mut dict), 0);
        assert_eq!(pool.workers(), left);
        assert!(!singal_running(&heap));
    }
    let before = heap.page_total();
    assert_eq!(worker_exit(&mut pool, &mut heap, &mut dict), THREAD_MAX);
    assert_eq!(pool.workers(), THREAD_MAX);
    assert!(singal_running(&heap));
    assert!(!heap.is_valid(TermRef::Slot { page: 0, index: 0 }));
    let mut t = fetch_task(&mut pool).unwrap();
    assert!(fresh(t.focus(), before));
    let r = t.eval(&mut heap, &dict, 100).unwrap().unwrap();
    assert_eq!(heap.get(r), Term::DInt(42));
}

#[test]
fn define_then_lookup_gives_the_compiled_term() {
    let mut heap = Heap::new();
    let mut interner = Interner::new();
    let mut dict = Dict::new();
    let twice = Symb::new(&mut interner, "twice").unwrap();
    let text = "(\\f. \\x. f (f x))";
    assert_eq!(lookup(&dict, twice), None);
    assert_eq!(define(&mut dict, &mut heap, &mut interner, twice, text.to_string()), Ok(()));
    let found = lookup(&dict, twice).unwrap();
    let parsed = parse_term(text, &mut heap, &mut interner).unwrap();
    let compiled = compile_ski(&mut heap, parsed);
    let expected = optimize(&mut heap, compiled);
    assert!(term_eq(&heap, found, expected));
    let entry = dict.get(twice).unwrap();
    assert!(term_eq(&heap, entry.parsed, parsed));
    assert_eq!(entry.compiled, found);
    assert_eq!(entry.linked, None);
    assert!(entry.related.is_empty());
    assert_eq!(entry.text, text);
}

#[test]
fn a_linked_term_takes_precedence() {
    let mut heap = Heap::new();
    let mut interner = Interner::new();
    let mut dict = Dict::new();
    let x = Symb::new(&mut interner, "x").unwrap();
    let one = dint(&mut heap, 1);
    let two = dint(&mut heap, 2);
    let value = DictValue {
        related: Vec::new(),
        text: "1".to_string(),
        parsed: one,
        compiled: one,
        linked: Some(two),
    };
    dict.bind(x, value);
    assert_eq!(lookup(&dict, x), Some(two));
    let mut copy = DictValue {
        related: vec![x],
        text: "1".to_string(),
        parsed: one,
        compiled: one,
        linked: Some(two),
    };
    dict_value_copy(&mut copy, &mut heap);
    assert_ne!(copy.parsed, one);
    assert_ne!(copy.linked, Some(two));
    assert_eq!(heap.get(copy.parsed), Term::DInt(1));
    assert_eq!(heap.get(copy.compiled), Term::DInt(1));
    assert_eq!(heap.get(copy.linked.unwrap()), Term::DInt(2));
    assert_eq!(copy.related, vec![x]);
}

#[test]
fn definitions_are_added_replaced_and_removed() {
    let mut heap = Heap::new();
    let mut interner = Interner::new();
    let mut dict = Dict::new();
    let a = Symb::new(&mut interner, "a").unwrap();
    let b = Symb::new(&mut interner, "b").unwrap();
    assert_eq!(
        update(&mut dict, &mut heap, &mut interner, a, "1".to_string()),
        Err(DictError::Missing)
    );
    assert_eq!(delete(&mut dict, a), Err(DictError::Missing));
    assert_eq!(define(&mut dict, &mut heap, &mut interner, a, "1".to_string()), Ok(()));
    assert_eq!(
        define(&mut dict, &mut heap, &mut interner, a, "2".to_string()),
        Err(DictError::Exists)
    );
    assert_eq!(
        define(&mut dict, &mut heap, &mut interner, b, ")".to_string()),
        Err(DictError::Parse)
    );
    assert_eq!(lookup(&dict, b), None);
    assert_eq!(define(&mut dict, &mut heap, &mut interner, b, "(+ a a)".to_string()), Ok(()));
    assert_eq!(show_dict(&dict), vec![a, b]);
    assert_eq!(heap.get(lookup(&dict, a).unwrap()), Term::DInt(1));
    assert_eq!(update(&mut dict, &mut heap, &mut interner, a, "5".to_string()), Ok(()));
    assert_eq!(heap.get(lookup(&dict, a).unwrap()), Term::DInt(5));
    assert_eq!(
        update(&mut dict, &mut heap, &mut interner, a, "".to_string()),
        Err(DictError::Parse)
    );
    assert_eq!(heap.get(lookup(&dict, a).unwrap()), Term::DInt(5));
    assert_eq!(show_dict(&dict), vec![a, b]);
    let mut task = Task::new(lookup(&dict, b).unwrap());
    let r = task.eval(&mut heap, &dict, 100).unwrap().unwrap();
    assert_eq!(heap.get(r), Term::DInt(10));
    assert_eq!(delete(&mut dict, a), Ok(()));
    assert_eq!(lookup(&dict, a), None);
    assert_eq!(show_dict(&dict), vec![b]);
    assert_eq!(dict.defined(), vec![b]);
}

#[test]
fn copying_the_dictionary_keeps_every_definition() {
    let mut heap = Heap::new();
    let mut interner = Interner::new();
    let mut dict = Dict::new();
    let a = Symb::new(&mut interner, "a").unwrap();
    let b = Symb::new(&mut interner, "b").unwrap();
    define(&mut dict, &mut heap, &mut interner, a, "(\\x. + x 1)".to_string()).unwrap();
    define(&mut dict, &mut heap, &mut interner, b, "(a 41)".to_string()).unwrap();
    let old_a = lookup(&dict, a).unwrap();
    let old_parsed = dict.get(a).unwrap().parsed;
    dump_page(&mut heap);
    let lo = heap.page_total() - 1;
    dict_copy(&mut dict, &mut heap);
    let new_a = lookup(&dict, a).unwrap();
    assert_ne!(old_a, new_a);
    assert!(term_eq(&heap, old_a, new_a));
    assert!(term_eq(&heap, old_parsed, dict.get(a).unwrap().parsed));
    assert!(!term_eq(&heap, dict.get(a).unwrap().parsed, dict.get(a).unwrap().compiled));
    release_before(&mut heap, lo);
    let mut task = Task::new(lookup(&dict, b).unwrap());
    let r = task.eval(&mut heap, &dict, 100).unwrap().unwrap();
    assert_eq!(heap.get(r), Term::DInt(42));
    assert_eq!(show_dict(&dict), vec![a, b]);
}

#[test]
fn each_worker_fills_its_own_page() {
    let mut heap = Heap::new();
    let mine = new_page(&mut heap);
    let yours = new_page(&mut heap);
    assert_eq!((mine, yours), (1, 2));
    assert_eq!(heap.page_total(), 3);
    assert_eq!(attach(&mut heap, mine), 0);
    let a = dint(&mut heap, 1);
    assert_eq!(attach(&mut heap, yours), mine);
    let b = dint(&mut heap, 2);
    assert_eq!(attach(&mut heap, mine), yours);
    let c = app(&mut heap, a, b);
    assert_eq!(a, TermRef::Slot { page: 1, index: 0 });
    assert_eq!(b, TermRef::Slot { page: 2, index: 0 });
    assert_eq!(c, TermRef::Slot { page: 1, index: 1 });
    assert_eq!(heap.get(c), Term::App(a, b));
    // No such page: nothing changes.
    assert_eq!(attach(&mut heap, 9), mine);
    let d = dint(&mut heap, 3);
    assert_eq!(d, TermRef::Slot { page: 1, index: 2 });
    assert_eq!(heap.dump_total(), 0);
}

#[test]
fn malloc_and_free_test() {
    // The storage of a page is taken when the page is made and given back
    // when it is dropped.
    let page = Page::new(100);
    drop(page);
}

#[test]
fn a_copy_takes_new_slots_also_on_the_page_of_the_term() {
    let mut heap = Heap::new();
    let e7 = eager(&mut heap, 7);
    let c = term_copy(&mut heap, e7);
    assert_eq!(e7, TermRef::Slot { page: 0, index: 0 });
    assert_eq!(c, TermRef::Slot { page: 0, index: 1 });
    assert_eq!(heap.get(c), Term::E(7));
    // A marker of three that was put in the store is its constant, and so is its copy.
    let e3 = term_alloc(&mut heap, Term::E(3));
    assert_eq!(term_copy(&mut heap, e3), TermRef::Static(Constant::E3));
    let one = dint(&mut heap, 1);
    let pair = app(&mut heap, one, e7);
    let copy = term_copy(&mut heap, pair);
    match heap.get(copy) {
        Term::App(f, a) => {
            assert!(f != one && a != e7 && a != c);
            assert_eq!(heap.get(f), Term::DInt(1));
            assert_eq!(heap.get(a), Term::E(7));
        }
        _ => panic!(),
    }
    assert_ne!(copy, pair);
}

#[test]
fn a_collection_empties_the_pool_of_retired_pages() {
    let mut heap = Heap::new();
    let mut dict = Dict::new();
    let mut pool = TaskPool::new();
    for _ in 0..5 {
        next_page(&mut heap);
    }
    assert_eq!(heap.dump_total(), 5);
    let lo = heap.page_total();
    run_gc(&mut heap, &mut pool, &mut dict);
    assert_eq!(heap.dump_total(), 0);
    assert!(heap.page_total() > lo);
    let x = dint(&mut heap, 1);
    assert!(fresh(x, lo));
}
