use ski_machine::heap::Heap;
use ski_machine::parser::{
    parse_decimal, parse_term, read_app, read_app_list, read_command, read_const_func, read_int,
    read_lam, read_path, read_symb, read_term, read_var, Command, Parser,
};
use ski_machine::symbol::{Interner, Symb};
use ski_machine::term::{app, dint, lam, term_eq, var, Constant, Term, TermRef};

fn parser(text: &str) -> Parser {
    Parser::new(text.to_string())
}

fn konst(k: Constant) -> TermRef {
    TermRef::Static(k)
}

#[test]
fn the_end_is_seen_only_at_the_end() {
    let mut p = parser("");
    assert_eq!(p.is_end(), Some(()));
    let mut p = parser("a");
    assert_eq!(p.is_end(), None);
    assert_eq!(p.read_string("a"), Some(()));
    assert_eq!(p.is_end(), Some(()));
}

#[test]
fn blanks_are_skipped() {
    let mut p = parser(" \t\r\n x  ");
    p.skip_space();
    assert_eq!(p.get_rest(), "x  ");
    p.skip_space();
    assert_eq!(p.get_rest(), "x  ");
    assert_eq!(p.read_string("x"), Some(()));
    p.skip_space();
    assert_eq!(p.is_end(), Some(()));
    p.skip_space();
    assert_eq!(p.get_rest(), "");
}

#[test]
fn a_string_is_read_only_where_it_stands() {
    let mut p = parser(":define x");
    assert_eq!(p.read_string(":dict"), None);
    assert_eq!(p.get_rest(), ":define x");
    assert_eq!(p.read_string(":define"), Some(()));
    assert_eq!(p.get_rest(), " x");
    assert_eq!(p.read_string(" x and more"), None);
    assert_eq!(p.read_string(""), Some(()));
    assert_eq!(p.get_rest(), " x");
}

#[test]
fn text_beyond_ascii_is_read_by_whole_characters() {
    let mut p = parser("é(λ)");
    assert_eq!(p.read_string("é"), Some(()));
    assert_eq!(p.get_rest(), "(λ)");
    assert_eq!(p.read_string("("), Some(()));
    assert_eq!(p.read_regex("^."), Some("λ".to_string()));
    assert_eq!(p.get_rest(), ")");
    let mut heap = Heap::new();
    let mut interner = Interner::new();
    let mut p = parser("λ");
    assert!(read_term(&mut p, &mut heap, &mut interner).is_none());
    assert_eq!(p.get_rest(), "λ");
}

#[test]
fn a_pattern_is_read_at_the_place_of_reading() {
    let mut p = parser("abc123 def");
    assert_eq!(p.read_regex("^[a-z]+"), Some("abc".to_string()));
    assert_eq!(p.read_regex("^[a-z]+"), None);
    assert_eq!(p.get_rest(), "123 def");
    // A match further on is no match here.
    assert_eq!(p.read_regex("def"), None);
    // An empty match reads nothing.
    assert_eq!(p.read_regex("^[a-z]*"), None);
    // A pattern that does not compile reads nothing.
    assert_eq!(p.read_regex("^("), None);
    assert_eq!(p.read_regex("^\\d+"), Some("123".to_string()));
    assert_eq!(p.get_rest(), " def");
}

#[test]
fn integers_are_decimal_and_fit_in_64_bits() {
    let mut p = parser("123abc");
    assert_eq!(read_int(&mut p), Some(123));
    assert_eq!(p.get_rest(), "abc");
    assert_eq!(read_int(&mut p), None);
    assert_eq!(p.get_rest(), "abc");
    let mut p = parser("007");
    assert_eq!(read_int(&mut p), Some(7));
    let mut p = parser("9223372036854775807");
    assert_eq!(read_int(&mut p), Some(i64::MAX));
    let mut p = parser("9223372036854775808 x");
    assert_eq!(read_int(&mut p), None);
    assert_eq!(p.get_rest(), "9223372036854775808 x");
    let mut p = parser("-5");
    assert_eq!(read_int(&mut p), None);
    // Digits of other scripts match the pattern and denote no integer.
    let mut p = parser("١٢٣");
    assert_eq!(read_int(&mut p), None);
    assert_eq!(p.get_rest(), "١٢٣");
    assert_eq!(parse_decimal("42"), Some(42));
    assert_eq!(parse_decimal(""), None);
    assert_eq!(parse_decimal("4a"), None);
    assert_eq!(parse_decimal("+4"), None);
    assert_eq!(parse_decimal("99999999999999999999"), None);
    assert_eq!(parse_decimal("0"), Some(0));
}

#[test]
fn names_become_symbols() {
    let mut interner = Interner::new();
    let mut p = parser("foo_1 bar 9x _z");
    let foo = read_symb(&mut p, &mut interner).unwrap();
    assert_eq!(foo.str(&interner), "foo_1");
    assert_eq!(read_symb(&mut p, &mut interner), None);
    p.skip_space();
    let bar = read_symb(&mut p, &mut interner).unwrap();
    assert_eq!(bar.str(&interner), "bar");
    assert_ne!(foo, bar);
    p.skip_space();
    assert_eq!(read_symb(&mut p, &mut interner), None);
    assert_eq!(p.get_rest(), "9x _z");
    let mut q = parser("foo_1");
    assert_eq!(read_symb(&mut q, &mut interner), Some(foo));
}

#[test]
fn a_path_is_the_rest_of_the_line() {
    let mut p = parser("dir/some file.nrm\nnext");
    assert_eq!(read_path(&mut p), Some("dir/some file.nrm".to_string()));
    assert_eq!(p.get_rest(), "\nnext");
    let mut p = parser("");
    assert_eq!(read_path(&mut p), None);
}

#[test]
fn trying_restores_the_place_on_failure() {
    let mut p = parser("12 ab");
    let digits: fn(&mut Parser) -> Option<i64> = |p| read_int(p);
    let fails: fn(&mut Parser) -> Option<i64> = |p| {
        p.read_string("12")?;
        p.read_string("!")?;
        Some(0)
    };
    assert_eq!(p.try_read(fails), None);
    assert_eq!(p.get_rest(), "12 ab");
    assert_eq!(p.try_read(digits), Some(12));
    assert_eq!(p.get_rest(), " ab");
    let mut p = parser("12 ab");
    assert_eq!(p.try_read_many(vec![fails, digits, fails]), Some(12));
    assert_eq!(p.get_rest(), " ab");
    assert_eq!(p.try_read_many(vec![fails, digits]), None);
    assert_eq!(p.get_rest(), " ab");
    let none: Vec<fn(&mut Parser) -> Option<i64>> = Vec::new();
    assert_eq!(p.try_read_many(none), None);
}

#[test]
fn reserved_tokens_give_their_terms() {
    let mut heap = Heap::new();
    let plain = [
        ("I", Constant::I),
        ("K", Constant::K),
        ("S", Constant::S),
        ("B", Constant::B),
        ("C", Constant::C),
        ("S'", Constant::Sp),
        ("B*", Constant::Bs),
        ("C'", Constant::Cp),
        ("E1", Constant::E1),
        ("E2", Constant::E2),
        ("E3", Constant::E3),
    ];
    for (text, k) in plain {
        let mut p = parser(text);
        assert_eq!(read_const_func(&mut p, &mut heap), Some(konst(k)), "{}", text);
        assert_eq!(p.is_end(), Some(()), "{}", text);
    }
    let forced = [
        ("+", Constant::AddI),
        ("-", Constant::SubI),
        ("*", Constant::MulI),
        ("/", Constant::DivI),
        (">", Constant::GrtI),
        ("<", Constant::LssI),
        ("=", Constant::EqlI),
        ("not", Constant::Not),
        ("and", Constant::And),
        ("or", Constant::Or),
    ];
    for (text, k) in forced {
        let mut p = parser(text);
        let r = read_const_func(&mut p, &mut heap).unwrap();
        assert_eq!(heap.get(r), Term::App(konst(Constant::E2), konst(k)), "{}", text);
        assert_eq!(p.is_end(), Some(()), "{}", text);
    }
    let mut p = parser("if x");
    let r = read_const_func(&mut p, &mut heap).unwrap();
    assert_eq!(heap.get(r), Term::App(konst(Constant::E1), konst(Constant::Ifte)));
    assert_eq!(p.get_rest(), " x");
    let mut p = parser("x");
    assert_eq!(read_const_func(&mut p, &mut heap), None);
    // A reserved token is read also where a name goes on behind it.
    let mut p = parser("Inc");
    assert_eq!(read_const_func(&mut p, &mut heap), Some(konst(Constant::I)));
    assert_eq!(p.get_rest(), "nc");
}

#[test]
fn terms_are_read_in_their_order_of_trial() {
    let mut heap = Heap::new();
    let mut interner = Interner::new();
    let x = Symb::new(&mut interner, "x").unwrap();
    let mut p = parser("42 x");
    let r = read_term(&mut p, &mut heap, &mut interner).unwrap();
    assert_eq!(heap.get(r), Term::DInt(42));
    p.skip_space();
    let r = read_term(&mut p, &mut heap, &mut interner).unwrap();
    assert_eq!(heap.get(r), Term::Var(x));
    assert_eq!(read_term(&mut p, &mut heap, &mut interner), None);
    let mut p = parser("x");
    let r = read_var(&mut p, &mut heap, &mut interner).unwrap();
    assert_eq!(heap.get(r), Term::Var(x));
    let mut p = parser("1");
    assert_eq!(read_var(&mut p, &mut heap, &mut interner), None);
}

#[test]
fn abstractions_and_applications_are_read() {
    let mut heap = Heap::new();
    let mut interner = Interner::new();
    let x = Symb::new(&mut interner, "x").unwrap();
    let f = Symb::new(&mut interner, "f").unwrap();
    let vx = var(&mut heap, x);
    let vf = var(&mut heap, f);
    let one = dint(&mut heap, 1);
    let mut p = parser("\\ x . f x 1)");
    let r = read_lam(&mut p, &mut heap, &mut interner).unwrap();
    assert_eq!(p.get_rest(), ")");
    let fx = app(&mut heap, vf, vx);
    let fx1 = app(&mut heap, fx, one);
    let expected = lam(&mut heap, x, fx1);
    assert!(term_eq(&heap, r, expected));
    let mut p = parser("\\x f");
    assert_eq!(read_lam(&mut p, &mut heap, &mut interner), None);
    assert_eq!(p.get_rest(), "\\x f");
    let mut p = parser("( f x 1 ) rest");
    let r = read_app(&mut p, &mut heap, &mut interner).unwrap();
    assert!(term_eq(&heap, r, fx1));
    assert_eq!(p.get_rest(), " rest");
    let mut p = parser("(f x 1");
    assert_eq!(read_app(&mut p, &mut heap, &mut interner), None);
    assert_eq!(p.get_rest(), "(f x 1");
    let mut p = parser("()");
    assert_eq!(read_app(&mut p, &mut heap, &mut interner), None);
    // application associates to the left
    let mut p = parser("f x (f x) 1");
    let r = read_app_list(&mut p, &mut heap, &mut interner).unwrap();
    let t = app(&mut heap, fx, fx);
    let expected = app(&mut heap, t, one);
    assert!(term_eq(&heap, r, expected));
    // after a semicolon the rest is one argument
    let mut p = parser("f x; f x 1");
    let r = read_app_list(&mut p, &mut heap, &mut interner).unwrap();
    let expected = app(&mut heap, fx, fx1);
    assert!(term_eq(&heap, r, expected));
    assert_eq!(p.is_end(), Some(()));
    let mut p = parser("f x; )");
    assert_eq!(read_app_list(&mut p, &mut heap, &mut interner), None);
    assert_eq!(p.get_rest(), "f x; )");
}

#[test]
fn parse_term_reads_the_whole_text_as_one_term() {
    let mut heap = Heap::new();
    let mut interner = Interner::new();
    let plus = app(&mut heap, konst(Constant::E2), konst(Constant::AddI));
    let two = dint(&mut heap, 2);
    let three = dint(&mut heap, 3);
    let t = app(&mut heap, plus, two);
    let expected = app(&mut heap, t, three);
    let r = parse_term("+ 2 3", &mut heap, &mut interner).unwrap();
    assert!(term_eq(&heap, r, expected));
    let r = parse_term("  (+ 2 3) \n", &mut heap, &mut interner).unwrap();
    assert!(term_eq(&heap, r, expected));
    let r = parse_term("12", &mut heap, &mut interner).unwrap();
    assert_eq!(heap.get(r), Term::DInt(12));
    let r = parse_term("12 13", &mut heap, &mut interner).unwrap();
    match heap.get(r) {
        Term::App(f, a) => {
            assert_eq!(heap.get(f), Term::DInt(12));
            assert_eq!(heap.get(a), Term::DInt(13));
        }
        _ => panic!(),
    }
    // Text that goes on after the term is no term.
    assert!(parse_term("12 )", &mut heap, &mut interner).is_none());
    assert!(parse_term("(+ 1 2", &mut heap, &mut interner).is_none());
    assert!(parse_term("", &mut heap, &mut interner).is_none());
    assert!(parse_term("   ", &mut heap, &mut interner).is_none());
}

fn command(text: &str, heap: &mut Heap, interner: &mut Interner) -> Option<Command> {
    let mut p = parser(text);
    read_command(&mut p, heap, interner)
}

#[test]
fn commands_are_read() {
    let mut heap = Heap::new();
    let mut interner = Interner::new();
    let foo = Symb::new(&mut interner, "foo").unwrap();
    assert!(matches!(command(":quit", &mut heap, &mut interner), Some(Command::Quit)));
    assert!(matches!(command(":quit  ", &mut heap, &mut interner), Some(Command::Quit)));
    assert!(command(":quit now", &mut heap, &mut interner).is_none());
    assert!(matches!(command(":dict", &mut heap, &mut interner), Some(Command::Dict)));
    match command(":define foo (+ 1 2) ", &mut heap, &mut interner) {
        Some(Command::Define(s, text)) => {
            assert_eq!(s, foo);
            assert_eq!(text, "(+ 1 2) ");
        }
        _ => panic!(),
    }
    match command(":update foo", &mut heap, &mut interner) {
        Some(Command::Update(s, text)) => {
            assert_eq!(s, foo);
            assert_eq!(text, "");
        }
        _ => panic!(),
    }
    assert!(command(":define 1 2", &mut heap, &mut interner).is_none());
    match command(":delete foo ", &mut heap, &mut interner) {
        Some(Command::Delete(s)) => assert_eq!(s, foo),
        _ => panic!(),
    }
    assert!(command(":delete foo bar", &mut heap, &mut interner).is_none());
    match command(":load test.nrm", &mut heap, &mut interner) {
        Some(Command::Load(path)) => assert_eq!(path, "test.nrm"),
        _ => panic!(),
    }
    assert!(command(":load", &mut heap, &mut interner).is_none());
    assert!(command(":nothing", &mut heap, &mut interner).is_none());
    match command("  foo 1 ", &mut heap, &mut interner) {
        Some(Command::Repl(t)) => match heap.get(t) {
            Term::App(f, a) => {
                assert_eq!(heap.get(f), Term::Var(foo));
                assert_eq!(heap.get(a), Term::DInt(1));
            }
            _ => panic!(),
        },
        _ => panic!(),
    }
    assert!(command("foo )", &mut heap, &mut interner).is_none());
    assert!(command("", &mut heap, &mut interner).is_none());
}

#[test]
fn a_symbol_is_one_number_for_one_name() {
    let mut interner = Interner::new();
    let a = Symb::new(&mut interner, "alpha").unwrap();
    let b = Symb::new(&mut interner, "beta").unwrap();
    let a2 = Symb::new(&mut interner, "alpha").unwrap();
    assert_eq!(a, a2);
    assert_ne!(a, b);
    assert_eq!(a.str(&interner), "alpha");
    assert_eq!(b.str(&interner), "beta");
    assert_eq!(a.name(&interner), Some("alpha".to_string()));
    let other = Symb(if a.0 == 7 || b.0 == 7 { 8 } else { 7 });
    if other != a && other != b {
        assert_eq!(other.name(&interner), None);
    }
}

#[test]
fn a_new_symbol_takes_the_first_free_number_from_the_start() {
    let mut interner = Interner::new();
    assert_eq!(interner.intern_from("a", 5), Some(Symb(5)));
    assert_eq!(interner.intern_from("b", 5), Some(Symb(6)));
    assert_eq!(interner.intern_from("a", 9), Some(Symb(5)));
    assert_eq!(interner.intern_from("c", 4), Some(Symb(4)));
    assert_eq!(interner.intern_from("d", 4), Some(Symb(7)));
    assert_eq!(interner.intern_from("e", u32::MAX), Some(Symb(u32::MAX)));
    assert_eq!(interner.intern_from("f", u32::MAX), Some(Symb(0)));
    assert_eq!(Symb(0).str(&interner), "f");
    assert_eq!(Symb(7).str(&interner), "d");
}
