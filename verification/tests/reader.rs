use grift::{ArenaError, ArenaIndex, ChainSource, CharSource, Lisp, SliceSource, Value};

fn read(lisp: &mut Lisp, text: &str) -> Result<ArenaIndex, ArenaError> {
    let mut src = SliceSource::new(text);
    lisp.parse_expr(&mut src)
}

fn value(lisp: &Lisp, i: ArenaIndex) -> Value {
    lisp.get(i).unwrap()
}

fn chars_of(lisp: &Lisp, mut i: ArenaIndex) -> String {
    let mut s = String::new();
    while !i.is_nil() {
        match value(lisp, i) {
            Value::CharPair { ch, cdr } => {
                s.push(ch);
                i = cdr;
            }
            other => panic!("not a character cell: {other:?}"),
        }
    }
    s
}

fn symbol_name(lisp: &Lisp, i: ArenaIndex) -> String {
    match value(lisp, i) {
        Value::Symbol { name } => chars_of(lisp, name),
        other => panic!("not a symbol: {other:?}"),
    }
}

fn pair(lisp: &Lisp, i: ArenaIndex) -> (ArenaIndex, ArenaIndex) {
    match value(lisp, i) {
        Value::Cons { car, cdr } => (car, cdr),
        other => panic!("not a pair: {other:?}"),
    }
}

#[test]
fn reads_numbers() {
    let mut lisp = Lisp::new(100);
    let i = read(&mut lisp, "42").unwrap();
    assert_eq!(value(&lisp, i), Value::Number(42));
    let i = read(&mut lisp, "-7").unwrap();
    assert_eq!(value(&lisp, i), Value::Number(-7));
    let i = read(&mut lisp, "+3").unwrap();
    assert_eq!(value(&lisp, i), Value::Number(3));
}

#[test]
fn reads_extreme_numbers() {
    let mut lisp = Lisp::new(200);
    let max = isize::MAX.to_string();
    let i = read(&mut lisp, &max).unwrap();
    assert_eq!(value(&lisp, i), Value::Number(isize::MAX));
    let min = isize::MIN.to_string();
    let i = read(&mut lisp, &min).unwrap();
    assert_eq!(value(&lisp, i), Value::Number(isize::MIN));
}

#[test]
fn number_overflow_is_reported() {
    let mut lisp = Lisp::new(200);
    assert_eq!(
        read(&mut lisp, "99999999999999999999999"),
        Err(ArenaError::ArithmeticOverflow)
    );
    assert_eq!(
        read(&mut lisp, "-99999999999999999999999"),
        Err(ArenaError::ArithmeticOverflow)
    );
}

#[test]
fn reads_booleans_and_specials() {
    let mut lisp = Lisp::new(100);
    assert_eq!(read(&mut lisp, "#t"), Ok(ArenaIndex::true_value()));
    assert_eq!(read(&mut lisp, "#true"), Ok(ArenaIndex::true_value()));
    assert_eq!(read(&mut lisp, "#f"), Ok(ArenaIndex::false_value()));
    assert_eq!(read(&mut lisp, "#false"), Ok(ArenaIndex::false_value()));
    assert_eq!(read(&mut lisp, "#inert"), Ok(ArenaIndex::inert()));
    assert_eq!(read(&mut lisp, "#ignore"), Ok(ArenaIndex::ignore()));
    assert_eq!(value(&lisp, ArenaIndex::true_value()), Value::Boolean(true));
    assert_eq!(value(&lisp, ArenaIndex::inert()), Value::Inert);
}

#[test]
fn reads_symbols() {
    let mut lisp = Lisp::new(200);
    for name in ["foo", "define!", "+", "-", "my-var?", "#foo", "1a", ".x"] {
        let i = read(&mut lisp, name).unwrap();
        assert_eq!(symbol_name(&lisp, i), name);
    }
}

#[test]
fn symbols_are_interned() {
    let mut lisp = Lisp::new(200);
    let a = read(&mut lisp, "foo").unwrap();
    let b = read(&mut lisp, "bar").unwrap();
    let c = read(&mut lisp, "  foo ").unwrap();
    assert_eq!(a, c);
    assert_ne!(a, b);
}

#[test]
fn reads_strings_with_escapes() {
    let mut lisp = Lisp::new(200);
    let i = read(&mut lisp, "\"hello\"").unwrap();
    assert_eq!(chars_of(&lisp, i), "hello");
    let i = read(&mut lisp, r#""a\nb\t\r\\\"""#).unwrap();
    assert_eq!(chars_of(&lisp, i), "a\nb\t\r\\\"");
}

#[test]
fn empty_string_is_nil() {
    let mut lisp = Lisp::new(100);
    assert_eq!(read(&mut lisp, "\"\""), Ok(ArenaIndex::nil()));
}

#[test]
fn unknown_escape_is_invalid_argument() {
    let mut lisp = Lisp::new(100);
    assert_eq!(read(&mut lisp, r#""a\qb""#), Err(ArenaError::InvalidArgument));
}

#[test]
fn unterminated_string_is_parse_error() {
    let mut lisp = Lisp::new(100);
    assert_eq!(
        read(&mut lisp, "\"abc"),
        Err(ArenaError::ParseError { line: 1, col: 5 })
    );
}

#[test]
fn reads_proper_list() {
    let mut lisp = Lisp::new(200);
    let l = read(&mut lisp, "(a b c)").unwrap();
    let (a, rest) = pair(&lisp, l);
    let (b, rest) = pair(&lisp, rest);
    let (c, rest) = pair(&lisp, rest);
    assert_eq!(symbol_name(&lisp, a), "a");
    assert_eq!(symbol_name(&lisp, b), "b");
    assert_eq!(symbol_name(&lisp, c), "c");
    assert!(rest.is_nil());
}

#[test]
fn reads_empty_list_as_nil() {
    let mut lisp = Lisp::new(100);
    assert_eq!(read(&mut lisp, "()"), Ok(ArenaIndex::nil()));
    assert_eq!(read(&mut lisp, "( )"), Ok(ArenaIndex::nil()));
}

#[test]
fn reads_dotted_pair() {
    let mut lisp = Lisp::new(200);
    let p = read(&mut lisp, "(1 . 2)").unwrap();
    let (a, b) = pair(&lisp, p);
    assert_eq!(value(&lisp, a), Value::Number(1));
    assert_eq!(value(&lisp, b), Value::Number(2));
}

#[test]
fn dot_symbol_in_list() {
    let mut lisp = Lisp::new(200);
    let l = read(&mut lisp, "(a .b)").unwrap();
    let (a, rest) = pair(&lisp, l);
    let (b, rest) = pair(&lisp, rest);
    assert_eq!(symbol_name(&lisp, a), "a");
    assert_eq!(symbol_name(&lisp, b), ".b");
    assert!(rest.is_nil());
}

#[test]
fn dot_at_list_start_is_error() {
    let mut lisp = Lisp::new(200);
    assert_eq!(
        read(&mut lisp, "( . a)"),
        Err(ArenaError::ParseError { line: 1, col: 4 })
    );
}

#[test]
fn dotted_pair_needs_close() {
    let mut lisp = Lisp::new(200);
    assert_eq!(
        read(&mut lisp, "(a . b c)"),
        Err(ArenaError::ParseError { line: 1, col: 9 })
    );
}

#[test]
fn reads_quote_shorthand() {
    let mut lisp = Lisp::new(200);
    let q = read(&mut lisp, "'x").unwrap();
    let (quote, rest) = pair(&lisp, q);
    let (x, rest) = pair(&lisp, rest);
    assert_eq!(symbol_name(&lisp, quote), "quote");
    assert_eq!(symbol_name(&lisp, x), "x");
    assert!(rest.is_nil());
    let q2 = read(&mut lisp, "'y").unwrap();
    let (quote2, _) = pair(&lisp, q2);
    assert_eq!(quote, quote2);
}

#[test]
fn skips_comments_and_whitespace() {
    let mut lisp = Lisp::new(200);
    let i = read(&mut lisp, "; a comment\n  \t\r\n ; another\n 5").unwrap();
    assert_eq!(value(&lisp, i), Value::Number(5));
}

#[test]
fn exhausted_source_reads_nil() {
    let mut lisp = Lisp::new(100);
    assert_eq!(read(&mut lisp, "   ; only a comment"), Ok(ArenaIndex::nil()));
    assert_eq!(read(&mut lisp, ""), Ok(ArenaIndex::nil()));
}

#[test]
fn stray_close_paren_reports_position() {
    let mut lisp = Lisp::new(100);
    let mut src = SliceSource::new("1   )");
    let one = lisp.parse_expr(&mut src).unwrap();
    assert_eq!(value(&lisp, one), Value::Number(1));
    assert_eq!(
        lisp.parse_expr(&mut src),
        Err(ArenaError::ParseError { line: 1, col: 6 })
    );
}

#[test]
fn error_position_counts_lines() {
    let mut lisp = Lisp::new(100);
    assert_eq!(
        read(&mut lisp, "\n\n  )"),
        Err(ArenaError::ParseError { line: 3, col: 4 })
    );
}

#[test]
fn unbalanced_parens_are_errors() {
    let mut lisp = Lisp::new(1000);
    for extra in 1..5 {
        let text = "(".repeat(1 + extra) + "1" + ")";
        assert!(read(&mut lisp, &text).is_err());
    }
}

#[test]
fn has_more_skips_to_next_expression() {
    let mut lisp = Lisp::new(200);
    let mut src = SliceSource::new("1 ; one\n 2 \n");
    let mut seen = Vec::new();
    while src.has_more() {
        let i = lisp.parse_expr(&mut src).unwrap();
        seen.push(value(&lisp, i));
    }
    assert_eq!(seen, vec![Value::Number(1), Value::Number(2)]);
    assert_eq!(lisp.parse_expr(&mut src), Ok(ArenaIndex::nil()));
}

#[test]
fn reads_from_a_string_chain() {
    let mut lisp = Lisp::new(300);
    let s = read(&mut lisp, "\"(f 'x 12)\"").unwrap();
    let mut src = ChainSource::new(&lisp, s);
    let l = lisp.parse_expr(&mut src).unwrap();
    let (f, rest) = pair(&lisp, l);
    assert_eq!(symbol_name(&lisp, f), "f");
    let (q, rest) = pair(&lisp, rest);
    let (quote, _) = pair(&lisp, q);
    assert_eq!(symbol_name(&lisp, quote), "quote");
    let (n, rest) = pair(&lisp, rest);
    assert_eq!(value(&lisp, n), Value::Number(12));
    assert!(rest.is_nil());
}

#[test]
fn chain_source_errors_report_position() {
    let mut lisp = Lisp::new(300);
    let s = read(&mut lisp, "\")\"").unwrap();
    let mut src = ChainSource::new(&lisp, s);
    assert_eq!(
        lisp.parse_expr(&mut src),
        Err(ArenaError::ParseError { line: 1, col: 2 })
    );
    let s = read(&mut lisp, "\"a\\n  )\"").unwrap();
    let mut src = ChainSource::new(&lisp, s);
    assert_eq!(lisp.parse_expr(&mut src).map(|i| symbol_name(&lisp, i)), Ok("a".to_string()));
    assert_eq!(
        lisp.parse_expr(&mut src),
        Err(ArenaError::ParseError { line: 2, col: 4 })
    );
}

#[test]
fn full_arena_is_out_of_memory() {
    let mut lisp = Lisp::new(10);
    assert_eq!(read(&mut lisp, "abc"), Err(ArenaError::OutOfMemory));
    assert_eq!(read(&mut lisp, "#t"), Err(ArenaError::OutOfMemory));
    assert_eq!(read(&mut lisp, "()"), Ok(ArenaIndex::nil()));
    assert_eq!(lisp.len(), 10);
}

#[test]
fn reading_keeps_existing_slots() {
    let mut lisp = Lisp::new(200);
    let a = read(&mut lisp, "(1 2)").unwrap();
    let before: Vec<Value> = (0..lisp.len()).map(|k| value(&lisp, ArenaIndex::new(k))).collect();
    let _ = read(&mut lisp, "(3 \"four\" 'five)").unwrap();
    for (k, v) in before.iter().enumerate() {
        if k != ArenaIndex::intern_list().raw() {
            assert_eq!(value(&lisp, ArenaIndex::new(k)), *v);
        }
    }
    let (one, _) = pair(&lisp, a);
    assert_eq!(value(&lisp, one), Value::Number(1));
}

#[test]
fn get_reports_bad_indices() {
    let lisp = Lisp::new(20);
    assert_eq!(lisp.get(ArenaIndex::new(0)), Ok(Value::Nil));
    assert_eq!(lisp.get(ArenaIndex::new(15)), Err(ArenaError::IndexNotAllocated));
    assert_eq!(lisp.get(ArenaIndex::new(20)), Err(ArenaError::IndexOutOfBounds));
    assert_eq!(lisp.capacity(), 20);
    assert_eq!(lisp.len(), 10);
}

#[test]
fn numbers_read_back() {
    let mut lisp = Lisp::new(2000);
    for n in [0isize, 7, -7, 10, -10, 1234567, -98765, isize::MAX, isize::MIN, isize::MIN + 1] {
        let text = n.to_string();
        let mut src = SliceSource::new(&text);
        let i = lisp.parse_expr(&mut src).unwrap();
        assert_eq!(value(&lisp, i), Value::Number(n));
        assert!(!src.has_more());
    }
}

#[test]
fn from_bool_slots_hold_booleans() {
    let lisp = Lisp::new(20);
    assert_eq!(value(&lisp, ArenaIndex::from_bool(true)), Value::Boolean(true));
    assert_eq!(value(&lisp, ArenaIndex::from_bool(false)), Value::Boolean(false));
    assert_eq!(value(&lisp, ArenaIndex::nil()), Value::Nil);
    assert_eq!(value(&lisp, ArenaIndex::ignore()), Value::Ignore);
}

#[test]
fn enough_room_never_runs_out() {
    let text = "(define! (fn f x) '(x . \"y\") #t -12 (a .b))";
    let mut lisp = Lisp::new(10 + 10 * text.len());
    let mut src = SliceSource::new(text);
    assert!(lisp.parse_expr(&mut src).is_ok());
}

fn same_shape(lisp: &Lisp, a: ArenaIndex, b: ArenaIndex) -> bool {
    match (value(lisp, a), value(lisp, b)) {
        (Value::Cons { car: a1, cdr: a2 }, Value::Cons { car: b1, cdr: b2 }) => {
            same_shape(lisp, a1, b1) && same_shape(lisp, a2, b2)
        }
        (Value::CharPair { .. }, Value::CharPair { .. }) => chars_of(lisp, a) == chars_of(lisp, b),
        (x, y) => x == y,
    }
}

#[test]
fn quote_shorthand_matches_quote_form() {
    let mut lisp = Lisp::new(500);
    let short = read(&mut lisp, "'(a \"s\" 1)").unwrap();
    let long = read(&mut lisp, "(quote (a \"s\" 1))").unwrap();
    assert!(same_shape(&lisp, short, long));
}

#[test]
fn list_ends_are_nil() {
    let mut lisp = Lisp::new(300);
    let l = read(&mut lisp, "(a .b)").unwrap();
    let (_, rest) = pair(&lisp, l);
    let (_, end) = pair(&lisp, rest);
    assert_eq!(end, ArenaIndex::nil());
    let q = read(&mut lisp, "'x").unwrap();
    let (_, rest) = pair(&lisp, q);
    let (_, end) = pair(&lisp, rest);
    assert_eq!(end, ArenaIndex::nil());
    assert_eq!(read(&mut lisp, "()"), Ok(ArenaIndex::nil()));
}

#[test]
fn string_chain_ends_at_nil() {
    let mut lisp = Lisp::new(300);
    let mut i = read(&mut lisp, r#""a\nb""#).unwrap();
    let mut seen = String::new();
    loop {
        match value(&lisp, i) {
            Value::CharPair { ch, cdr } => {
                seen.push(ch);
                i = cdr;
            }
            other => {
                assert_eq!(other, Value::Nil);
                break;
            }
        }
    }
    assert_eq!(i, ArenaIndex::nil());
    assert_eq!(seen, "a\nb");
}

#[test]
fn chain_source_reads_in_order() {
    let mut lisp = Lisp::new(300);
    let s = read(&mut lisp, "\"xyz\"").unwrap();
    let mut src = ChainSource::new(&lisp, s);
    assert_eq!(src.peek_char(), Some('x'));
    assert_eq!(src.read_char(), Some('x'));
    assert_eq!(src.read_char(), Some('y'));
    assert_eq!(src.position(), (1, 3));
    assert_eq!(src.read_char(), Some('z'));
    assert_eq!(src.read_char(), None);
    assert_eq!(src.read_char(), None);
}

#[test]
fn reading_needing_no_slot_works_in_full_arena() {
    let mut lisp = Lisp::new(10);
    assert_eq!(read(&mut lisp, "  ; note\n"), Ok(ArenaIndex::nil()));
    assert_eq!(read(&mut lisp, "( )"), Ok(ArenaIndex::nil()));
    assert_eq!(read(&mut lisp, "\"\""), Ok(ArenaIndex::nil()));
    assert_eq!(read(&mut lisp, ")"), Err(ArenaError::ParseError { line: 1, col: 2 }));
}

#[test]
fn reserved_slots_hold_environments_and_cells() {
    let lisp = Lisp::new(20);
    assert!(matches!(value(&lisp, ArenaIndex::ground_env()), Value::Environment { .. }));
    assert!(matches!(value(&lisp, ArenaIndex::global_env()), Value::Environment { .. }));
    assert!(matches!(value(&lisp, ArenaIndex::gc_roots()), Value::Cons { .. }));
    assert!(matches!(value(&lisp, ArenaIndex::intern_list()), Value::Cons { .. }));
    for k in 1..10 {
        assert_ne!(value(&lisp, ArenaIndex::new(k)), Value::Nil);
    }
}

#[test]
fn text_after_a_datum_does_not_change_it() {
    let mut lisp = Lisp::new(500);
    let alone = read(&mut lisp, "(a \"b\" 3) ").unwrap();
    let mut src = SliceSource::new("(a \"b\" 3) )junk(");
    let followed = lisp.parse_expr(&mut src).unwrap();
    assert!(same_shape(&lisp, alone, followed));
    assert_eq!(src.position(), (1, 10));
    assert_eq!(src.peek_char(), Some(' '));
}

fn interned_symbols(lisp: &Lisp) -> Vec<ArenaIndex> {
    let mut out = Vec::new();
    let (mut node, end) = pair(lisp, ArenaIndex::intern_list());
    assert_eq!(end, ArenaIndex::nil());
    while node != ArenaIndex::nil() {
        let (sym, next) = pair(lisp, node);
        out.push(sym);
        node = next;
    }
    out
}

#[test]
fn intern_cell_heads_the_symbol_list() {
    let mut lisp = Lisp::new(300);
    assert!(interned_symbols(&lisp).is_empty());
    let a = read(&mut lisp, "alpha").unwrap();
    assert_eq!(interned_symbols(&lisp), vec![a]);
    let l = read(&mut lisp, "(beta alpha beta)").unwrap();
    let (b, _) = pair(&lisp, l);
    assert_eq!(interned_symbols(&lisp), vec![b, a]);
    let _ = read(&mut lisp, "(1 \"alpha\" #t)").unwrap();
    assert_eq!(interned_symbols(&lisp), vec![b, a]);
}

#[test]
fn a_new_symbol_needs_two_free_slots() {
    let mut lisp = Lisp::new(13);
    assert_eq!(read(&mut lisp, "x"), Err(ArenaError::OutOfMemory));
    let mut lisp = Lisp::new(14);
    let x = read(&mut lisp, "x").unwrap();
    assert_eq!(symbol_name(&lisp, x), "x");
    assert_eq!(lisp.len(), 14);
    assert_eq!(read(&mut lisp, "x"), Err(ArenaError::OutOfMemory));
}

#[test]
fn whole_text_datum_is_unchanged_by_what_follows() {
    let mut lisp = Lisp::new(1000);
    for (alone, followed) in [
        ("abc", "abc (x)"),
        ("-42", "-42\t7"),
        ("'x", "'x\n'y"),
        ("''(a . b)", "''(a . b)  junk"),
        ("\"s\"", "\"s\" \"t\""),
        ("(1 2)", "(1 2)) ("),
        ("sym", "sym;comment"),
    ] {
        let a = read(&mut lisp, alone).unwrap();
        let mut src = SliceSource::new(followed);
        let b = lisp.parse_expr(&mut src).unwrap();
        assert!(same_shape(&lisp, a, b), "{alone:?} against {followed:?}");
        assert_eq!(src.position(), (1, alone.len() as u32 + 1));
    }
}

#[test]
fn a_lone_quote_takes_the_next_datum() {
    let mut lisp = Lisp::new(300);
    let alone = read(&mut lisp, "'").unwrap();
    let (_, rest) = pair(&lisp, alone);
    let (quoted, _) = pair(&lisp, rest);
    assert_eq!(quoted, ArenaIndex::nil());
    let followed = read(&mut lisp, "' x").unwrap();
    let (_, rest) = pair(&lisp, followed);
    let (quoted, _) = pair(&lisp, rest);
    assert_eq!(symbol_name(&lisp, quoted), "x");
}

#[test]
fn list_elements_read_as_they_read_alone() {
    let mut lisp = Lisp::new(2000);
    let elements = ["abc", "-3", "\"str\"", "'q", "(nested . pair)", ".dot", "#t"];
    let mut text = String::from("(");
    for e in elements {
        text.push_str(e);
        text.push(' ');
    }
    text.push_str(") rest");
    let mut src = SliceSource::new(&text);
    let list = lisp.parse_expr(&mut src).unwrap();
    let mut node = list;
    for e in elements {
        let (car, cdr) = pair(&lisp, node);
        let alone = read(&mut lisp, e).unwrap();
        assert!(same_shape(&lisp, car, alone), "element {e:?}");
        node = cdr;
    }
    assert_eq!(node, ArenaIndex::nil());
    assert!(src.has_more());
    assert_eq!(src.read_char(), Some('r'));
}

#[test]
fn successive_reads_deliver_the_text_then_none() {
    let text = "a\nbc";
    let mut src = SliceSource::new(text);
    let mut got = Vec::new();
    for _ in 0..7 {
        got.push(src.read_char());
    }
    assert_eq!(got, vec![Some('a'), Some('\n'), Some('b'), Some('c'), None, None, None]);
    assert_eq!(src.position(), (2, 3));

    let mut lisp = Lisp::new(300);
    let s = read(&mut lisp, "\"a\\nbc\"").unwrap();
    let mut chain = ChainSource::new(&lisp, s);
    let mut got = Vec::new();
    for _ in 0..7 {
        got.push(chain.read_char());
    }
    assert_eq!(got, vec![Some('a'), Some('\n'), Some('b'), Some('c'), None, None, None]);
    assert_eq!(chain.position(), (2, 3));
}

#[test]
fn a_symbol_read_twice_is_one_slot() {
    let mut lisp = Lisp::new(500);
    let first = read(&mut lisp, "(name other)").unwrap();
    let (a, _) = pair(&lisp, first);
    let second = read(&mut lisp, "'name").unwrap();
    let (_, rest) = pair(&lisp, second);
    let (b, _) = pair(&lisp, rest);
    assert_eq!(a, b);
    let (quote_sym, _) = pair(&lisp, second);
    assert_eq!(read(&mut lisp, "quote").unwrap(), quote_sym);
}
