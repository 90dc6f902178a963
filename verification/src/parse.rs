//! The S-expression reader: a recursive-descent parser over any
//! [`CharSource`], building its results in the [`Lisp`] arena.
//!
//! It reads proper and dotted lists `(a b c)`, `(a . b)`; the quote
//! shorthand `'x` for `(quote x)`; string literals with the escapes `\n`,
//! `\t`, `\r`, `\\` and `\"`; atoms (booleans, `#inert`, `#ignore`,
//! integers and symbols); and `;` line comments.
//!
//! The grammar is stated below as spec functions over the characters left
//! to read; each reading function is proved to follow it.

use vstd::prelude::*;
use crate::types::{ArenaError, ArenaIndex, decimal, digit_char};
use crate::value::{
    Value,
    SExpr,
    decode,
    chain_chars,
    keeps,
    intern_cell,
    avoids_intern_cell,
    lemma_stable,
    lemma_chain_nonempty,
};
use crate::lisp::{
    Lisp,
    chain_link,
    classify,
    atom_sexpr,
    string_sexpr,
    AtomClass,
    is_digit,
    is_numeral,
    numeral_value,
    digits_of,
    digits_value,
    has_sign,
};
use crate::source::{
    CharSource,
    rest_of,
    is_ws,
    skip_ws_spec,
    skip_comment_spec,
    lemma_skip_ws,
};

verus! {

/// Whitespace, parentheses, `"` and `;`: the characters that end an atom.
pub open spec fn is_delim(c: char) -> bool {
    is_ws(c) || c == '(' || c == ')' || c == '"' || c == ';'
}

/// The kinds of reading errors.
pub enum ParseErrorKind {
    /// Malformed syntax: reported with the source position.
    Syntax,
    /// An unknown escape in a string literal.
    BadEscape,
    /// A numeral that does not fit in `isize`.
    Overflow,
}

/// The result of reading: an S-expression or an error, each with the
/// characters left to read.
pub enum Parsed {
    Value(SExpr, Seq<char>),
    Failed(ParseErrorKind, Seq<char>),
}

/// The error value that the reader returns for an error kind, at the
/// source position `pos`.
pub open spec fn error_of(k: ParseErrorKind, pos: (u32, u32)) -> ArenaError {
    match k {
        ParseErrorKind::Syntax => ArenaError::ParseError { line: pos.0, col: pos.1 },
        ParseErrorKind::BadEscape => ArenaError::InvalidArgument,
        ParseErrorKind::Overflow => ArenaError::ArithmeticOverflow,
    }
}

/// The characters of an atom (up to a delimiter or the end) and what follows.
pub open spec fn scan_atom(v: Seq<char>) -> (Seq<char>, Seq<char>)
    decreases v.len(),
{
    if v.len() == 0 || is_delim(v[0]) {
        (seq![], v)
    } else {
        let r = scan_atom(v.drop_first());
        (seq![v[0]] + r.0, r.1)
    }
}

/// An atom whose first character `first` has been read.
pub open spec fn parse_atom_spec(first: char, v: Seq<char>) -> Parsed {
    let text = seq![first] + scan_atom(v).0;
    let rest = scan_atom(v).1;
    if classify(text) is Overflow {
        Parsed::Failed(ParseErrorKind::Overflow, rest)
    } else {
        Parsed::Value(atom_sexpr(text), rest)
    }
}

/// The character that a backslash escape stands for.
pub open spec fn escape_of(c: char) -> Option<char> {
    if c == 'n' {
        Some('\n')
    } else if c == 't' {
        Some('\t')
    } else if c == 'r' {
        Some('\r')
    } else if c == '\\' {
        Some('\\')
    } else if c == '"' {
        Some('"')
    } else {
        None
    }
}

/// The result of scanning the body of a string literal.
pub enum StrScan {
    Done(Seq<char>, Seq<char>),
    Bad(ParseErrorKind, Seq<char>),
}

/// `x` with the characters `acc` in front of its string.
pub open spec fn prefixed(acc: Seq<char>, x: StrScan) -> StrScan {
    match x {
        StrScan::Done(cs, r) => StrScan::Done(acc + cs, r),
        StrScan::Bad(k, r) => StrScan::Bad(k, r),
    }
}

/// The body of a string literal whose opening `"` has been read.
pub open spec fn scan_string(u: Seq<char>) -> StrScan
    decreases u.len(),
{
    if u.len() == 0 {
        StrScan::Bad(ParseErrorKind::Syntax, u)
    } else if u[0] == '"' {
        StrScan::Done(seq![], u.drop_first())
    } else if u[0] == '\\' {
        let v = u.drop_first();
        if v.len() == 0 {
            StrScan::Bad(ParseErrorKind::Syntax, v)
        } else {
            match escape_of(v[0]) {
                Some(e) => prefixed(seq![e], scan_string(v.drop_first())),
                None => StrScan::Bad(ParseErrorKind::BadEscape, v.drop_first()),
            }
        }
    } else {
        prefixed(seq![u[0]], scan_string(u.drop_first()))
    }
}

/// A string literal whose opening `"` has been read.
pub open spec fn parse_string_spec(u: Seq<char>) -> Parsed {
    match scan_string(u) {
        StrScan::Done(cs, r) => Parsed::Value(string_sexpr(cs), r),
        StrScan::Bad(k, r) => Parsed::Failed(k, r),
    }
}

/// The symbol `quote`.
pub open spec fn quote_name() -> Seq<char> {
    seq!['q', 'u', 'o', 't', 'e']
}

/// `(quote e)`.
pub open spec fn quoted(e: SExpr) -> SExpr {
    SExpr::Pair(
        Box::new(SExpr::Sym(quote_name())),
        Box::new(SExpr::Pair(Box::new(e), Box::new(SExpr::Nil))),
    )
}

/// The placeholder of a branch that [`lemma_list_rest`] shows unreachable:
/// reading an element from text that starts with one always consumes some.
pub open spec fn unreachable_parse() -> Parsed {
    Parsed::Failed(ParseErrorKind::Syntax, seq![])
}

/// The characters left after a reading result.
pub open spec fn parsed_rest(p: Parsed) -> Seq<char> {
    match p {
        Parsed::Value(_, r) => r,
        Parsed::Failed(_, r) => r,
    }
}

/// One S-expression: after whitespace and comments, a list, a quotation,
/// a string or an atom; `()` when the text is used up; a syntax error at a
/// stray `)`.
pub open spec fn parse_expr_spec(s: Seq<char>) -> Parsed
    decreases s.len(), 0int,
{
    let t = skip_ws_spec(s);
    if t.len() == 0 {
        Parsed::Value(SExpr::Nil, t)
    } else {
        proof {
            lemma_skip_ws(s);
        }
        let c = t[0];
        let u = t.drop_first();
        if c == '(' {
            parse_list_spec(u)
        } else if c == '\'' {
            parse_quote_spec(u)
        } else if c == '"' {
            parse_string_spec(u)
        } else if c == ')' {
            Parsed::Failed(ParseErrorKind::Syntax, u)
        } else {
            parse_atom_spec(c, u)
        }
    }
}

/// `'e`, whose quote has been read, stands for `(quote e)`.
pub open spec fn parse_quote_spec(u: Seq<char>) -> Parsed
    decreases u.len(), 1int,
{
    match parse_expr_spec(u) {
        Parsed::Value(e, r) => Parsed::Value(quoted(e), r),
        f => f,
    }
}

/// The rest of a list whose `(` (and perhaps some elements) has been read:
/// `)`, an element and the rest of the list, or a dot and the final cdr.
/// A `.` that is not followed by a delimiter starts a symbol.
pub open spec fn parse_list_spec(u: Seq<char>) -> Parsed
    decreases u.len(), 1int,
{
    let t = skip_ws_spec(u);
    proof {
        lemma_skip_ws(u);
    }
    if t.len() == 0 {
        Parsed::Failed(ParseErrorKind::Syntax, t)
    } else if t[0] == ')' {
        Parsed::Value(SExpr::Nil, t.drop_first())
    } else if t[0] == '.' {
        let v = t.drop_first();
        if v.len() == 0 || is_delim(v[0]) {
            Parsed::Failed(ParseErrorKind::Syntax, v)
        } else {
            proof {
                lemma_scan_atom(v);
            }
            match parse_atom_spec('.', v) {
                Parsed::Value(a, r1) => match parse_list_spec(r1) {
                    Parsed::Value(rest, r2) => Parsed::Value(
                        SExpr::Pair(Box::new(a), Box::new(rest)),
                        r2,
                    ),
                    f => f,
                },
                f => f,
            }
        }
    } else {
        match parse_expr_spec(t) {
            Parsed::Value(car, r1) => if r1.len() < t.len() {
                let r2 = skip_ws_spec(r1);
                proof {
                    lemma_skip_ws(r1);
                }
                if r2.len() > 0 && r2[0] == '.' {
                    let y = r2.drop_first();
                    if y.len() == 0 || is_delim(y[0]) {
                        match parse_expr_spec(y) {
                            Parsed::Value(cdr, r3) => {
                                let r4 = skip_ws_spec(r3);
                                if r4.len() > 0 && r4[0] == ')' {
                                    Parsed::Value(
                                        SExpr::Pair(Box::new(car), Box::new(cdr)),
                                        r4.drop_first(),
                                    )
                                } else if r4.len() > 0 {
                                    Parsed::Failed(ParseErrorKind::Syntax, r4.drop_first())
                                } else {
                                    Parsed::Failed(ParseErrorKind::Syntax, r4)
                                }
                            },
                            f => f,
                        }
                    } else {
                        proof {
                            lemma_scan_atom(y);
                        }
                        match parse_atom_spec('.', y) {
                            Parsed::Value(a, r3) => match parse_list_spec(r3) {
                                Parsed::Value(rest, r4) => Parsed::Value(
                                    SExpr::Pair(
                                        Box::new(car),
                                        Box::new(SExpr::Pair(Box::new(a), Box::new(rest))),
                                    ),
                                    r4,
                                ),
                                f => f,
                            },
                            f => f,
                        }
                    }
                } else {
                    match parse_list_spec(r2) {
                        Parsed::Value(cdr, r3) => Parsed::Value(
                            SExpr::Pair(Box::new(car), Box::new(cdr)),
                            r3,
                        ),
                        f => f,
                    }
                }
            } else {
                unreachable_parse()
            },
            f => f,
        }
    }
}

/// Scanning an atom never lengthens the text.
pub proof fn lemma_scan_atom(v: Seq<char>)
    ensures
        scan_atom(v).1.len() <= v.len(),
        scan_atom(v).1.len() + scan_atom(v).0.len() == v.len(),
    decreases v.len(),
{
    if v.len() > 0 && !is_delim(v[0]) {
        lemma_scan_atom(v.drop_first());
    }
}

/// Scanning a string never lengthens the text.
pub proof fn lemma_scan_string(u: Seq<char>)
    ensures
        parsed_rest(parse_string_spec(u)).len() <= u.len(),
    decreases u.len(),
{
    if u.len() > 0 && u[0] != '"' {
        if u[0] == '\\' {
            if u.len() > 1 {
                lemma_scan_string(u.drop_first().drop_first());
            }
        } else {
            lemma_scan_string(u.drop_first());
        }
    }
}

/// Reading an expression never lengthens the text, and when something is
/// left after whitespace it consumes at least one character.
pub proof fn lemma_expr_rest(s: Seq<char>)
    ensures
        parsed_rest(parse_expr_spec(s)).len() <= s.len(),
        skip_ws_spec(s).len() > 0 ==> parsed_rest(parse_expr_spec(s)).len() < s.len(),
    decreases s.len(), 0int,
{
    lemma_skip_ws(s);
    let t = skip_ws_spec(s);
    if t.len() > 0 {
        let u = t.drop_first();
        let c = t[0];
        if c == '(' {
            lemma_list_rest(u);
        } else if c == '\'' {
            lemma_quote_rest(u);
        } else if c == '"' {
            lemma_scan_string(u);
        } else if c != ')' {
            lemma_scan_atom(u);
        }
    }
}

/// Reading a quotation never lengthens the text.
pub proof fn lemma_quote_rest(u: Seq<char>)
    ensures
        parsed_rest(parse_quote_spec(u)).len() <= u.len(),
    decreases u.len(), 1int,
{
    lemma_expr_rest(u);
}

/// Reading the rest of a list never lengthens the text.
pub proof fn lemma_list_rest(u: Seq<char>)
    ensures
        parsed_rest(parse_list_spec(u)).len() <= u.len(),
    decreases u.len(), 1int,
{
    lemma_skip_ws(u);
    let t = skip_ws_spec(u);
    if t.len() > 0 && t[0] != ')' {
        if t[0] == '.' {
            let v = t.drop_first();
            if v.len() > 0 && !is_delim(v[0]) {
                lemma_scan_atom(v);
                lemma_list_rest(scan_atom(v).1);
            }
        } else {
            lemma_expr_rest(t);
            match parse_expr_spec(t) {
                Parsed::Value(car, r1) => {
                    if r1.len() < t.len() {
                        lemma_skip_ws(r1);
                        let r2 = skip_ws_spec(r1);
                        if r2.len() > 0 && r2[0] == '.' {
                            let y = r2.drop_first();
                            if y.len() == 0 || is_delim(y[0]) {
                                lemma_expr_rest(y);
                                match parse_expr_spec(y) {
                                    Parsed::Value(cdr, r3) => {
                                        lemma_skip_ws(r3);
                                    },
                                    _ => {},
                                }
                            } else {
                                lemma_scan_atom(y);
                                lemma_list_rest(scan_atom(y).1);
                            }
                        } else {
                            lemma_list_rest(r2);
                        }
                    }
                },
                _ => {},
            }
        }
    }
}

/// When nothing but whitespace and comments is left, reading gives `()`
/// and leaves nothing; this is what `SliceSource::has_more` answering
/// `false` promises of the next read. (When something is left, reading
/// consumes at least one character: [`lemma_expr_rest`].)
pub proof fn lemma_exhausted_reads_nil(s: Seq<char>)
    requires
        skip_ws_spec(s).len() == 0,
    ensures
        parse_expr_spec(s) == Parsed::Value(SExpr::Nil, skip_ws_spec(s)),
{
}

/// The decimal numeral of an integer, with a leading `-` when negative: the
/// text that `isize`'s `Display` writes.
pub open spec fn numeral_text(n: int) -> Seq<char> {
    if n < 0 {
        seq!['-'] + decimal((-n) as nat)
    } else {
        decimal(n as nat)
    }
}

/// A decimal numeral is a non-empty run of digits whose value is the number.
pub proof fn lemma_decimal_digits(m: nat)
    ensures
        decimal(m).len() > 0,
        forall|i: int| 0 <= i < decimal(m).len() ==> is_digit(#[trigger] decimal(m)[i]),
        digits_value(decimal(m)) == m,
    decreases m,
{
    if m < 10 {
        assert(digit_char(m) as int == 48 + m);
        assert(decimal(m).drop_last() =~= Seq::<char>::empty());
        assert(decimal(m).last() == digit_char(m));
        assert(digits_value(Seq::<char>::empty()) == 0);
    } else {
        lemma_decimal_digits(m / 10);
        let d = decimal(m);
        assert(d.drop_last() =~= decimal(m / 10));
        assert(digit_char(m % 10) as int == 48 + m % 10);
        assert(d.last() == digit_char(m % 10));
        assert(m == (m / 10) * 10 + m % 10) by (nonlinear_arith);
        assert forall|i: int| 0 <= i < d.len() implies is_digit(#[trigger] d[i]) by {
            if i < d.len() - 1 {
                assert(d[i] == decimal(m / 10)[i]);
            }
        }
    }
}

/// Text without delimiters is one atom.
pub proof fn lemma_scan_atom_whole(u: Seq<char>)
    requires
        forall|i: int| 0 <= i < u.len() ==> !is_delim(#[trigger] u[i]),
    ensures
        scan_atom(u).0 == u,
        scan_atom(u).1 == Seq::<char>::empty(),
    decreases u.len(),
{
    if u.len() > 0 {
        let v = u.drop_first();
        assert forall|i: int| 0 <= i < v.len() implies !is_delim(#[trigger] v[i]) by {
            assert(v[i] == u[i + 1]);
        }
        lemma_scan_atom_whole(v);
        assert(seq![u[0]] + v =~= u);
    } else {
        assert(u =~= Seq::<char>::empty());
    }
}

proof fn lemma_numeral_atom(n: int)
    ensures
        isize::MIN <= n <= isize::MAX ==> parse_expr_spec(numeral_text(n)) == Parsed::Value(
            SExpr::Num(n),
            Seq::<char>::empty(),
        ),
        !(isize::MIN <= n <= isize::MAX) ==> parse_expr_spec(numeral_text(n)) == Parsed::Failed(
            ParseErrorKind::Overflow,
            Seq::<char>::empty(),
        ),
{
    let m: nat = if n < 0 {
        (-n) as nat
    } else {
        n as nat
    };
    lemma_decimal_digits(m);
    let d = decimal(m);
    let t = numeral_text(n);
    assert(t.len() > 0);
    assert forall|i: int| 0 <= i < t.len() implies !is_delim(#[trigger] t[i]) && t[i] != '#'
        && t[i] != '\'' by {
        if n < 0 {
            if i > 0 {
                assert(t[i] == d[i - 1]);
                assert(is_digit(d[i - 1]));
            }
        } else {
            assert(is_digit(d[i]));
        }
    }
    assert(skip_ws_spec(t) == t);
    let u = t.drop_first();
    assert forall|i: int| 0 <= i < u.len() implies !is_delim(#[trigger] u[i]) by {
        assert(u[i] == t[i + 1]);
    }
    lemma_scan_atom_whole(u);
    assert(seq![t[0]] + u =~= t);
    let text = seq![t[0]] + scan_atom(u).0;
    assert(text == t);
    assert(t[0] != '#');
    assert(t != seq!['#', 't']);
    assert(t != seq!['#', 't', 'r', 'u', 'e']);
    assert(t != seq!['#', 'f']);
    assert(t != seq!['#', 'f', 'a', 'l', 's', 'e']);
    assert(t != seq!['#', 'i', 'n', 'e', 'r', 't']);
    assert(t != seq!['#', 'i', 'g', 'n', 'o', 'r', 'e']);
    if n < 0 {
        assert(has_sign(t));
        assert(digits_of(t) =~= d);
    } else {
        assert(is_digit(t[0]));
        assert(!has_sign(t));
        assert(digits_of(t) == d);
    }
    assert(is_numeral(t));
    assert(numeral_value(t) == n);
}

/// Numbers read back: the decimal text of any `isize` reads as that
/// number, with nothing left over.
pub proof fn lemma_numeral_reads_back(n: int)
    requires
        isize::MIN <= n <= isize::MAX,
    ensures
        parse_expr_spec(numeral_text(n)) == Parsed::Value(SExpr::Num(n), Seq::<char>::empty()),
{
    lemma_numeral_atom(n);
}

/// A numeral whose value does not fit in `isize` is an arithmetic
/// overflow, never a number or a symbol.
pub proof fn lemma_numeral_overflows(n: int)
    requires
        n < isize::MIN || n > isize::MAX,
    ensures
        parse_expr_spec(numeral_text(n)) == Parsed::Failed(
            ParseErrorKind::Overflow,
            Seq::<char>::empty(),
        ),
{
    lemma_numeral_atom(n);
}

/// `t` is empty or starts with space, tab, newline, carriage return, a
/// parenthesis, `"` or `;`.
pub open spec fn ends_atom(t: Seq<char>) -> bool {
    t.len() == 0 || t[0] == ' ' || t[0] == '\t' || t[0] == '\n' || t[0] == '\r' || t[0] == '('
        || t[0] == ')' || t[0] == '"' || t[0] == ';'
}

/// `c` is none of space, tab, newline, carriage return, the parentheses,
/// `"` and `;`.
pub open spec fn atom_char(c: char) -> bool {
    !(c == ' ' || c == '\t' || c == '\n' || c == '\r' || c == '(' || c == ')' || c == '"' || c
        == ';')
}

/// An atom's text, read where it ends: reading it is classifying it.
proof fn lemma_atom_then(cs: Seq<char>, t: Seq<char>)
    requires
        cs.len() > 0,
        cs[0] != '\'',
        forall|i: int| 0 <= i < cs.len() ==> atom_char(#[trigger] cs[i]),
        ends_atom(t),
    ensures
        parse_expr_spec(cs + t) == (if classify(cs) is Overflow {
            Parsed::Failed(ParseErrorKind::Overflow, t)
        } else {
            Parsed::Value(atom_sexpr(cs), t)
        }),
{
    let x = cs + t;
    let u = cs.drop_first();
    assert forall|i: int| 0 <= i < u.len() implies !is_delim(#[trigger] u[i]) by {
        assert(u[i] == cs[i + 1]);
        assert(atom_char(cs[i + 1]));
        lemma_delimiters(u[i]);
    }
    lemma_scan_atom_whole(u);
    if t.len() > 0 {
        lemma_delimiters(t[0]);
    }
    lemma_scan_atom_end(u, t);
    assert(x[0] == cs[0]);
    assert(atom_char(cs[0]));
    lemma_delimiters(cs[0]);
    assert(x.drop_first() =~= u + t);
    lemma_reads_after_ws(x);
    lemma_skip_ws(x);
    assert(seq![cs[0]] + u =~= cs);
}

/// The boolean and special literals: `#t` and `#true` read as true, `#f`
/// and `#false` as false, `#inert` and `#ignore` as themselves, wherever
/// the literal ends.
pub proof fn lemma_literals(t: Seq<char>)
    requires
        ends_atom(t),
    ensures
        parse_expr_spec(seq!['#', 't'] + t) == Parsed::Value(SExpr::Bool(true), t),
        parse_expr_spec(seq!['#', 't', 'r', 'u', 'e'] + t) == Parsed::Value(SExpr::Bool(true), t),
        parse_expr_spec(seq!['#', 'f'] + t) == Parsed::Value(SExpr::Bool(false), t),
        parse_expr_spec(seq!['#', 'f', 'a', 'l', 's', 'e'] + t) == Parsed::Value(
            SExpr::Bool(false),
            t,
        ),
        parse_expr_spec(seq!['#', 'i', 'n', 'e', 'r', 't'] + t) == Parsed::Value(SExpr::Inert, t),
        parse_expr_spec(seq!['#', 'i', 'g', 'n', 'o', 'r', 'e'] + t) == Parsed::Value(
            SExpr::Ignore,
            t,
        ),
{
    lemma_atom_then(seq!['#', 't'], t);
    lemma_atom_then(seq!['#', 't', 'r', 'u', 'e'], t);
    lemma_atom_then(seq!['#', 'f'], t);
    lemma_atom_then(seq!['#', 'f', 'a', 'l', 's', 'e'], t);
    lemma_atom_then(seq!['#', 'i', 'n', 'e', 'r', 't'], t);
    lemma_atom_then(seq!['#', 'i', 'g', 'n', 'o', 'r', 'e'], t);
}

/// Symbols are read as written: an atom whose first character is none of
/// a digit, `+`, `-`, `#` and the quote mark reads as the symbol named by
/// exactly its characters, and leaves what follows.
pub proof fn lemma_symbol_text(cs: Seq<char>, t: Seq<char>)
    requires
        cs.len() > 0,
        !(48 <= cs[0] as int <= 57),
        cs[0] != '+' && cs[0] != '-' && cs[0] != '#' && cs[0] != '\'',
        forall|i: int| 0 <= i < cs.len() ==> atom_char(#[trigger] cs[i]),
        ends_atom(t),
    ensures
        parse_expr_spec(cs + t) == Parsed::Value(SExpr::Sym(cs), t),
{
    lemma_atom_then(cs, t);
    assert(!has_sign(cs));
    assert(digits_of(cs) == cs);
    assert(!is_digit(cs[0]));
    assert(!is_numeral(cs));
    assert(cs != seq!['#', 't']);
    assert(cs != seq!['#', 't', 'r', 'u', 'e']);
    assert(cs != seq!['#', 'f']);
    assert(cs != seq!['#', 'f', 'a', 'l', 's', 'e']);
    assert(cs != seq!['#', 'i', 'n', 'e', 'r', 't']);
    assert(cs != seq!['#', 'i', 'g', 'n', 'o', 'r', 'e']);
}

proof fn lemma_leading_zero(ds: Seq<char>)
    ensures
        digits_value(seq!['0'] + ds) == digits_value(ds),
    decreases ds.len(),
{
    let x = seq!['0'] + ds;
    if ds.len() == 0 {
        assert(x.drop_last() =~= Seq::<char>::empty());
        assert(x.last() == '0');
        assert('0' as int == 48);
        assert(digits_value(x.drop_last()) == 0);
        assert(digits_value(x) == digits_value(x.drop_last()) * 10 + (x.last() as int - 48));
        assert(ds =~= Seq::<char>::empty());
    } else {
        assert(x.drop_last() =~= seq!['0'] + ds.drop_last());
        assert(x.last() == ds.last());
        lemma_leading_zero(ds.drop_last());
        assert(digits_value(x.drop_last()) == digits_value(ds.drop_last()));
        assert(digits_value(x) == digits_value(x.drop_last()) * 10 + (x.last() as int - 48));
        assert(digits_value(ds) == digits_value(ds.drop_last()) * 10 + (ds.last() as int - 48));
    }
}

proof fn lemma_digits_nonneg(ds: Seq<char>)
    requires
        forall|i: int| 0 <= i < ds.len() ==> is_digit(#[trigger] ds[i]),
    ensures
        digits_value(ds) >= 0,
    decreases ds.len(),
{
    if ds.len() > 0 {
        assert forall|i: int| 0 <= i < ds.drop_last().len() implies is_digit(
            #[trigger] ds.drop_last()[i],
        ) by {
            assert(ds.drop_last()[i] == ds[i]);
        }
        lemma_digits_nonneg(ds.drop_last());
        assert(is_digit(ds[ds.len() - 1]));
    }
}

/// A numeral is none of the literals: it reads as its value, or as an
/// overflow.
proof fn lemma_numeral_class(cs: Seq<char>)
    requires
        is_numeral(cs),
    ensures
        classify(cs) == (if isize::MIN <= numeral_value(cs) <= isize::MAX {
            AtomClass::Num(numeral_value(cs))
        } else {
            AtomClass::Overflow
        }),
{
    if !has_sign(cs) {
        assert(is_digit(digits_of(cs)[0]));
    }
    assert(cs[0] != '#');
    assert(cs != seq!['#', 't'] && cs != seq!['#', 't', 'r', 'u', 'e'] && cs != seq!['#', 'f']);
    assert(cs != seq!['#', 'f', 'a', 'l', 's', 'e'] && cs != seq!['#', 'i', 'n', 'e', 'r', 't']);
    assert(cs != seq!['#', 'i', 'g', 'n', 'o', 'r', 'e']);
}

/// Digits with `c` in front are atom characters when `c` is one.
proof fn lemma_prefixed_atom(c: char, ds: Seq<char>)
    requires
        atom_char(c),
        forall|i: int| 0 <= i < ds.len() ==> 48 <= #[trigger] ds[i] as int <= 57,
    ensures
        forall|i: int| 0 <= i < (seq![c] + ds).len() ==> atom_char(#[trigger] (seq![c] + ds)[i]),
{
    assert forall|i: int| 0 <= i < (seq![c] + ds).len() implies atom_char(
        #[trigger] (seq![c] + ds)[i],
    ) by {
        if i > 0 {
            assert((seq![c] + ds)[i] == ds[i - 1]);
            assert(48 <= ds[i - 1] as int <= 57);
        }
    }
}

/// How the sign and leading zeros of a numeral read: for digits `ds`
/// (ending where an atom ends), `+` in front reads as `ds` alone, `0` in
/// front reads as `ds` alone, and `-` in front reads as the negated number.
#[verifier::rlimit(40)]
pub proof fn lemma_numeral_sign_and_zero(ds: Seq<char>, t: Seq<char>)
    requires
        ds.len() > 0,
        forall|i: int| 0 <= i < ds.len() ==> 48 <= #[trigger] ds[i] as int <= 57,
        ends_atom(t),
    ensures
        parse_expr_spec(seq!['+'] + ds + t) == parse_expr_spec(ds + t),
        parse_expr_spec(seq!['0'] + ds + t) == parse_expr_spec(ds + t),
        parse_expr_spec(ds + t) matches Parsed::Value(SExpr::Num(n), r) ==> parse_expr_spec(
            seq!['-'] + ds + t,
        ) == Parsed::Value(SExpr::Num(-n), r),
{
    assert forall|i: int| 0 <= i < ds.len() implies atom_char(#[trigger] ds[i]) && is_digit(
        ds[i],
    ) by {
        assert(48 <= ds[i] as int <= 57);
    }
    let p = seq!['+'] + ds;
    let z = seq!['0'] + ds;
    let m = seq!['-'] + ds;
    lemma_prefixed_atom('+', ds);
    lemma_prefixed_atom('0', ds);
    lemma_prefixed_atom('-', ds);
    lemma_atom_then(ds, t);
    lemma_atom_then(p, t);
    lemma_atom_then(z, t);
    lemma_atom_then(m, t);
    assert(p.drop_first() =~= ds);
    assert(m.drop_first() =~= ds);
    assert(digits_of(ds) == ds);
    assert(digits_of(p) == ds);
    assert(digits_of(m) == ds);
    assert(digits_of(z) == z);
    assert forall|i: int| 0 <= i < z.len() implies is_digit(#[trigger] z[i]) by {
        if i > 0 {
            assert(z[i] == ds[i - 1]);
        }
    }
    lemma_leading_zero(ds);
    lemma_numeral_class(ds);
    lemma_numeral_class(p);
    lemma_numeral_class(z);
    lemma_numeral_class(m);
    assert(seq!['+'] + ds + t == p + t);
    assert(seq!['0'] + ds + t == z + t);
    assert(seq!['-'] + ds + t == m + t);
    assert(numeral_value(ds) == digits_value(ds));
    assert(has_sign(m) && m[0] == '-');
    assert(numeral_value(m) == -digits_value(ds));
    lemma_digits_nonneg(ds);
}

/// `s` holds no closing parenthesis.
pub open spec fn no_close(s: Seq<char>) -> bool {
    forall|i: int| 0 <= i < s.len() ==> s[i] != ')'
}

proof fn lemma_no_close_drop(s: Seq<char>)
    requires
        no_close(s),
        s.len() > 0,
    ensures
        no_close(s.drop_first()),
{
    assert forall|i: int| 0 <= i < s.drop_first().len() implies s.drop_first()[i] != ')' by {
        assert(s.drop_first()[i] == s[i + 1]);
    }
}

proof fn lemma_skip_ws_no_close(s: Seq<char>)
    requires
        no_close(s),
    ensures
        no_close(skip_ws_spec(s)),
    decreases s.len(), 1int,
{
    if s.len() > 0 {
        lemma_no_close_drop(s);
        if is_ws(s[0]) {
            lemma_skip_ws_no_close(s.drop_first());
        } else if s[0] == ';' {
            lemma_skip_comment_no_close(s.drop_first());
        }
    }
}

proof fn lemma_skip_comment_no_close(s: Seq<char>)
    requires
        no_close(s),
    ensures
        no_close(skip_comment_spec(s)),
    decreases s.len(), 0int,
{
    if s.len() > 0 {
        lemma_no_close_drop(s);
        if s[0] == '\n' {
            lemma_skip_ws_no_close(s.drop_first());
        } else {
            lemma_skip_comment_no_close(s.drop_first());
        }
    }
}

proof fn lemma_scan_atom_no_close(v: Seq<char>)
    requires
        no_close(v),
    ensures
        no_close(scan_atom(v).1),
    decreases v.len(),
{
    if v.len() > 0 && !is_delim(v[0]) {
        lemma_no_close_drop(v);
        lemma_scan_atom_no_close(v.drop_first());
    }
}

/// The characters left after scanning a string body.
pub open spec fn scan_rest(x: StrScan) -> Seq<char> {
    match x {
        StrScan::Done(_, r) => r,
        StrScan::Bad(_, r) => r,
    }
}

proof fn lemma_scan_string_no_close(u: Seq<char>)
    requires
        no_close(u),
    ensures
        no_close(scan_rest(scan_string(u))),
        parsed_rest(parse_string_spec(u)) == scan_rest(scan_string(u)),
    decreases u.len(),
{
    if u.len() > 0 {
        lemma_no_close_drop(u);
        if u[0] != '"' {
            if u[0] == '\\' {
                let v = u.drop_first();
                if v.len() > 0 {
                    lemma_no_close_drop(v);
                    lemma_scan_string_no_close(v.drop_first());
                }
            } else {
                lemma_scan_string_no_close(u.drop_first());
            }
        }
    }
}

/// Reading an expression from text without `)` leaves text without `)`.
proof fn lemma_expr_no_close(s: Seq<char>)
    requires
        no_close(s),
    ensures
        no_close(parsed_rest(parse_expr_spec(s))),
    decreases s.len(), 0int,
{
    lemma_skip_ws(s);
    lemma_skip_ws_no_close(s);
    let t = skip_ws_spec(s);
    if t.len() > 0 {
        lemma_no_close_drop(t);
        let u = t.drop_first();
        let c = t[0];
        if c == '(' {
            lemma_unclosed_list(u);
        } else if c == '\'' {
            lemma_expr_no_close(u);
        } else if c == '"' {
            lemma_scan_string_no_close(u);
        } else if c != ')' {
            lemma_scan_atom_no_close(u);
        }
    }
}

/// An unclosed list is an error: the rest of a list whose text holds no
/// `)` never reads successfully.
pub proof fn lemma_unclosed_list(u: Seq<char>)
    requires
        no_close(u),
    ensures
        parse_list_spec(u) is Failed,
        no_close(parsed_rest(parse_list_spec(u))),
    decreases u.len(), 1int,
{
    lemma_skip_ws(u);
    lemma_skip_ws_no_close(u);
    let t = skip_ws_spec(u);
    if t.len() > 0 {
        lemma_no_close_drop(t);
        if t[0] == '.' {
            let v = t.drop_first();
            if v.len() > 0 && !is_delim(v[0]) {
                lemma_scan_atom(v);
                lemma_scan_atom_no_close(v);
                lemma_unclosed_list(scan_atom(v).1);
            }
        } else {
            lemma_expr_rest(t);
            lemma_expr_no_close(t);
            match parse_expr_spec(t) {
                Parsed::Value(car, r1) => {
                    if r1.len() < t.len() {
                        lemma_skip_ws(r1);
                        lemma_skip_ws_no_close(r1);
                        let r2 = skip_ws_spec(r1);
                        if r2.len() > 0 && r2[0] == '.' {
                            lemma_no_close_drop(r2);
                            let y = r2.drop_first();
                            if y.len() == 0 || is_delim(y[0]) {
                                lemma_expr_rest(y);
                                lemma_expr_no_close(y);
                                match parse_expr_spec(y) {
                                    Parsed::Value(cdr, r3) => {
                                        lemma_skip_ws_no_close(r3);
                                        let r4 = skip_ws_spec(r3);
                                        if r4.len() > 0 {
                                            lemma_no_close_drop(r4);
                                        }
                                    },
                                    _ => {},
                                }
                            } else {
                                lemma_scan_atom(y);
                                lemma_scan_atom_no_close(y);
                                lemma_unclosed_list(scan_atom(y).1);
                            }
                        } else {
                            lemma_unclosed_list(r2);
                        }
                    }
                },
                _ => {},
            }
        }
    }
}

/// Unbalanced parentheses are an error: an opening `(` whose text holds no
/// `)` never reads successfully.
pub proof fn lemma_unclosed_paren_fails(s: Seq<char>)
    requires
        no_close(s),
    ensures
        parse_expr_spec(seq!['('] + s) is Failed,
{
    let t = seq!['('] + s;
    assert(skip_ws_spec(t) == t);
    assert(t.drop_first() =~= s);
    lemma_unclosed_list(s);
}

/// Parse errors carry 1-based positions, whatever the source.
pub proof fn lemma_parse_error_one_based<S: CharSource>(src: &S)
    requires
        src.wf(),
    ensures
        error_of(ParseErrorKind::Syntax, src.pos()) matches ArenaError::ParseError { line, col }
            && line >= 1 && col >= 1,
{
    src.lemma_pos_one_based();
}

proof fn lemma_skip_ws_extend(s: Seq<char>, w: Seq<char>)
    requires
        skip_ws_spec(s).len() > 0,
    ensures
        skip_ws_spec(s + w) == skip_ws_spec(s) + w,
    decreases s.len(), 1int,
{
    assert((s + w).drop_first() =~= s.drop_first() + w);
    assert((s + w)[0] == s[0]);
    if is_ws(s[0]) {
        lemma_skip_ws_extend(s.drop_first(), w);
    } else if s[0] == ';' {
        lemma_skip_comment_extend(s.drop_first(), w);
    }
}

proof fn lemma_skip_comment_extend(s: Seq<char>, w: Seq<char>)
    requires
        skip_comment_spec(s).len() > 0,
    ensures
        skip_comment_spec(s + w) == skip_comment_spec(s) + w,
    decreases s.len(), 0int,
{
    assert((s + w).drop_first() =~= s.drop_first() + w);
    assert((s + w)[0] == s[0]);
    if s[0] == '\n' {
        lemma_skip_ws_extend(s.drop_first(), w);
    } else {
        lemma_skip_comment_extend(s.drop_first(), w);
    }
}

proof fn lemma_scan_atom_extend(v: Seq<char>, w: Seq<char>)
    requires
        scan_atom(v).1.len() > 0,
    ensures
        scan_atom(v + w) == (scan_atom(v).0, scan_atom(v).1 + w),
    decreases v.len(),
{
    assert((v + w)[0] == v[0]);
    if !is_delim(v[0]) {
        assert((v + w).drop_first() =~= v.drop_first() + w);
        lemma_scan_atom_extend(v.drop_first(), w);
    }
}

proof fn lemma_scan_string_extend(u: Seq<char>, w: Seq<char>)
    requires
        scan_string(u) is Done,
    ensures
        scan_string(u + w) == (match scan_string(u) {
            StrScan::Done(cs, r) => StrScan::Done(cs, r + w),
            StrScan::Bad(k, r) => StrScan::Bad(k, r),
        }),
    decreases u.len(),
{
    assert((u + w)[0] == u[0]);
    assert((u + w).drop_first() =~= u.drop_first() + w);
    if u[0] == '"' {
    } else if u[0] == '\\' {
        let v = u.drop_first();
        assert((v + w)[0] == v[0]);
        assert((v + w).drop_first() =~= v.drop_first() + w);
        lemma_scan_string_extend(v.drop_first(), w);
    } else {
        lemma_scan_string_extend(u.drop_first(), w);
    }
}

/// The text holds a datum: something is left after whitespace and
/// comments, and a quote mark there is itself followed by a datum.
pub open spec fn reads_datum(s: Seq<char>) -> bool
    decreases s.len(),
{
    let t = skip_ws_spec(s);
    if t.len() == 0 {
        false
    } else {
        proof {
            lemma_skip_ws(s);
        }
        t[0] == '\'' ==> reads_datum(t.drop_first())
    }
}

/// An atom that runs to the end of `v` ends there too when a delimiter, or
/// nothing, follows.
proof fn lemma_scan_atom_end(v: Seq<char>, w: Seq<char>)
    requires
        scan_atom(v).1.len() == 0,
        w.len() == 0 || is_delim(w[0]),
    ensures
        scan_atom(v + w) == (scan_atom(v).0, w),
    decreases v.len(),
{
    if v.len() == 0 {
        assert(v + w =~= w);
    } else {
        assert((v + w)[0] == v[0]);
        assert((v + w).drop_first() =~= v.drop_first() + w);
        lemma_scan_atom_end(v.drop_first(), w);
    }
}

/// Text after a datum does not change it: when reading `s` gives `e` and
/// leaves `r`, reading `s` followed by `w` gives the same `e` and leaves
/// `r` followed by `w`. This holds whenever the datum ended inside `s`
/// (`r` is not empty), and also when the datum is all of `s` and `w` is
/// empty or starts with a delimiter. It does not hold of text without a
/// datum: `'` alone reads `(quote ())`, but `' x` reads `(quote x)`.
pub proof fn lemma_expr_extend(s: Seq<char>, w: Seq<char>)
    requires
        parse_expr_spec(s) is Value,
        parsed_rest(parse_expr_spec(s)).len() > 0 || (reads_datum(s) && (w.len() == 0 || is_delim(
            w[0],
        ))),
    ensures
        parse_expr_spec(s + w) == (match parse_expr_spec(s) {
            Parsed::Value(e, r) => Parsed::Value(e, r + w),
            f => f,
        }),
    decreases s.len(), 0int,
{
    lemma_skip_ws(s);
    let t = skip_ws_spec(s);
    lemma_skip_ws_extend(s, w);
    let u = t.drop_first();
    assert((t + w)[0] == t[0]);
    assert((t + w).drop_first() =~= u + w);
    let c = t[0];
    if c == '(' {
        lemma_list_extend(u, w);
    } else if c == '\'' {
        lemma_quote_extend(u, w);
    } else if c == '"' {
        lemma_scan_string_extend(u, w);
    } else if c != ')' {
        if scan_atom(u).1.len() > 0 {
            lemma_scan_atom_extend(u, w);
        } else {
            lemma_scan_atom_end(u, w);
        }
        assert(seq![c] + scan_atom(u + w).0 == seq![c] + scan_atom(u).0);
    }
}

/// Text after a quotation does not change it, on the same terms as
/// [`lemma_expr_extend`].
pub proof fn lemma_quote_extend(u: Seq<char>, w: Seq<char>)
    requires
        parse_quote_spec(u) is Value,
        parsed_rest(parse_quote_spec(u)).len() > 0 || (reads_datum(u) && (w.len() == 0 || is_delim(
            w[0],
        ))),
    ensures
        parse_quote_spec(u + w) == (match parse_quote_spec(u) {
            Parsed::Value(e, r) => Parsed::Value(e, r + w),
            f => f,
        }),
    decreases u.len(), 1int,
{
    lemma_expr_extend(u, w);
}

/// A quotation reads as `(quote e)` where `e` is the datum that follows the
/// quote mark, and both leave the same text; an error in that datum is the
/// quotation's error.
pub proof fn lemma_quote_reads_expr(u: Seq<char>)
    ensures
        parse_expr_spec(u) matches Parsed::Value(e, r) ==> parse_quote_spec(u) == Parsed::Value(
            quoted(e),
            r,
        ),
        parse_expr_spec(u) is Failed ==> parse_quote_spec(u) == parse_expr_spec(u),
{
}

/// The text starts, after whitespace and comments, with a `.` standing
/// alone (followed by a delimiter or the end): the dot of a dotted pair.
pub open spec fn starts_with_lone_dot(s: Seq<char>) -> bool {
    let t = skip_ws_spec(s);
    t.len() > 0 && t[0] == '.' && (t.len() == 1 || is_delim(t[1]))
}

/// The text of one list element: it reads as a datum that is all of the
/// text, and it is not the dot of a dotted pair.
pub open spec fn element_text(d: Seq<char>) -> bool {
    &&& reads_datum(d)
    &&& parse_expr_spec(d) is Value
    &&& parsed_rest(parse_expr_spec(d)).len() == 0
    &&& !starts_with_lone_dot(d)
}

/// The S-expression of a successful reading result.
pub open spec fn expr_of(p: Parsed) -> SExpr {
    match p {
        Parsed::Value(e, _) => e,
        Parsed::Failed(_, _) => SExpr::Nil,
    }
}

/// The proper list of `es`.
pub open spec fn list_of(es: Seq<SExpr>) -> SExpr
    decreases es.len(),
{
    if es.len() == 0 {
        SExpr::Nil
    } else {
        SExpr::Pair(Box::new(es[0]), Box::new(list_of(es.drop_first())))
    }
}

/// The elements `ds`, each followed by a space, then `)` and `t`: the
/// text of a list after its `(`.
pub open spec fn list_text(ds: Seq<Seq<char>>, t: Seq<char>) -> Seq<char>
    decreases ds.len(),
{
    if ds.len() == 0 {
        seq![')'] + t
    } else {
        ds[0] + (seq![' '] + list_text(ds.drop_first(), t))
    }
}

/// Reading depends only on what is left after whitespace and comments.
proof fn lemma_reads_after_ws(x: Seq<char>)
    ensures
        parse_expr_spec(x) == parse_expr_spec(skip_ws_spec(x)),
        parse_list_spec(x) == parse_list_spec(skip_ws_spec(x)),
{
    lemma_skip_ws(x);
}

/// A space in front of text is skipped.
proof fn lemma_space_skipped(l: Seq<char>)
    ensures
        skip_ws_spec(seq![' '] + l) == skip_ws_spec(l),
        parse_list_spec(seq![' '] + l) == parse_list_spec(l),
{
    assert((seq![' '] + l).drop_first() =~= l);
    assert(is_ws((seq![' '] + l)[0]));
    lemma_reads_after_ws(seq![' '] + l);
    lemma_reads_after_ws(l);
}

/// An element in front of the rest of a list adds that element to it.
proof fn lemma_list_cons(d: Seq<char>, l: Seq<char>)
    requires
        element_text(d),
        !starts_with_lone_dot(l),
    ensures
        parse_list_spec(d + (seq![' '] + l)) == (match parse_list_spec(l) {
            Parsed::Value(rest, r) => Parsed::Value(
                SExpr::Pair(Box::new(expr_of(parse_expr_spec(d))), Box::new(rest)),
                r,
            ),
            f => f,
        }),
{
    let w = seq![' '] + l;
    let u = d + w;
    lemma_skip_ws(d);
    let td = skip_ws_spec(d);
    lemma_skip_ws_extend(d, w);
    let t = skip_ws_spec(u);
    assert(t == td + w);
    assert(t[0] == td[0]);
    lemma_space_skipped(l);
    lemma_skip_ws(l);
    if td[0] == '.' {
        let v0 = td.drop_first();
        assert(v0.len() > 0 && !is_delim(v0[0]));
        let v = t.drop_first();
        assert(v =~= v0 + w);
        assert(v[0] == v0[0]);
        assert(parse_expr_spec(d) == parse_atom_spec('.', v0));
        lemma_scan_atom_end(v0, w);
        assert(scan_atom(v) == (scan_atom(v0).0, w));
        assert(parse_atom_spec('.', v) == Parsed::Value(expr_of(parse_expr_spec(d)), w));
    } else {
        lemma_expr_extend(d, w);
        lemma_reads_after_ws(u);
        assert(parse_expr_spec(t) == parse_expr_spec(u));
        assert(parse_expr_spec(t) == Parsed::Value(expr_of(parse_expr_spec(d)), seq![] + w));
        assert(seq![] + w =~= w);
        let r2 = skip_ws_spec(w);
        assert(r2 == skip_ws_spec(l));
        lemma_reads_after_ws(l);
        lemma_reads_after_ws(r2);
    }
}

/// Reading a list reads each element as it reads alone: when each of `ds`
/// is the text of one element (a datum that is all of its text, not the
/// dot of a dotted pair), reading `(`, the elements each followed by a
/// space, `)` and then any text `t` gives the proper list of what each
/// element reads, and leaves `t`.
pub proof fn lemma_list_elements(ds: Seq<Seq<char>>, t: Seq<char>)
    requires
        forall|k: int| 0 <= k < ds.len() ==> element_text(#[trigger] ds[k]),
    ensures
        parse_list_spec(list_text(ds, t)) == Parsed::Value(
            list_of(ds.map_values(|d: Seq<char>| expr_of(parse_expr_spec(d)))),
            t,
        ),
        parse_expr_spec(seq!['('] + list_text(ds, t)) == Parsed::Value(
            list_of(ds.map_values(|d: Seq<char>| expr_of(parse_expr_spec(d)))),
            t,
        ),
    decreases ds.len(),
{
    let es = ds.map_values(|d: Seq<char>| expr_of(parse_expr_spec(d)));
    if ds.len() == 0 {
        let u = seq![')'] + t;
        assert(u[0] == ')');
        assert(u.drop_first() =~= t);
        lemma_reads_after_ws(u);
    } else {
        let rest = ds.drop_first();
        assert forall|k: int| 0 <= k < rest.len() implies element_text(#[trigger] rest[k]) by {
            assert(rest[k] == ds[k + 1]);
        }
        lemma_list_elements(rest, t);
        let l = list_text(rest, t);
        assert(element_text(ds[0]));
        if rest.len() == 0 {
            assert(l == seq![')'] + t);
            assert(l[0] == ')');
            lemma_reads_after_ws(l);
            lemma_skip_ws(l);
        } else {
            assert(element_text(rest[0]));
            lemma_skip_ws(rest[0]);
            lemma_skip_ws_extend(rest[0], seq![' '] + list_text(rest.drop_first(), t));
        }
        lemma_list_cons(ds[0], l);
        assert(rest.map_values(|d: Seq<char>| expr_of(parse_expr_spec(d))) =~= es.drop_first());
    }
    let x = seq!['('] + list_text(ds, t);
    assert(x[0] == '(');
    assert(x.drop_first() =~= list_text(ds, t));
    lemma_reads_after_ws(x);
    lemma_skip_ws(x);
}

/// The characters that end an atom are exactly space, tab, newline,
/// carriage return, the two parentheses, `"` and `;`.
pub proof fn lemma_delimiters(c: char)
    ensures
        is_delim(c) <==> (c == ' ' || c == '\t' || c == '\n' || c == '\r' || c == '(' || c == ')'
            || c == '"' || c == ';'),
{
}

/// Every whitespace character ends a datum: when `a` holds a datum that
/// reads as `e` and leaves `r`, reading `a` followed by a space, tab,
/// newline or carriage return and any text `t` reads the same `e` and
/// leaves `r`, then that character and `t`.
pub proof fn lemma_whitespace_ends_datum(a: Seq<char>, c: char, t: Seq<char>, e: SExpr, r: Seq<char>)
    requires
        reads_datum(a),
        parse_expr_spec(a) == Parsed::Value(e, r),
        c == ' ' || c == '\t' || c == '\n' || c == '\r',
    ensures
        parse_expr_spec(a + (seq![c] + t)) == Parsed::Value(e, r + (seq![c] + t)),
{
    let w = seq![c] + t;
    assert(w[0] == c);
    lemma_expr_extend(a, w);
}

/// A comment ends at its newline and takes nothing after it: for any
/// comment text `c` without a newline, skipping whitespace and comments in
/// `;`, `c`, a newline and `t` leaves what skipping them in `t` leaves, and
/// reading that text reads as reading `t`.
pub proof fn lemma_comment_ends_at_newline(c: Seq<char>, t: Seq<char>)
    requires
        forall|i: int| 0 <= i < c.len() ==> c[i] != '\n',
    ensures
        skip_ws_spec(seq![';'] + (c + (seq!['\n'] + t))) == skip_ws_spec(t),
        parse_expr_spec(seq![';'] + (c + (seq!['\n'] + t))) == parse_expr_spec(t),
{
    let x = seq![';'] + (c + (seq!['\n'] + t));
    assert(x[0] == ';');
    assert(x.drop_first() =~= c + (seq!['\n'] + t));
    lemma_comment_body(c, t);
    lemma_reads_after_ws(x);
    lemma_reads_after_ws(t);
}

proof fn lemma_comment_body(c: Seq<char>, t: Seq<char>)
    requires
        forall|i: int| 0 <= i < c.len() ==> c[i] != '\n',
    ensures
        skip_comment_spec(c + (seq!['\n'] + t)) == skip_ws_spec(t),
    decreases c.len(),
{
    let x = c + (seq!['\n'] + t);
    if c.len() == 0 {
        assert(x =~= seq!['\n'] + t);
        assert(x[0] == '\n');
        assert(x.drop_first() =~= t);
    } else {
        assert(x[0] == c[0]);
        assert(x.drop_first() =~= c.drop_first() + (seq!['\n'] + t));
        lemma_comment_body(c.drop_first(), t);
    }
}

/// A quotation `'` followed by text `u` that reads as `e` and leaves `r`
/// reads as the two-element list of the symbol `quote` and `e`, and leaves
/// `r`.
pub proof fn lemma_quote_law(u: Seq<char>, e: SExpr, r: Seq<char>)
    requires
        parse_expr_spec(u) == Parsed::Value(e, r),
    ensures
        parse_expr_spec(seq!['\''] + u) == Parsed::Value(
            SExpr::Pair(
                Box::new(SExpr::Sym(seq!['q', 'u', 'o', 't', 'e'])),
                Box::new(SExpr::Pair(Box::new(e), Box::new(SExpr::Nil))),
            ),
            r,
        ),
{
    let x = seq!['\''] + u;
    assert(x[0] == '\'');
    assert(x.drop_first() =~= u);
    lemma_reads_after_ws(x);
    lemma_skip_ws(x);
    assert(quote_name() =~= seq!['q', 'u', 'o', 't', 'e']);
}

/// Characters other than `"` and `\` stand for themselves in a string.
proof fn lemma_plain_string_body(cs: Seq<char>, t: Seq<char>)
    requires
        forall|i: int| 0 <= i < cs.len() ==> cs[i] != '"' && cs[i] != '\\',
    ensures
        scan_string(cs + (seq!['"'] + t)) == StrScan::Done(cs, t),
    decreases cs.len(),
{
    let x = cs + (seq!['"'] + t);
    if cs.len() == 0 {
        assert(x =~= seq!['"'] + t);
        assert(x[0] == '"');
        assert(x.drop_first() =~= t);
        assert(cs =~= Seq::<char>::empty());
    } else {
        assert(x[0] == cs[0]);
        assert(cs[0] != '"' && cs[0] != '\\');
        assert(x.drop_first() =~= cs.drop_first() + (seq!['"'] + t));
        assert forall|i: int| 0 <= i < cs.drop_first().len() implies cs.drop_first()[i] != '"'
            && cs.drop_first()[i] != '\\' by {
            assert(cs.drop_first()[i] == cs[i + 1]);
        }
        lemma_plain_string_body(cs.drop_first(), t);
        assert(seq![cs[0]] + cs.drop_first() =~= cs);
    }
}

/// Every character other than `"` and `\` in a string literal stands for
/// itself: for characters `cs` with neither, reading `"`, `cs`, `"` and any
/// text `t` gives the string `cs` (`()` when `cs` is empty) and leaves `t`.
pub proof fn lemma_plain_string(cs: Seq<char>, t: Seq<char>)
    requires
        forall|i: int| 0 <= i < cs.len() ==> cs[i] != '"' && cs[i] != '\\',
    ensures
        parse_expr_spec(seq!['"'] + (cs + (seq!['"'] + t))) == Parsed::Value(
            if cs.len() == 0 {
                SExpr::Nil
            } else {
                SExpr::Str(cs)
            },
            t,
        ),
{
    let x = seq!['"'] + (cs + (seq!['"'] + t));
    assert(x[0] == '"');
    assert(x.drop_first() =~= cs + (seq!['"'] + t));
    lemma_plain_string_body(cs, t);
    lemma_reads_after_ws(x);
    lemma_skip_ws(x);
}

/// The escapes of a string literal: `\n`, `\t`, `\r`, `\\` and `\"` stand
/// for newline, tab, carriage return, backslash and `"`, and any other
/// character after a backslash is an invalid argument.
pub proof fn lemma_string_escape(k: char, t: Seq<char>)
    ensures
        ({
            let x = seq!['"', '\\', k, '"'] + t;
            &&& k == 'n' ==> parse_expr_spec(x) == Parsed::Value(SExpr::Str(seq!['\n']), t)
            &&& k == 't' ==> parse_expr_spec(x) == Parsed::Value(SExpr::Str(seq!['\t']), t)
            &&& k == 'r' ==> parse_expr_spec(x) == Parsed::Value(SExpr::Str(seq!['\r']), t)
            &&& k == '\\' ==> parse_expr_spec(x) == Parsed::Value(SExpr::Str(seq!['\\']), t)
            &&& k == '"' ==> parse_expr_spec(x) == Parsed::Value(SExpr::Str(seq!['"']), t)
            &&& !(k == 'n' || k == 't' || k == 'r' || k == '\\' || k == '"') ==> parse_expr_spec(x)
                == Parsed::Failed(ParseErrorKind::BadEscape, seq!['"'] + t)
        }),
{
    let x = seq!['"', '\\', k, '"'] + t;
    let u = x.drop_first();
    assert(x[0] == '"');
    assert(u =~= seq!['\\', k, '"'] + t);
    assert(u[0] == '\\');
    let v = u.drop_first();
    assert(v =~= seq![k, '"'] + t);
    assert(v[0] == k);
    let z = v.drop_first();
    assert(z =~= seq!['"'] + t);
    assert(z[0] == '"');
    assert(z.drop_first() =~= t);
    assert(scan_string(z) == StrScan::Done(seq![], t));
    assert(forall|e: char| #[trigger] seq![e] + Seq::<char>::empty() == seq![e]) by {
        assert forall|e: char| #[trigger] seq![e] + Seq::<char>::empty() == seq![e] by {
            assert(seq![e] + Seq::<char>::empty() =~= seq![e]);
        }
    }
    assert(scan_string(v.drop_first()) == scan_string(z));
    lemma_reads_after_ws(x);
    lemma_skip_ws(x);
}

/// Space, tab, newline and carriage return are skipped, one by one; any
/// other character but `;` stops the skipping where it stands.
pub proof fn lemma_whitespace_skipped(c: char, t: Seq<char>)
    ensures
        (c == ' ' || c == '\t' || c == '\n' || c == '\r') ==> skip_ws_spec(seq![c] + t)
            == skip_ws_spec(t),
        !(c == ' ' || c == '\t' || c == '\n' || c == '\r' || c == ';') ==> skip_ws_spec(seq![c] + t)
            == seq![c] + t,
{
    let x = seq![c] + t;
    assert(x[0] == c);
    assert(x.drop_first() =~= t);
}

/// A string literal with no closing `"` (and no backslash) is a syntax
/// error that consumes all the text.
pub proof fn lemma_unterminated_string(cs: Seq<char>)
    requires
        forall|i: int| 0 <= i < cs.len() ==> cs[i] != '"' && cs[i] != '\\',
    ensures
        parse_expr_spec(seq!['"'] + cs) == Parsed::Failed(ParseErrorKind::Syntax, Seq::<char>::empty()),
{
    lemma_unterminated_body(cs);
    let x = seq!['"'] + cs;
    assert(x[0] == '"');
    assert(x.drop_first() =~= cs);
    lemma_reads_after_ws(x);
    lemma_skip_ws(x);
}

proof fn lemma_unterminated_body(cs: Seq<char>)
    requires
        forall|i: int| 0 <= i < cs.len() ==> cs[i] != '"' && cs[i] != '\\',
    ensures
        scan_string(cs) == StrScan::Bad(ParseErrorKind::Syntax, Seq::<char>::empty()),
    decreases cs.len(),
{
    if cs.len() == 0 {
        assert(cs =~= Seq::<char>::empty());
    } else {
        assert(cs[0] != '"' && cs[0] != '\\');
        assert forall|i: int| 0 <= i < cs.drop_first().len() implies cs.drop_first()[i] != '"'
            && cs.drop_first()[i] != '\\' by {
            assert(cs.drop_first()[i] == cs[i + 1]);
        }
        lemma_unterminated_body(cs.drop_first());
    }
}

/// A `)` where a datum should start is a syntax error, and only that `)`
/// is consumed.
pub proof fn lemma_stray_close(t: Seq<char>)
    ensures
        parse_expr_spec(seq![')'] + t) == Parsed::Failed(ParseErrorKind::Syntax, t),
{
    let x = seq![')'] + t;
    assert(x[0] == ')');
    assert(x.drop_first() =~= t);
    lemma_reads_after_ws(x);
    lemma_skip_ws(x);
}

/// A list whose first element would be the dot of a dotted pair is a
/// syntax error: `(`, a `.` and then a space, tab, newline, carriage
/// return, parenthesis, `"`, `;` or the end.
pub proof fn lemma_dot_first_fails(t: Seq<char>)
    requires
        ends_atom(t),
    ensures
        parse_expr_spec(seq!['(', '.'] + t) == Parsed::Failed(ParseErrorKind::Syntax, t),
{
    let x = seq!['(', '.'] + t;
    assert(x[0] == '(');
    let u = x.drop_first();
    assert(u =~= seq!['.'] + t);
    assert(u[0] == '.');
    assert(u.drop_first() =~= t);
    if t.len() > 0 {
        lemma_delimiters(t[0]);
    }
    lemma_reads_after_ws(x);
    lemma_skip_ws(x);
    lemma_reads_after_ws(u);
    lemma_skip_ws(u);
}

/// The text of a dotted pair after its `(`: `x`, ` . `, `y`, `)` and `t`.
pub open spec fn dotted_text(x: Seq<char>, y: Seq<char>, t: Seq<char>) -> Seq<char> {
    x + (seq![' ', '.', ' '] + (y + (seq![')'] + t)))
}

/// Reading a dotted pair reads each side as it reads alone: when `x` is
/// the text of a list element that reads as `a` and does not start with a
/// dot, and `y` holds a datum that is all of its text and reads as `b`,
/// reading `(`, `x`, ` . `, `y`, `)` and any text `t` gives the pair whose
/// car is `a` and whose cdr is `b`, and leaves `t`.
pub proof fn lemma_dotted_pair(x: Seq<char>, y: Seq<char>, t: Seq<char>, a: SExpr, b: SExpr)
    requires
        element_text(x),
        parse_expr_spec(x) == Parsed::Value(a, seq![]),
        skip_ws_spec(x)[0] != '.',
        reads_datum(y),
        parse_expr_spec(y) == Parsed::Value(b, seq![]),
    ensures
        parse_list_spec(dotted_text(x, y, t)) == Parsed::Value(
            SExpr::Pair(Box::new(a), Box::new(b)),
            t,
        ),
        parse_expr_spec(seq!['('] + dotted_text(x, y, t)) == Parsed::Value(
            SExpr::Pair(Box::new(a), Box::new(b)),
            t,
        ),
{
    let close = seq![')'] + t;
    let yt = y + close;
    let yy = seq![' '] + yt;
    let r2 = seq!['.'] + yy;
    let w = seq![' '] + r2;
    let u = x + w;
    assert(dotted_text(x, y, t) =~= u);
    lemma_skip_ws(x);
    let tx = skip_ws_spec(x);
    lemma_skip_ws_extend(x, w);
    let t0 = skip_ws_spec(u);
    assert(t0 == tx + w);
    assert(t0[0] == tx[0]);
    assert(w[0] == ' ');
    lemma_expr_extend(x, w);
    lemma_reads_after_ws(u);
    assert(seq![] + w =~= w);
    assert(parse_expr_spec(t0) == Parsed::Value(a, w));
    assert(w.drop_first() =~= r2);
    assert(r2[0] == '.');
    lemma_reads_after_ws(r2);
    lemma_skip_ws(r2);
    assert(skip_ws_spec(w) == r2);
    assert(r2.drop_first() =~= yy);
    assert(yy[0] == ' ');
    assert(yy.drop_first() =~= yt);
    lemma_reads_after_ws(yy);
    lemma_reads_after_ws(yt);
    assert(skip_ws_spec(yy) == skip_ws_spec(yt));
    assert(close[0] == ')');
    lemma_expr_extend(y, close);
    assert(seq![] + close =~= close);
    assert(parse_expr_spec(yy) == Parsed::Value(b, close));
    lemma_reads_after_ws(close);
    lemma_skip_ws(close);
    assert(close.drop_first() =~= t);
    let z = seq!['('] + dotted_text(x, y, t);
    assert(z[0] == '(');
    assert(z.drop_first() =~= dotted_text(x, y, t));
    lemma_reads_after_ws(z);
    lemma_skip_ws(z);
}

/// Text after a closed list does not change it.
pub proof fn lemma_list_extend(u: Seq<char>, w: Seq<char>)
    requires
        parse_list_spec(u) is Value,
    ensures
        parse_list_spec(u + w) == (match parse_list_spec(u) {
            Parsed::Value(e, r) => Parsed::Value(e, r + w),
            f => f,
        }),
    decreases u.len(), 1int,
{
    lemma_skip_ws(u);
    let t = skip_ws_spec(u);
    lemma_skip_ws_extend(u, w);
    assert((t + w)[0] == t[0]);
    assert((t + w).drop_first() =~= t.drop_first() + w);
    if t[0] == ')' {
    } else if t[0] == '.' {
        let v = t.drop_first();
        assert((v + w)[0] == v[0]);
        lemma_scan_atom(v);
        let r1 = scan_atom(v).1;
        lemma_list_extend(r1, w);
        lemma_scan_atom_extend(v, w);
    } else {
        lemma_expr_rest(t);
        match parse_expr_spec(t) {
            Parsed::Value(car, r1) => {
                if r1.len() < t.len() {
                    lemma_skip_ws(r1);
                    let r2 = skip_ws_spec(r1);
                    if r2.len() > 0 && r2[0] == '.' {
                        let y = r2.drop_first();
                        if y.len() == 0 || is_delim(y[0]) {
                            lemma_expr_rest(y);
                            match parse_expr_spec(y) {
                                Parsed::Value(cdr, r3) => {
                                    let r4 = skip_ws_spec(r3);
                                    assert(r4.len() > 0);
                                    assert(r3.len() > 0);
                                    assert(y.len() > 0);
                                    assert(r1.len() > 0);
                                    lemma_expr_extend(t, w);
                                    lemma_skip_ws_extend(r1, w);
                                    assert((r2 + w)[0] == r2[0]);
                                    assert((r2 + w).drop_first() =~= y + w);
                                    assert((y + w)[0] == y[0]);
                                    lemma_expr_extend(y, w);
                                    lemma_skip_ws_extend(r3, w);
                                    assert((r4 + w)[0] == r4[0]);
                                    assert((r4 + w).drop_first() =~= r4.drop_first() + w);
                                },
                                _ => {},
                            }
                        } else {
                            assert(r1.len() > 0);
                            lemma_expr_extend(t, w);
                            lemma_skip_ws_extend(r1, w);
                            assert((r2 + w)[0] == r2[0]);
                            assert((r2 + w).drop_first() =~= y + w);
                            assert((y + w)[0] == y[0]);
                            lemma_scan_atom(y);
                            let r3 = scan_atom(y).1;
                            lemma_list_extend(r3, w);
                            lemma_scan_atom_extend(y, w);
                        }
                    } else {
                        assert(parse_list_spec(r2) is Value);
                        assert(skip_ws_spec(r2).len() > 0);
                        assert(r2.len() > 0);
                        assert(r1.len() > 0);
                        lemma_expr_extend(t, w);
                        lemma_skip_ws_extend(r1, w);
                        assert((r2 + w)[0] == r2[0]);
                        lemma_list_extend(r2, w);
                    }
                }
            },
            _ => {},
        }
    }
}

/// `r` is what reading with the specification result `p` may return, with
/// the arena `lisp` and the source `src` as they are afterwards: the
/// index of the S-expression and the characters left, or the error at the
/// source position, or `OutOfMemory` with fewer than two free slots left.
pub open spec fn outcome<S: CharSource>(
    lisp: &Lisp,
    src: &S,
    r: Result<ArenaIndex, ArenaError>,
    p: Parsed,
) -> bool {
    match r {
        Ok(i) => p matches Parsed::Value(e, rest) && i@ < lisp.cells().len() && i@ != intern_cell()
            && decode(lisp.cells(), i@ as int) == e && rest_of(src) == rest,
        Err(ArenaError::OutOfMemory) => lisp.is_nearly_full(),
        Err(err) => p matches Parsed::Failed(k, rest) && err == error_of(k, src.pos()) && rest_of(
            src,
        ) == rest,
    }
}

/// The number of characters read between two states of a source.
pub open spec fn consumed<S: CharSource>(before: &S, after: &S) -> int {
    rest_of(before).len() - rest_of(after).len()
}

/// Unless the read ran out of memory, it took no characters back and the
/// arena grew by at most `k` slots.
pub open spec fn grew_at_most<S: CharSource>(
    after: &Lisp,
    before: &Lisp,
    src_after: &S,
    src_before: &S,
    r: Result<ArenaIndex, ArenaError>,
    k: int,
) -> bool {
    r != Err::<ArenaIndex, ArenaError>(ArenaError::OutOfMemory) ==> {
        &&& rest_of(src_after).len() <= rest_of(src_before).len()
        &&& after.cells().len() <= before.cells().len() + k
    }
}

/// The arena has at least `k` free slots.
pub open spec fn room_for(l: &Lisp, k: nat) -> bool {
    l.cells().len() + k <= l.cap()
}

/// The rest of a list whose reading takes no slot: the text ends (an
/// error), a `)` closes the list, or a dot stands before a delimiter (an
/// error).
pub open spec fn list_needs_no_slot(u: Seq<char>) -> bool {
    let t = skip_ws_spec(u);
    t.len() == 0 || t[0] == ')' || (t[0] == '.' && (t.len() == 1 || is_delim(t[1])))
}

/// Text whose next expression takes no slot to read: nothing but
/// whitespace and comments, a stray `)`, `()` (or a list that fails before
/// its first element), or the empty string `""`.
pub open spec fn expr_needs_no_slot(s: Seq<char>) -> bool {
    let t = skip_ws_spec(s);
    ||| t.len() == 0
    ||| t[0] == ')'
    ||| t[0] == '(' && list_needs_no_slot(t.drop_first())
    ||| t[0] == '"' && t.len() > 1 && t[1] == '"'
}

/// A new pair cell means the pair of what its parts mean.
proof fn lemma_cons_decode(old: Seq<Value>, car: ArenaIndex, cdr: ArenaIndex)
    requires
        avoids_intern_cell(old),
        car@ < old.len(),
        cdr@ < old.len(),
        car@ != intern_cell(),
        cdr@ != intern_cell(),
    ensures
        keeps(old, old.push(Value::Cons { car, cdr })),
        decode(old.push(Value::Cons { car, cdr }), old.len() as int) == SExpr::Pair(
            Box::new(decode(old, car@ as int)),
            Box::new(decode(old, cdr@ as int)),
        ),
{
    let new = old.push(Value::Cons { car, cdr });
    assert(keeps(old, new));
    lemma_stable(old, new, car@ as int);
    lemma_stable(old, new, cdr@ as int);
}

/// Whether `c` ends atoms and dot separators.
pub fn is_delimiter(c: char) -> (r: bool)
    ensures
        r == is_delim(c),
{
    c == ' ' || c == '\t' || c == '\n' || c == '\r' || c == '(' || c == ')' || c == '"' || c == ';'
}

/// A parse error at the current position of `src`.
pub fn parse_error<S: CharSource>(src: &S) -> (e: ArenaError)
    requires
        src.wf(),
    ensures
        e == error_of(ParseErrorKind::Syntax, src.pos()),
{
    let (line, col) = src.position();
    ArenaError::ParseError { line, col }
}

impl Lisp {
    /// Skip whitespace and `;` comments.
    pub fn skip_ws<S: CharSource>(&self, src: &mut S)
        requires
            old(src).wf(),
        ensures
            final(src).wf(),
            final(src).text() == old(src).text(),
            rest_of(final(src)) == skip_ws_spec(rest_of(old(src))),
    {
        loop
            invariant
                src.wf(),
                src.text() == old(src).text(),
                skip_ws_spec(rest_of(src)) == skip_ws_spec(rest_of(old(src))),
            ensures
                src.wf(),
                src.text() == old(src).text(),
                rest_of(src) == skip_ws_spec(rest_of(old(src))),
            decreases rest_of(src).len(),
        {
            let c = src.peek_char();
            match c {
                Some(c) => {
                    if c == ' ' || c == '\t' || c == '\n' || c == '\r' {
                        let _ = src.read_char();
                    } else if c == ';' {
                        let ghost n0 = rest_of(src).len();
                        let _ = src.read_char();
                        loop
                            invariant_except_break
                                skip_comment_spec(rest_of(src)) == skip_ws_spec(rest_of(old(src))),
                            invariant
                                src.wf(),
                                src.text() == old(src).text(),
                                rest_of(src).len() < n0,
                            ensures
                                src.wf(),
                                src.text() == old(src).text(),
                                skip_ws_spec(rest_of(src)) == skip_ws_spec(rest_of(old(src))),
                            decreases rest_of(src).len(),
                        {
                            let d = src.read_char();
                            match d {
                                Some(d) => {
                                    if d == '\n' {
                                        break;
                                    }
                                },
                                None => {
                                    break;
                                },
                            }
                        }
                    } else {
                        break;
                    }
                },
                None => {
                    break;
                },
            }
        }
    }

    /// Read an atom whose first character `first` has been consumed: the
    /// rest of its characters go into a chain, which is then classified.
    fn parse_atom_from<S: CharSource>(&mut self, first: char, src: &mut S) -> (r: Result<
        ArenaIndex,
        ArenaError,
    >)
        requires
            old(self).wf(),
            old(src).wf(),
        ensures
            final(self).extends(old(self)),
            final(src).wf(),
            final(src).text() == old(src).text(),
            outcome(final(self), final(src), r, parse_atom_spec(first, rest_of(old(src)))),
            grew_at_most(final(self), old(self), final(src), old(src), r, 2 * consumed(old(src), final(src)) + 4),
            room_for(old(self), 2 * rest_of(old(src)).len() + 4) ==> r != Err::<ArenaIndex, ArenaError>(ArenaError::OutOfMemory),
    {
        let ghost v0 = rest_of(src);
        let mut head = match self.prepend_char(ArenaIndex::nil(), first) {
            Ok(h) => h,
            Err(e) => {
                return Err(e);
            },
        };
        let ghost mut acc: Seq<char> = seq![first];
        assert(seq![first].reverse() =~= seq![first]);
        assert(chain_chars(old(self).cells(), 0) =~= Seq::<char>::empty());
        assert(seq![first] + Seq::<char>::empty() =~= seq![first]);
        loop
            invariant
                self.extends(old(self)),
                src.wf(),
                src.text() == old(src).text(),
                head@ < self.cells().len(),
                chain_link(self.cells(), head@ as int),
                chain_chars(self.cells(), head@ as int) == acc.reverse(),
                seq![first] + scan_atom(v0).0 == acc + scan_atom(rest_of(src)).0,
                scan_atom(v0).1 == scan_atom(rest_of(src)).1,
                v0 == rest_of(old(src)),
                acc.len() == 1 + v0.len() - rest_of(src).len(),
                rest_of(src).len() <= v0.len(),
                self.cells().len() == old(self).cells().len() + acc.len(),
            ensures
                self.cells().len() == old(self).cells().len() + acc.len(),
                acc.len() == 1 + v0.len() - rest_of(src).len(),
                rest_of(src).len() <= v0.len(),
                self.extends(old(self)),
                src.wf(),
                src.text() == old(src).text(),
                head@ < self.cells().len(),
                chain_chars(self.cells(), head@ as int) == acc.reverse(),
                acc == seq![first] + scan_atom(v0).0,
                rest_of(src) == scan_atom(v0).1,
            decreases rest_of(src).len(),
        {
            match src.peek_char() {
                None => {
                    assert(acc + Seq::<char>::empty() =~= acc);
                    break;
                },
                Some(c) => {
                    if is_delimiter(c) {
                        assert(acc + Seq::<char>::empty() =~= acc);
                        break;
                    }
                    let c2 = src.read_char().unwrap();
                    head = match self.prepend_char(head, c2) {
                        Ok(h) => h,
                        Err(e) => {
                            return Err(e);
                        },
                    };
                    proof {
                        assert(seq![c2] + acc.reverse() =~= acc.push(c2).reverse());
                        assert(acc + (seq![c2] + scan_atom(rest_of(src)).0) =~= acc.push(c2)
                            + scan_atom(rest_of(src)).0);
                        acc = acc.push(c2);
                    }
                },
            }
        }
        let chain = match self.reverse_chain(head) {
            Ok(c) => c,
            Err(e) => {
                return Err(e);
            },
        };
        assert(acc.reverse().reverse() =~= acc);
        self.classify_atom(chain)
    }

    /// Read a string literal whose opening `"` has been consumed, with its
    /// escapes; the characters are chained in reverse and then reversed.
    fn parse_string<S: CharSource>(&mut self, src: &mut S) -> (r: Result<ArenaIndex, ArenaError>)
        requires
            old(self).wf(),
            old(src).wf(),
        ensures
            final(self).extends(old(self)),
            final(src).wf(),
            final(src).text() == old(src).text(),
            outcome(final(self), final(src), r, parse_string_spec(rest_of(old(src)))),
            grew_at_most(final(self), old(self), final(src), old(src), r, 2 * consumed(old(src), final(src))),
            room_for(old(self), 2 * rest_of(old(src)).len()) ==> r != Err::<ArenaIndex, ArenaError>(ArenaError::OutOfMemory),
            rest_of(old(src)).len() > 0 && rest_of(old(src))[0] == '"' ==> r != Err::<ArenaIndex, ArenaError>(ArenaError::OutOfMemory)
                && final(self).cells() == old(self).cells(),
    {
        let ghost u0 = rest_of(src);
        let mut head = ArenaIndex::nil();
        let ghost mut acc: Seq<char> = Seq::empty();
        assert(chain_chars(self.cells(), 0) =~= acc.reverse());
        assert(scan_string(u0) == prefixed(acc, scan_string(rest_of(src)))) by {
            match scan_string(u0) {
                StrScan::Done(cs, r) => {
                    assert(acc + cs =~= cs);
                },
                _ => {},
            }
        }
        loop
            invariant_except_break
                scan_string(u0) == prefixed(acc, scan_string(rest_of(src))),
            invariant
                self.extends(old(self)),
                src.wf(),
                src.text() == old(src).text(),
                head@ < self.cells().len(),
                chain_link(self.cells(), head@ as int),
                chain_chars(self.cells(), head@ as int) == acc.reverse(),
                u0 == rest_of(old(src)),
                acc.len() <= u0.len() - rest_of(src).len(),
                rest_of(src).len() <= u0.len(),
                self.cells().len() == old(self).cells().len() + acc.len(),
                self.cells()[intern_cell()] == old(self).cells()[intern_cell()],
            ensures
                scan_string(u0) == StrScan::Done(acc, rest_of(src)),
            decreases rest_of(src).len(),
        {
            let ch = match src.read_char() {
                Some(c) => c,
                None => {
                    return Err(parse_error(src));
                },
            };
            if ch == '"' {
                assert(acc + Seq::<char>::empty() =~= acc);
                break;
            }
            let actual = if ch == '\\' {
                let esc = match src.read_char() {
                    Some(c) => c,
                    None => {
                        return Err(parse_error(src));
                    },
                };
                if esc == 'n' {
                    '\n'
                } else if esc == 't' {
                    '\t'
                } else if esc == 'r' {
                    '\r'
                } else if esc == '\\' {
                    '\\'
                } else if esc == '"' {
                    '"'
                } else {
                    return Err(ArenaError::InvalidArgument);
                }
            } else {
                ch
            };
            head = match self.prepend_char(head, actual) {
                Ok(h) => h,
                Err(e) => {
                    return Err(e);
                },
            };
            proof {
                assert(seq![actual] + acc.reverse() =~= acc.push(actual).reverse());
                match scan_string(rest_of(src)) {
                    StrScan::Done(cs, r) => {
                        assert(acc + (seq![actual] + cs) =~= acc.push(actual) + cs);
                    },
                    _ => {},
                }
                acc = acc.push(actual);
            }
        }
        let r = self.reverse_chain(head);
        proof {
            if acc.len() == 0 {
                assert(self.cells() =~= old(self).cells());
            }
            assert(acc.reverse().reverse() =~= acc);
            if let Ok(i) = r {
                if acc.len() > 0 {
                    lemma_chain_nonempty(self.cells(), i@ as int);
                }
            }
        }
        r
    }

    /// Read one S-expression from `src`. When the source holds nothing but
    /// whitespace and comments, the result is NIL.
    pub fn parse_expr<S: CharSource>(&mut self, src: &mut S) -> (r: Result<ArenaIndex, ArenaError>)
        requires
            old(self).wf(),
            old(src).wf(),
        ensures
            final(self).extends(old(self)),
            final(src).wf(),
            final(src).text() == old(src).text(),
            outcome(final(self), final(src), r, parse_expr_spec(rest_of(old(src)))),
            grew_at_most(
                final(self),
                old(self),
                final(src),
                old(src),
                r,
                10 * consumed(old(src), final(src)) - (if consumed(old(src), final(src)) > 0 {
                    1int
                } else {
                    0int
                }),
            ),
            room_for(old(self), 10 * rest_of(old(src)).len()) ==> r != Err::<ArenaIndex, ArenaError>(ArenaError::OutOfMemory),
            expr_needs_no_slot(rest_of(old(src))) ==> r != Err::<ArenaIndex, ArenaError>(ArenaError::OutOfMemory)
                && final(self).cells() == old(self).cells(),
        decreases rest_of(old(src)).len(), 0int,
    {
        let ghost s0 = rest_of(src);
        proof {
            lemma_skip_ws(s0);
        }
        self.skip_ws(src);
        let ghost t = rest_of(src);
        let ch = match src.read_char() {
            Some(c) => c,
            None => {
                return Ok(ArenaIndex::nil());
            },
        };
        proof {
            if t.len() > 1 {
                assert(rest_of(src)[0] == t[1]);
            }
        }
        if ch == '(' {
            self.parse_list(src)
        } else if ch == '\'' {
            self.parse_quote(src)
        } else if ch == '"' {
            self.parse_string(src)
        } else if ch == ')' {
            Err(parse_error(src))
        } else {
            self.parse_atom_from(ch, src)
        }
    }

    /// Read the expression after a quote, giving `(quote expr)`.
    fn parse_quote<S: CharSource>(&mut self, src: &mut S) -> (r: Result<ArenaIndex, ArenaError>)
        requires
            old(self).wf(),
            old(src).wf(),
        ensures
            final(self).extends(old(self)),
            final(src).wf(),
            final(src).text() == old(src).text(),
            outcome(final(self), final(src), r, parse_quote_spec(rest_of(old(src)))),
            grew_at_most(final(self), old(self), final(src), old(src), r, 10 * consumed(old(src), final(src)) + 9),
            room_for(old(self), 10 * rest_of(old(src)).len() + 9) ==> r != Err::<ArenaIndex, ArenaError>(ArenaError::OutOfMemory),
        decreases rest_of(old(src)).len(), 1int,
    {
        let expr = match self.parse_expr(src) {
            Ok(e) => e,
            Err(e) => {
                return Err(e);
            },
        };
        let ghost st1 = self.cells();
        let quote_sym = match self.symbol(&vec!['q', 'u', 'o', 't', 'e']) {
            Ok(q) => q,
            Err(e) => {
                return Err(e);
            },
        };
        let ghost st2 = self.cells();
        proof {
            lemma_stable(st1, st2, expr@ as int);
            lemma_stable(st1, st2, 0);
        }
        let nil = ArenaIndex::nil();
        let inner = match self.cons(expr, nil) {
            Ok(i) => i,
            Err(e) => {
                return Err(e);
            },
        };
        let ghost st3 = self.cells();
        proof {
            lemma_cons_decode(st2, expr, nil);
            lemma_stable(st2, st3, quote_sym@ as int);
        }
        let r = self.cons(quote_sym, inner);
        proof {
            if r is Ok {
                lemma_cons_decode(st3, quote_sym, inner);
            }
        }
        r
    }

    /// Read the rest of a list: `)`, a dotted tail `. cdr)`, or an element
    /// followed by the rest of the list.
    fn parse_list<S: CharSource>(&mut self, src: &mut S) -> (r: Result<ArenaIndex, ArenaError>)
        requires
            old(self).wf(),
            old(src).wf(),
        ensures
            final(self).extends(old(self)),
            final(src).wf(),
            final(src).text() == old(src).text(),
            outcome(final(self), final(src), r, parse_list_spec(rest_of(old(src)))),
            grew_at_most(final(self), old(self), final(src), old(src), r, 10 * consumed(old(src), final(src))),
            room_for(old(self), 10 * rest_of(old(src)).len()) ==> r != Err::<ArenaIndex, ArenaError>(ArenaError::OutOfMemory),
            list_needs_no_slot(rest_of(old(src))) ==> r != Err::<ArenaIndex, ArenaError>(ArenaError::OutOfMemory)
                && final(self).cells() == old(self).cells(),
        decreases rest_of(old(src)).len(), 1int,
    {
        let ghost u = rest_of(src);
        proof {
            lemma_skip_ws(u);
        }
        self.skip_ws(src);
        let ghost t = rest_of(src);
        match src.peek_char() {
            None => {
                return Err(parse_error(src));
            },
            Some(c) => {
                if c == ')' {
                    let _ = src.read_char();
                    return Ok(ArenaIndex::nil());
                }
                if c == '.' {
                    let _ = src.read_char();
                    let ghost v = rest_of(src);
                    let sep = match src.peek_char() {
                        None => true,
                        Some(d) => is_delimiter(d),
                    };
                    if sep {
                        return Err(parse_error(src));
                    }
                    proof {
                        lemma_scan_atom(v);
                    }
                    let expr = match self.parse_atom_from('.', src) {
                        Ok(e) => e,
                        Err(e) => {
                            return Err(e);
                        },
                    };
                    let ghost st1 = self.cells();
                    let rest = match self.parse_list(src) {
                        Ok(e) => e,
                        Err(e) => {
                            return Err(e);
                        },
                    };
                    let ghost st2 = self.cells();
                    proof {
                        lemma_stable(st1, st2, expr@ as int);
                    }
                    let r = self.cons(expr, rest);
                    proof {
                        if r is Ok {
                            lemma_cons_decode(st2, expr, rest);
                        }
                    }
                    return r;
                }
            },
        }
        proof {
            lemma_skip_ws(t);
            lemma_expr_rest(t);
        }
        let car = match self.parse_expr(src) {
            Ok(e) => e,
            Err(e) => {
                return Err(e);
            },
        };
        let ghost st1 = self.cells();
        let ghost r1 = rest_of(src);
        proof {
            lemma_skip_ws(r1);
        }
        self.skip_ws(src);
        let next = src.peek_char();
        if next == Some('.') {
            let _ = src.read_char();
            let ghost y = rest_of(src);
            let sep = match src.peek_char() {
                None => true,
                Some(d) => is_delimiter(d),
            };
            if sep {
                let cdr = match self.parse_expr(src) {
                    Ok(e) => e,
                    Err(e) => {
                        return Err(e);
                    },
                };
                let ghost st2 = self.cells();
                proof {
                    lemma_stable(st1, st2, car@ as int);
                    lemma_skip_ws(rest_of(src));
                }
                self.skip_ws(src);
                match src.read_char() {
                    Some(d) => {
                        if d == ')' {
                            let r = self.cons(car, cdr);
                            proof {
                                if r is Ok {
                                    lemma_cons_decode(st2, car, cdr);
                                }
                            }
                            return r;
                        }
                        return Err(parse_error(src));
                    },
                    None => {
                        return Err(parse_error(src));
                    },
                }
            }
            proof {
                lemma_scan_atom(y);
            }
            let atom = match self.parse_atom_from('.', src) {
                Ok(e) => e,
                Err(e) => {
                    return Err(e);
                },
            };
            let ghost st2 = self.cells();
            let rest = match self.parse_list(src) {
                Ok(e) => e,
                Err(e) => {
                    return Err(e);
                },
            };
            let ghost st3 = self.cells();
            proof {
                lemma_stable(st1, st3, car@ as int);
                lemma_stable(st2, st3, atom@ as int);
            }
            let cdr = match self.cons(atom, rest) {
                Ok(e) => e,
                Err(e) => {
                    return Err(e);
                },
            };
            let ghost st4 = self.cells();
            proof {
                lemma_cons_decode(st3, atom, rest);
                lemma_stable(st3, st4, car@ as int);
            }
            let r = self.cons(car, cdr);
            proof {
                if r is Ok {
                    lemma_cons_decode(st4, car, cdr);
                }
            }
            return r;
        }
        let cdr = match self.parse_list(src) {
            Ok(e) => e,
            Err(e) => {
                return Err(e);
            },
        };
        let ghost st2 = self.cells();
        proof {
            lemma_stable(st1, st2, car@ as int);
        }
        let r = self.cons(car, cdr);
        proof {
            if r is Ok {
                lemma_cons_decode(st2, car, cdr);
            }
        }
        r
    }
}

} // verus!
