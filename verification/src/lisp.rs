//! The arena of values: a fixed-capacity, append-only store of [`Value`]
//! slots with the well-known singletons pre-allocated, interned symbols, and
//! the constructors that the reader needs.

use vstd::prelude::*;
use crate::types::{ArenaError, ArenaIndex};
use crate::value::{
    Value,
    SExpr,
    refs_below,
    ordered,
    chain_chars,
    decode,
    symbol_name,
    interned,
    keeps,
    intern_cell,
    refers_to,
    avoids_intern_cell,
    lemma_stable,
};

verus! {

/// The number of pre-allocated singleton slots.
pub const FIRST_FREE_SLOT: usize = 10;

/// Slots `0..5` hold `()`, `#t`, `#f`, `#inert` and `#ignore`, and no
/// other slot holds one of these; slots `5..10` hold the ground environment,
/// the cell linking it to the global environment, the global environment,
/// and the root and intern cells; every slot but the intern cell refers
/// only below itself, and no slot refers to the intern cell; every
/// character cell and symbol name continues with NIL or another character
/// cell; the intern list holds exactly the symbols, and no two symbols share
/// a name; at most `cap` slots are in use.
pub open spec fn well_formed(s: Seq<Value>, cap: nat) -> bool {
    &&& FIRST_FREE_SLOT <= s.len() <= cap
    &&& s[0] == Value::Nil
    &&& s[1] == Value::Boolean(true)
    &&& s[2] == Value::Boolean(false)
    &&& s[3] == Value::Inert
    &&& s[4] == Value::Ignore
    &&& reserved_slots(s)
    &&& singletons_unique(s)
    &&& chains_end_at_nil(s)
    &&& ordered(s)
    &&& avoids_intern_cell(s)
    &&& intern_list_complete(s)
    &&& interned(s)
}

/// Slots 5 to 9: the ground environment (no bindings, no parents), the cell
/// `(ground . ())`, the global environment (no bindings, parents in slot 6),
/// the root cell `(() . ())`, and the intern cell, whose car is the head of
/// the intern list and whose cdr is NIL.
pub open spec fn reserved_slots(s: Seq<Value>) -> bool {
    &&& s[5] is Environment && s[5]->Environment_bindings@ == 0 && s[5]->Environment_parents@ == 0
    &&& s[6] is Cons && s[6]->Cons_car@ == 5 && s[6]->Cons_cdr@ == 0
    &&& s[7] is Environment && s[7]->Environment_bindings@ == 0 && s[7]->Environment_parents@ == 6
    &&& s[8] is Cons && s[8]->Cons_car@ == 0 && s[8]->Cons_cdr@ == 0
    &&& s[9] is Cons && s[9]->Cons_car@ < s.len() && s[9]->Cons_cdr@ == 0
}

/// The head of the intern list: the car of the intern cell.
pub open spec fn intern_head(s: Seq<Value>) -> int {
    s[intern_cell()]->Cons_car@ as int
}

/// The symbol slots on the intern list that starts at `node`, in order: each
/// node is a pair of a symbol and the next node, and NIL ends the list.
pub open spec fn intern_list(s: Seq<Value>, node: int) -> Seq<int>
    decreases node,
{
    if node <= 0 || node >= s.len() || node == intern_cell() {
        seq![]
    } else {
        match s[node] {
            Value::Cons { car, cdr } => if cdr@ < node {
                seq![car@ as int] + intern_list(s, cdr@ as int)
            } else {
                seq![car@ as int]
            },
            _ => seq![],
        }
    }
}

/// The intern list holds symbols only, and every symbol is on it.
pub open spec fn intern_list_complete(s: Seq<Value>) -> bool {
    let l = intern_list(s, intern_head(s));
    &&& forall|k: int| 0 <= k < l.len() ==> 0 <= #[trigger] l[k] < s.len() && s[l[k]] is Symbol
    &&& forall|i: int| 0 <= i < s.len() && (#[trigger] s[i]) is Symbol ==> l.contains(i)
}

/// Appending slots, or changing the intern cell, leaves the intern list
/// from an existing node unchanged.
pub proof fn lemma_intern_list_stable(old: Seq<Value>, new: Seq<Value>, node: int)
    requires
        keeps(old, new),
        avoids_intern_cell(old),
        node < old.len(),
    ensures
        intern_list(new, node) == intern_list(old, node),
    decreases node,
{
    if 0 < node && node != intern_cell() {
        assert(new[node] == old[node]);
        assert(!refers_to(old[node], intern_cell()));
        match old[node] {
            Value::Cons { car, cdr } => {
                if cdr@ < node {
                    lemma_intern_list_stable(old, new, cdr@ as int);
                }
            },
            _ => {},
        }
    }
}

/// `()`, `#t`, `#f`, `#inert` and `#ignore` live only in their own slots.
pub open spec fn singletons_unique(s: Seq<Value>) -> bool {
    forall|i: int|
        0 <= i < s.len() ==> {
            &&& (#[trigger] s[i]) is Nil ==> i == 0
            &&& s[i] is Boolean ==> i == (if s[i]->Boolean_0 { 1int } else { 2int })
            &&& s[i] is Inert ==> i == 3
            &&& s[i] is Ignore ==> i == 4
        }
}

/// Every character cell, and every symbol's name, continues with NIL or a
/// character cell: strings end in NIL.
pub open spec fn chains_end_at_nil(s: Seq<Value>) -> bool {
    forall|i: int|
        0 <= i < s.len() ==> {
            &&& (#[trigger] s[i]) is CharPair ==> chain_link(s, s[i]->CharPair_cdr@ as int)
            &&& s[i] is Symbol ==> chain_link(s, s[i]->Symbol_name@ as int)
        }
}

/// Slot `j` is NIL or a character cell.
pub open spec fn chain_link(s: Seq<Value>, j: int) -> bool {
    j == 0 || (0 <= j < s.len() && s[j] is CharPair)
}

/// The kinds of value that are allocated one at a time after the
/// singletons (symbols go in with their intern node): numbers, pairs and
/// character cells, none of them referring to the intern cell.
pub open spec fn allocatable(s: Seq<Value>, v: Value) -> bool {
    &&& !refers_to(v, intern_cell())
    &&& match v {
        Value::Number(_) => true,
        Value::Cons { .. } => true,
        Value::CharPair { cdr, .. } => chain_link(s, cdr@ as int),
        _ => false,
    }
}

/// No symbol in `s` has the name `name`.
pub open spec fn fresh_name(s: Seq<Value>, name: Seq<char>) -> bool {
    forall|j: int| 0 <= j < s.len() && (#[trigger] s[j]) is Symbol ==> symbol_name(s, j) != name
}

/// What a string literal with characters `cs` stands for: the empty string
/// is the empty list.
pub open spec fn string_sexpr(cs: Seq<char>) -> SExpr {
    if cs.len() == 0 {
        SExpr::Nil
    } else {
        SExpr::Str(cs)
    }
}

/// The class of an atom's text.
pub enum AtomClass {
    Bool(bool),
    Inert,
    Ignore,
    Num(int),
    Overflow,
    Sym,
}

/// A decimal digit `0`..`9`.
pub open spec fn is_digit(c: char) -> bool {
    48 <= c as int <= 57
}

/// The text starts with `+` or `-`.
pub open spec fn has_sign(cs: Seq<char>) -> bool {
    cs.len() > 0 && (cs[0] == '+' || cs[0] == '-')
}

/// The digits of a numeral, after its optional sign.
pub open spec fn digits_of(cs: Seq<char>) -> Seq<char> {
    if has_sign(cs) {
        cs.drop_first()
    } else {
        cs
    }
}

/// An optional `+` or `-` followed by one or more decimal digits.
pub open spec fn is_numeral(cs: Seq<char>) -> bool {
    let ds = digits_of(cs);
    ds.len() > 0 && forall|i: int| 0 <= i < ds.len() ==> is_digit(#[trigger] ds[i])
}

/// The value of a string of decimal digits.
pub open spec fn digits_value(ds: Seq<char>) -> int
    decreases ds.len(),
{
    if ds.len() == 0 {
        0
    } else {
        digits_value(ds.drop_last()) * 10 + (ds.last() as int - 48)
    }
}

/// The value of a numeral.
pub open spec fn numeral_value(cs: Seq<char>) -> int {
    if has_sign(cs) && cs[0] == '-' {
        -digits_value(digits_of(cs))
    } else {
        digits_value(digits_of(cs))
    }
}

/// How an atom's text is read: the boolean and special literals, then
/// numerals (an overflow when the value does not fit in `isize`), and
/// everything else as a symbol.
pub open spec fn classify(cs: Seq<char>) -> AtomClass {
    if cs == seq!['#', 't'] || cs == seq!['#', 't', 'r', 'u', 'e'] {
        AtomClass::Bool(true)
    } else if cs == seq!['#', 'f'] || cs == seq!['#', 'f', 'a', 'l', 's', 'e'] {
        AtomClass::Bool(false)
    } else if cs == seq!['#', 'i', 'n', 'e', 'r', 't'] {
        AtomClass::Inert
    } else if cs == seq!['#', 'i', 'g', 'n', 'o', 'r', 'e'] {
        AtomClass::Ignore
    } else if is_numeral(cs) {
        let v = numeral_value(cs);
        if isize::MIN <= v <= isize::MAX {
            AtomClass::Num(v)
        } else {
            AtomClass::Overflow
        }
    } else {
        AtomClass::Sym
    }
}

/// The S-expression that an atom's text stands for (when it is no overflow).
pub open spec fn atom_sexpr(cs: Seq<char>) -> SExpr {
    match classify(cs) {
        AtomClass::Bool(b) => SExpr::Bool(b),
        AtomClass::Inert => SExpr::Inert,
        AtomClass::Ignore => SExpr::Ignore,
        AtomClass::Num(n) => SExpr::Num(n),
        AtomClass::Sym => SExpr::Sym(cs),
        AtomClass::Overflow => SExpr::Nil,
    }
}

/// The value arena of the interpreter.
pub struct Lisp {
    slots: Vec<Value>,
    capacity: usize,
}

/// The result of reading a numeral.
enum Numeral {
    NotNumeral,
    Overflow,
    Value(isize),
}

/// The singleton, chain and symbol clauses of an arena that differs from a
/// well-formed `s` only by kept slots and the new slots of `t`.
proof fn lemma_frame_well_formed(s: Seq<Value>, t: Seq<Value>, cap: nat)
    requires
        well_formed(s, cap),
        keeps(s, t),
        t.len() <= cap,
        t[intern_cell()] is Cons,
        t[intern_cell()]->Cons_cdr@ == 0,
        t[intern_cell()]->Cons_car@ < t.len(),
        !refers_to(t[intern_cell()], intern_cell()),
        forall|i: int|
            s.len() <= i < t.len() ==> {
                &&& !(#[trigger] t[i] is Nil || t[i] is Boolean || t[i] is Inert || t[i] is Ignore)
                &&& refs_below(t[i], i)
                &&& !refers_to(t[i], intern_cell())
                &&& t[i] is CharPair ==> chain_link(t, t[i]->CharPair_cdr@ as int)
                &&& t[i] is Symbol ==> chain_link(t, t[i]->Symbol_name@ as int)
            },
        forall|i: int, j: int|
            0 <= i < t.len() && 0 <= j < t.len() && i != j && (#[trigger] t[i]) is Symbol && (
            #[trigger] t[j]) is Symbol ==> symbol_name(t, i) != symbol_name(t, j),
        intern_list_complete(t),
    ensures
        well_formed(t, cap),
{
    assert(t[0] == s[0] && t[1] == s[1] && t[2] == s[2] && t[3] == s[3] && t[4] == s[4]);
    assert(t[5] == s[5] && t[6] == s[6] && t[7] == s[7] && t[8] == s[8]);
    assert forall|i: int| 0 <= i < t.len() implies {
        &&& (#[trigger] t[i]) is Nil ==> i == 0
        &&& t[i] is Boolean ==> i == (if t[i]->Boolean_0 { 1int } else { 2int })
        &&& t[i] is Inert ==> i == 3
        &&& t[i] is Ignore ==> i == 4
    } by {
        if i < s.len() && i != intern_cell() {
            assert(s[i] == t[i]);
        }
    }
    assert forall|i: int| 0 <= i < t.len() implies {
        &&& (#[trigger] t[i]) is CharPair ==> chain_link(t, t[i]->CharPair_cdr@ as int)
        &&& t[i] is Symbol ==> chain_link(t, t[i]->Symbol_name@ as int)
    } by {
        if i < s.len() && i != intern_cell() {
            assert(s[i] == t[i]);
            if s[i] is CharPair && s[i]->CharPair_cdr@ != 0 {
                let c = s[i]->CharPair_cdr@ as int;
                assert(s[c] is CharPair);
                assert(s[c] == t[c]);
            }
            if s[i] is Symbol && s[i]->Symbol_name@ != 0 {
                let c = s[i]->Symbol_name@ as int;
                assert(s[c] is CharPair);
                assert(s[c] == t[c]);
            }
        }
    }
    assert forall|i: int| 0 <= i < t.len() && i != intern_cell() implies #[trigger] refs_below(
        t[i],
        i,
    ) by {
        if i < s.len() {
            assert(refs_below(s[i], i));
            assert(s[i] == t[i]);
        }
    }
    assert forall|i: int| 0 <= i < t.len() implies !refers_to(#[trigger] t[i], intern_cell()) by {
        if i < s.len() && i != intern_cell() {
            assert(s[i] == t[i]);
            assert(!refers_to(s[i], intern_cell()));
        }
    }
}

/// Pushing a slot that refers below itself, and is allocatable, keeps an
/// arena well formed.
pub proof fn lemma_push_well_formed(s: Seq<Value>, cap: nat, v: Value)
    requires
        well_formed(s, cap),
        s.len() < cap,
        refs_below(v, s.len() as int),
        allocatable(s, v),
    ensures
        well_formed(s.push(v), cap),
        keeps(s, s.push(v)),
{
    let t = s.push(v);
    assert(keeps(s, t));
    assert(t[intern_cell()] == s[intern_cell()]);
    assert(!refers_to(s[intern_cell()], intern_cell()));
    if v is CharPair && v->CharPair_cdr@ != 0 {
        assert(s[v->CharPair_cdr@ as int] == t[v->CharPair_cdr@ as int]);
    }
    assert forall|i: int, j: int|
        0 <= i < t.len() && 0 <= j < t.len() && i != j && (#[trigger] t[i]) is Symbol && (
        #[trigger] t[j]) is Symbol implies symbol_name(t, i) != symbol_name(t, j) by {
        assert(i < s.len() && j < s.len());
        assert(s[i] == t[i] && s[j] == t[j]);
        assert(refs_below(s[i], i));
        assert(refs_below(s[j], j));
        assert(!refers_to(s[i], intern_cell()));
        assert(!refers_to(s[j], intern_cell()));
        lemma_stable(s, t, s[i]->Symbol_name@ as int);
        lemma_stable(s, t, s[j]->Symbol_name@ as int);
        assert(s[i] is Symbol && s[j] is Symbol);
    }
    let h = intern_head(s);
    assert(intern_head(t) == h);
    lemma_intern_list_stable(s, t, h);
    let l = intern_list(s, h);
    assert forall|k: int| 0 <= k < l.len() implies 0 <= #[trigger] l[k] < t.len() && t[l[k]]
        is Symbol by {
        assert(s[l[k]] is Symbol);
        assert(s[l[k]] == t[l[k]]);
    }
    assert forall|i: int| 0 <= i < t.len() && (#[trigger] t[i]) is Symbol implies l.contains(i) by {
        assert(i < s.len());
        assert(s[i] == t[i]);
    }
    lemma_frame_well_formed(s, t, cap);
}

/// Adding a symbol slot with a fresh name, an intern node in front of the
/// intern list, and pointing the intern cell at that node keeps an arena
/// well formed.
pub proof fn lemma_add_symbol_well_formed(
    s: Seq<Value>,
    cap: nat,
    name: ArenaIndex,
    sym: ArenaIndex,
    head: ArenaIndex,
    node: ArenaIndex,
    nil: ArenaIndex,
)
    requires
        well_formed(s, cap),
        s.len() + 2 <= cap,
        name@ < s.len(),
        chain_link(s, name@ as int),
        fresh_name(s, chain_chars(s, name@ as int)),
        sym@ == s.len(),
        node@ == s.len() + 1,
        head@ == intern_head(s),
        nil@ == 0,
    ensures
        ({
            let t = s.push(Value::Symbol { name: name }).push(
                Value::Cons { car: sym, cdr: head },
            ).update(intern_cell(), Value::Cons { car: node, cdr: nil });
            &&& well_formed(t, cap)
            &&& keeps(s, t)
            &&& symbol_name(t, sym@ as int) == chain_chars(s, name@ as int)
        }),
{
    let t = s.push(Value::Symbol { name: name }).push(Value::Cons { car: sym, cdr: head }).update(
        intern_cell(),
        Value::Cons { car: node, cdr: nil },
    );
    let n = s.len() as int;
    assert(keeps(s, t));
    assert(t[n] == Value::Symbol { name: name });
    assert(t[n + 1] == Value::Cons { car: sym, cdr: head });
    assert(!refers_to(s[intern_cell()], intern_cell()));
    if name@ != 0 {
        assert(s[name@ as int] == t[name@ as int]);
    }
    lemma_stable(s, t, name@ as int);
    assert forall|i: int, j: int|
        0 <= i < t.len() && 0 <= j < t.len() && i != j && (#[trigger] t[i]) is Symbol && (
        #[trigger] t[j]) is Symbol implies symbol_name(t, i) != symbol_name(t, j) by {
        if i < n {
            assert(s[i] == t[i]);
            assert(refs_below(s[i], i));
            assert(!refers_to(s[i], intern_cell()));
            lemma_stable(s, t, s[i]->Symbol_name@ as int);
        }
        if j < n {
            assert(s[j] == t[j]);
            assert(refs_below(s[j], j));
            assert(!refers_to(s[j], intern_cell()));
            lemma_stable(s, t, s[j]->Symbol_name@ as int);
        }
        if i < n && j < n {
            assert(s[i] is Symbol && s[j] is Symbol);
        } else if i == n {
            assert(s[j] is Symbol);
        } else {
            assert(s[i] is Symbol);
        }
    }
    let h = intern_head(s);
    lemma_intern_list_stable(s, t, h);
    assert(intern_head(t) == n + 1);
    assert(intern_list(t, n + 1) == seq![n] + intern_list(t, h));
    let l = intern_list(t, n + 1);
    let l0 = intern_list(s, h);
    assert forall|k: int| 0 <= k < l.len() implies 0 <= #[trigger] l[k] < t.len() && t[l[k]]
        is Symbol by {
        if k > 0 {
            assert(l[k] == l0[k - 1]);
            assert(s[l0[k - 1]] is Symbol);
            assert(s[l0[k - 1]] == t[l0[k - 1]]);
        }
    }
    assert forall|i: int| 0 <= i < t.len() && (#[trigger] t[i]) is Symbol implies l.contains(i) by {
        if i == n {
            assert(l[0] == n);
        } else {
            assert(i < n && i != intern_cell());
            assert(s[i] == t[i]);
            assert(l0.contains(i));
            let k = choose|k: int| 0 <= k < l0.len() && l0[k] == i;
            assert(l[k + 1] == i);
        }
    }
    lemma_frame_well_formed(s, t, cap);
}

/// Digit prefixes of a numeral never exceed its value.
proof fn lemma_digits_mono(ds: Seq<char>, k: int)
    requires
        0 <= k <= ds.len(),
        forall|i: int| 0 <= i < ds.len() ==> is_digit(#[trigger] ds[i]),
    ensures
        0 <= digits_value(ds.take(k)) <= digits_value(ds),
    decreases ds.len(),
{
    if ds.len() > 0 {
        let p = ds.drop_last();
        assert forall|i: int| 0 <= i < p.len() implies is_digit(#[trigger] p[i]) by {
            assert(p[i] == ds[i]);
        }
        assert(is_digit(ds[ds.len() - 1]));
        if k == ds.len() {
            assert(ds.take(k) =~= ds);
            lemma_digits_mono(p, p.len() as int);
            assert(p.take(p.len() as int) =~= p);
        } else {
            lemma_digits_mono(p, k);
            assert(p.take(k) =~= ds.take(k));
            lemma_digits_mono(p, p.len() as int);
            assert(p.take(p.len() as int) =~= p);
        }
    }
}

/// Symbols are interned: in a well-formed arena, two symbol slots with the
/// same name are the same slot.
pub proof fn lemma_symbols_interned(l: &Lisp, i: int, j: int)
    requires
        l.wf(),
        0 <= i < l.cells().len(),
        0 <= j < l.cells().len(),
        l.cells()[i] is Symbol,
        l.cells()[j] is Symbol,
        symbol_name(l.cells(), i) == symbol_name(l.cells(), j),
    ensures
        i == j,
{
    if i != j {
        assert(l.cells()[i] is Symbol && l.cells()[j] is Symbol);
    }
}

/// A slot of a well-formed arena that stands for a symbol holds that symbol.
proof fn lemma_symbol_slot(l: &Lisp, i: int, n: Seq<char>)
    requires
        l.wf(),
        0 <= i < l.cells().len(),
        decode(l.cells(), i) == SExpr::Sym(n),
    ensures
        l.cells()[i] is Symbol,
        symbol_name(l.cells(), i) == n,
{
    let s = l.cells();
    assert(s[intern_cell()] is Cons);
    assert(i != intern_cell());
    assert(refs_below(s[i], i));
}

/// Symbols are interned across reads: when `later` extends `earlier` (as
/// every read leaves the arena), a slot of `earlier` and a slot of `later`
/// that stand for symbols of the same name are the same slot. So two reads
/// of the same name give the same index.
pub proof fn lemma_same_name_same_slot(earlier: &Lisp, later: &Lisp, i: int, j: int, n: Seq<char>)
    requires
        later.extends(earlier),
        earlier.wf(),
        0 <= i < earlier.cells().len(),
        0 <= j < later.cells().len(),
        decode(earlier.cells(), i) == SExpr::Sym(n),
        decode(later.cells(), j) == SExpr::Sym(n),
    ensures
        i == j,
{
    lemma_symbol_slot(earlier, i, n);
    assert(i != intern_cell());
    lemma_stable(earlier.cells(), later.cells(), i);
    lemma_symbol_slot(later, i, n);
    lemma_symbol_slot(later, j, n);
    lemma_symbols_interned(later, i, j);
}

/// The singleton slots of every well-formed arena: slot 0 is `()`, the slot
/// of `ArenaIndex::from_bool(b)` is `b`, slot 3 is `#inert` and slot 4 is
/// `#ignore`.
pub proof fn lemma_singletons(l: &Lisp, b: bool)
    requires
        l.wf(),
    ensures
        decode(l.cells(), 0) == SExpr::Nil,
        decode(l.cells(), if b { 1int } else { 2int }) == SExpr::Bool(b),
        decode(l.cells(), 3) == SExpr::Inert,
        decode(l.cells(), 4) == SExpr::Ignore,
{
}

/// The identity of the singletons: in a well-formed arena the only slot
/// that stands for `()` is slot 0 (NIL), for `#t` slot 1, for `#f` slot 2,
/// for `#inert` slot 3 and for `#ignore` slot 4. So every empty list, list
/// end and string end a read gives is NIL, and every boolean or special
/// literal it gives is the singleton slot.
pub proof fn lemma_singleton_identity(l: &Lisp, i: int)
    requires
        l.wf(),
        0 <= i < l.cells().len(),
    ensures
        decode(l.cells(), i) == SExpr::Nil ==> i == 0,
        decode(l.cells(), i) == SExpr::Bool(true) ==> i == 1,
        decode(l.cells(), i) == SExpr::Bool(false) ==> i == 2,
        decode(l.cells(), i) == SExpr::Inert ==> i == 3,
        decode(l.cells(), i) == SExpr::Ignore ==> i == 4,
{
    let s = l.cells();
    if i != intern_cell() {
        assert(refs_below(s[i], i));
    }
    assert(s[i] is Nil ==> i == 0);
}

/// The slot reached from slot `i` by following `k` character-cell links.
pub open spec fn follow_chain(s: Seq<Value>, i: int, k: nat) -> int
    decreases k,
{
    if k == 0 {
        i
    } else if 0 <= i < s.len() && s[i] is CharPair {
        follow_chain(s, s[i]->CharPair_cdr@ as int, (k - 1) as nat)
    } else {
        i
    }
}

/// Strings end in NIL: from NIL or a character cell, the chain's `k`-th
/// slot is a character cell holding its `k`-th character, and after all its
/// characters the chain reaches NIL.
pub proof fn lemma_chain_walk(l: &Lisp, i: int, k: nat)
    requires
        l.wf(),
        chain_link(l.cells(), i),
    ensures
        k < chain_chars(l.cells(), i).len() ==> {
            let j = follow_chain(l.cells(), i, k);
            &&& 0 < j < l.cells().len()
            &&& l.cells()[j] is CharPair
            &&& l.cells()[j]->CharPair_ch == chain_chars(l.cells(), i)[k as int]
        },
        follow_chain(l.cells(), i, chain_chars(l.cells(), i).len()) == 0,
    decreases i,
{
    let s = l.cells();
    if i != 0 {
        assert(refs_below(s[i], i));
        let cdr = s[i]->CharPair_cdr@ as int;
        assert(chain_link(s, cdr));
        assert(chain_chars(s, i) == seq![s[i]->CharPair_ch] + chain_chars(s, cdr));
        lemma_chain_walk(l, cdr, chain_chars(s, cdr).len());
        if k > 0 {
            lemma_chain_walk(l, cdr, (k - 1) as nat);
        }
    }
}

impl Lisp {
    /// The slots in use, in order.
    pub closed spec fn cells(&self) -> Seq<Value> {
        self.slots@
    }

    /// The number of slots the arena may hold.
    pub closed spec fn cap(&self) -> nat {
        self.capacity as nat
    }

    /// The arena invariant.
    pub open spec fn wf(&self) -> bool {
        well_formed(self.cells(), self.cap())
    }

    /// Every slot is in use.
    pub open spec fn is_full(&self) -> bool {
        self.cells().len() == self.cap()
    }

    /// Fewer than two slots are free: too few for a new symbol, which takes
    /// its slot and an intern node.
    pub open spec fn is_nearly_full(&self) -> bool {
        self.cells().len() + 2 > self.cap()
    }

    /// `self` is well formed, holds every slot of `prev` unchanged, and has
    /// the same capacity.
    pub open spec fn extends(&self, prev: &Lisp) -> bool {
        &&& self.wf()
        &&& keeps(prev.cells(), self.cells())
        &&& self.cap() == prev.cap()
    }

    /// What an allocation of `v` leaves: the new slot at the end, or, when
    /// the arena was full, `OutOfMemory` and no change.
    pub open spec fn allocated(&self, prev: &Lisp, v: Value, r: Result<ArenaIndex, ArenaError>) -> bool {
        match r {
            Ok(i) => i@ == prev.cells().len() && self.cells() == prev.cells().push(v) && self.cap()
                == prev.cap(),
            Err(e) => e == ArenaError::OutOfMemory && prev.is_full() && *self == *prev,
        }
    }

    /// A new arena of `capacity` slots with the singletons in place: slots
    /// 0 to 4 hold `()`, `#t`, `#f`, `#inert` and `#ignore`, and slots 5 to 9
    /// the ground environment, the cell linking it to the global
    /// environment, the global environment, and the root and intern cells.
    pub fn new(capacity: usize) -> (l: Lisp)
        requires
            capacity >= FIRST_FREE_SLOT,
        ensures
            l.wf(),
            l.cap() == capacity,
            l.cells().len() == FIRST_FREE_SLOT,
    {
        let mut slots: Vec<Value> = Vec::new();
        slots.push(Value::Nil);
        slots.push(Value::Boolean(true));
        slots.push(Value::Boolean(false));
        slots.push(Value::Inert);
        slots.push(Value::Ignore);
        let nil = ArenaIndex::nil();
        slots.push(Value::Environment { bindings: nil, parents: nil });
        slots.push(Value::Cons { car: ArenaIndex::ground_env(), cdr: nil });
        slots.push(Value::Environment { bindings: nil, parents: ArenaIndex::new(6) });
        slots.push(Value::Cons { car: nil, cdr: nil });
        slots.push(Value::Cons { car: nil, cdr: nil });
        let l = Lisp { slots, capacity };
        assert forall|i: int| 0 <= i < l.cells().len() implies #[trigger] refs_below(
            l.cells()[i],
            i,
        ) by {}
        l
    }

    /// The number of slots in use.
    pub fn len(&self) -> (n: usize)
        ensures
            n == self.cells().len(),
    {
        self.slots.len()
    }

    /// The number of slots the arena may hold.
    pub fn capacity(&self) -> (n: usize)
        ensures
            n == self.cap(),
    {
        self.capacity
    }

    /// The value in slot `index`.
    pub fn get(&self, index: ArenaIndex) -> (r: Result<Value, ArenaError>)
        requires
            self.wf(),
        ensures
            index@ >= self.cap() ==> r == Err::<Value, ArenaError>(ArenaError::IndexOutOfBounds),
            self.cells().len() <= index@ < self.cap() ==> r == Err::<Value, ArenaError>(
                ArenaError::IndexNotAllocated,
            ),
            index@ < self.cells().len() ==> r == Ok::<Value, ArenaError>(self.cells()[index@ as int]),
    {
        let i = index.raw();
        if i >= self.capacity {
            Err(ArenaError::IndexOutOfBounds)
        } else if i >= self.slots.len() {
            Err(ArenaError::IndexNotAllocated)
        } else {
            Ok(self.slots[i])
        }
    }

    /// A copy of every slot in use.
    pub(crate) fn snapshot(&self) -> (v: Vec<Value>)
        ensures
            v@ == self.cells(),
    {
        let mut v: Vec<Value> = Vec::new();
        let mut i: usize = 0;
        while i < self.slots.len()
            invariant
                i <= self.slots@.len(),
                v@ == self.slots@.take(i as int),
            decreases self.slots@.len() - i,
        {
            v.push(self.slots[i]);
            i = i + 1;
            assert(v@ =~= self.slots@.take(i as int));
        }
        assert(self.slots@.take(i as int) =~= self.slots@);
        v
    }

    /// Store `v` in the next free slot.
    fn allocate(&mut self, v: Value) -> (r: Result<ArenaIndex, ArenaError>)
        requires
            old(self).wf(),
            refs_below(v, old(self).cells().len() as int),
            allocatable(old(self).cells(), v),
        ensures
            final(self).extends(old(self)),
            final(self).allocated(old(self), v, r),
    {
        if self.slots.len() < self.capacity {
            proof {
                lemma_push_well_formed(self.slots@, self.capacity as nat, v);
            }
            let i = ArenaIndex::new(self.slots.len());
            self.slots.push(v);
            Ok(i)
        } else {
            Err(ArenaError::OutOfMemory)
        }
    }

    /// A new pair of two allocated slots.
    pub(crate) fn cons(&mut self, car: ArenaIndex, cdr: ArenaIndex) -> (r: Result<
        ArenaIndex,
        ArenaError,
    >)
        requires
            old(self).wf(),
            car@ < old(self).cells().len(),
            cdr@ < old(self).cells().len(),
            car@ != intern_cell(),
            cdr@ != intern_cell(),
        ensures
            final(self).extends(old(self)),
            final(self).allocated(old(self), (Value::Cons { car: car, cdr: cdr }), r),
            r is Ok ==> final(self).cells().len() == old(self).cells().len() + 1,
    {
        self.allocate(Value::Cons { car, cdr })
    }

    /// A new character cell in front of the chain `head`.
    pub(crate) fn prepend_char(&mut self, head: ArenaIndex, ch: char) -> (r: Result<
        ArenaIndex,
        ArenaError,
    >)
        requires
            old(self).wf(),
            head@ < old(self).cells().len(),
            chain_link(old(self).cells(), head@ as int),
        ensures
            final(self).extends(old(self)),
            final(self).allocated(old(self), (Value::CharPair { ch: ch, cdr: head }), r),
            r is Ok ==> final(self).cells().len() == old(self).cells().len() + 1,
            r matches Ok(i) ==> chain_chars(final(self).cells(), i@ as int) == seq![ch]
                + chain_chars(old(self).cells(), head@ as int),
            final(self).cells()[intern_cell()] == old(self).cells()[intern_cell()],
    {
        let r = self.allocate(Value::CharPair { ch, cdr: head });
        proof {
            if r is Ok {
                lemma_stable(old(self).cells(), self.cells(), head@ as int);
            }
        }
        r
    }

    /// The characters of the chain that starts at `head`.
    pub(crate) fn chain_to_vec(&self, head: ArenaIndex) -> (v: Vec<char>)
        requires
            self.wf(),
        ensures
            v@ == chain_chars(self.cells(), head@ as int),
    {
        let mut v: Vec<char> = Vec::new();
        let mut cur = head;
        loop
            invariant
                self.wf(),
                chain_chars(self.cells(), head@ as int) == v@ + chain_chars(
                    self.cells(),
                    cur@ as int,
                ),
            ensures
                v@ == chain_chars(self.cells(), head@ as int),
            decreases cur@,
        {
            let i = cur.raw();
            if i == 0 || i >= self.slots.len() {
                assert(v@ + Seq::<char>::empty() =~= v@);
                break;
            }
            match self.slots[i] {
                Value::CharPair { ch, cdr } => {
                    assert(refs_below(self.cells()[i as int], i as int));
                    assert(v@.push(ch) + chain_chars(self.cells(), cdr@ as int) =~= v@ + (seq![ch]
                        + chain_chars(self.cells(), cdr@ as int)));
                    v.push(ch);
                    cur = cdr;
                },
                _ => {
                    assert(v@ + Seq::<char>::empty() =~= v@);
                    break;
                },
            }
        }
        v
    }

    /// A new chain holding the characters of the chain `head` in reverse
    /// order; NIL when that chain is empty.
    pub(crate) fn reverse_chain(&mut self, head: ArenaIndex) -> (r: Result<ArenaIndex, ArenaError>)
        requires
            old(self).wf(),
            head@ < old(self).cells().len(),
            chain_link(old(self).cells(), head@ as int),
        ensures
            final(self).extends(old(self)),
            r matches Ok(i) ==> {
                &&& i@ < final(self).cells().len()
                &&& chain_link(final(self).cells(), i@ as int)
                &&& chain_chars(final(self).cells(), i@ as int) == chain_chars(
                    old(self).cells(),
                    head@ as int,
                ).reverse()
                &&& chain_chars(old(self).cells(), head@ as int).len() == 0 ==> i@ == 0
                &&& final(self).cells().len() == old(self).cells().len() + chain_chars(
                    old(self).cells(),
                    head@ as int,
                ).len()
            },
            r is Err ==> r == Err::<ArenaIndex, ArenaError>(ArenaError::OutOfMemory)
                && final(self).is_full(),
            final(self).cells()[intern_cell()] == old(self).cells()[intern_cell()],
            old(self).cells().len() + chain_chars(old(self).cells(), head@ as int).len() <= old(
                self,
            ).cap() ==> r is Ok,
    {
        let mut cur = head;
        let mut acc = ArenaIndex::nil();
        let ghost read: Seq<char> = Seq::empty();
        assert(chain_chars(old(self).cells(), head@ as int) =~= read + chain_chars(
            old(self).cells(),
            cur@ as int,
        ));
        loop
            invariant
                self.extends(old(self)),
                old(self).wf(),
                self.cells()[intern_cell()] == old(self).cells()[intern_cell()],
                cur@ < old(self).cells().len(),
                chain_link(old(self).cells(), cur@ as int),
                acc@ < self.cells().len(),
                chain_chars(old(self).cells(), head@ as int) == read + chain_chars(
                    old(self).cells(),
                    cur@ as int,
                ),
                chain_chars(self.cells(), acc@ as int) == read.reverse(),
                read.len() == 0 ==> acc@ == 0,
                self.cells().len() == old(self).cells().len() + read.len(),
                old(self).cells().len() + chain_chars(old(self).cells(), head@ as int).len()
                    <= old(self).cap() ==> !self.is_full() || chain_chars(
                    old(self).cells(),
                    cur@ as int,
                ).len() == 0,
            ensures
                self.extends(old(self)),
                self.cells()[intern_cell()] == old(self).cells()[intern_cell()],
                acc@ < self.cells().len(),
                chain_chars(self.cells(), acc@ as int) == chain_chars(
                    old(self).cells(),
                    head@ as int,
                ).reverse(),
                chain_chars(old(self).cells(), head@ as int).len() == 0 ==> acc@ == 0,
                self.cells().len() == old(self).cells().len() + chain_chars(
                    old(self).cells(),
                    head@ as int,
                ).len(),
            decreases cur@,
        {
            if cur.is_nil() {
                assert(read + Seq::<char>::empty() =~= read);
                break;
            }
            let i = cur.raw();
            assert(old(self).cells()[i as int] is CharPair);
            assert(old(self).cells()[intern_cell()] is Cons);
            assert(i as int != intern_cell());
            assert(self.cells()[i as int] == old(self).cells()[i as int]);
            match self.slots[i] {
                Value::CharPair { ch, cdr } => {
                    assert(refs_below(old(self).cells()[i as int], i as int));
                    let ghost mid = self.cells();
                    match self.prepend_char(acc, ch) {
                        Ok(n) => {
                            acc = n;
                        },
                        Err(e) => {
                            return Err(e);
                        },
                    }
                    proof {
                        assert(seq![ch] + read.reverse() =~= read.push(ch).reverse());
                        assert(read + (seq![ch] + chain_chars(old(self).cells(), cdr@ as int))
                            =~= read.push(ch) + chain_chars(old(self).cells(), cdr@ as int));
                        read = read.push(ch);
                    }
                    cur = cdr;
                },
                _ => {
                    assert(read + Seq::<char>::empty() =~= read);
                    break;
                },
            }
        }
        Ok(acc)
    }

    /// The symbol named `cs`, if the arena holds one: a walk along the
    /// intern list.
    fn find_symbol(&self, cs: &Vec<char>) -> (r: Option<ArenaIndex>)
        requires
            self.wf(),
        ensures
            r matches Some(k) ==> k@ < self.cells().len() && self.cells()[k@ as int] is Symbol
                && symbol_name(self.cells(), k@ as int) == cs@,
            r is None ==> fresh_name(self.cells(), cs@),
    {
        let ghost s = self.cells();
        let ghost all = intern_list(s, intern_head(s));
        let mut node = match self.slots[9] {
            Value::Cons { car, .. } => car,
            _ => ArenaIndex::nil(),
        };
        let ghost mut seen: Seq<int> = Seq::empty();
        assert(all =~= seen + intern_list(s, node@ as int));
        loop
            invariant
                self.wf(),
                s == self.cells(),
                all == intern_list(s, intern_head(s)),
                node@ < s.len(),
                all == seen + intern_list(s, node@ as int),
                forall|k: int| 0 <= k < seen.len() ==> symbol_name(s, #[trigger] seen[k]) != cs@,
            ensures
                all == seen,
                forall|k: int| 0 <= k < seen.len() ==> symbol_name(s, #[trigger] seen[k]) != cs@,
            decreases node@,
        {
            let i = node.raw();
            if i == 0 || i == 9 {
                assert(seen + Seq::<int>::empty() =~= seen);
                break;
            }
            match self.slots[i] {
                Value::Cons { car, cdr } => {
                    assert(refs_below(s[i as int], i as int));
                    let ghost rest = intern_list(s, cdr@ as int);
                    assert(intern_list(s, i as int) == seq![car@ as int] + rest);
                    assert(all[seen.len() as int] == car@);
                    assert(s[car@ as int] is Symbol);
                    match self.slots[car.raw()] {
                        Value::Symbol { name } => {
                            let v = self.chain_to_vec(name);
                            if same_chars(&v, cs) {
                                return Some(car);
                            }
                        },
                        _ => {},
                    }
                    proof {
                        assert(seen.push(car@ as int) + rest =~= seen + (seq![car@ as int] + rest));
                        seen = seen.push(car@ as int);
                    }
                    node = cdr;
                },
                _ => {
                    assert(seen + Seq::<int>::empty() =~= seen);
                    break;
                },
            }
        }
        proof {
            assert forall|j: int| 0 <= j < s.len() && (#[trigger] s[j]) is Symbol implies symbol_name(
                s,
                j,
            ) != cs@ by {
                assert(all.contains(j));
                let k = choose|k: int| 0 <= k < all.len() && all[k] == j;
                assert(seen[k] == j);
            }
        }
        None
    }

    /// Add a symbol whose name is the chain `name`: the symbol slot, an
    /// intern node in front of the intern list, and the intern cell pointed
    /// at that node. Needs two free slots.
    fn add_symbol(&mut self, name: ArenaIndex) -> (r: Result<ArenaIndex, ArenaError>)
        requires
            old(self).wf(),
            name@ < old(self).cells().len(),
            chain_link(old(self).cells(), name@ as int),
            fresh_name(old(self).cells(), chain_chars(old(self).cells(), name@ as int)),
        ensures
            final(self).extends(old(self)),
            r matches Ok(k) ==> {
                &&& k@ == old(self).cells().len()
                &&& final(self).cells().len() == old(self).cells().len() + 2
                &&& final(self).cells()[k@ as int] == (Value::Symbol { name: name })
                &&& decode(final(self).cells(), k@ as int) == SExpr::Sym(
                    chain_chars(old(self).cells(), name@ as int),
                )
            },
            r is Err ==> r == Err::<ArenaIndex, ArenaError>(ArenaError::OutOfMemory)
                && old(self).cells().len() + 2 > old(self).cap() && *final(self) == *old(self),
    {
        let len = self.slots.len();
        if len > self.capacity || self.capacity - len < 2 {
            return Err(ArenaError::OutOfMemory);
        }
        let head = match self.slots[9] {
            Value::Cons { car, .. } => car,
            _ => ArenaIndex::nil(),
        };
        let sym = ArenaIndex::new(len);
        let node = ArenaIndex::new(len + 1);
        let nil = ArenaIndex::nil();
        proof {
            lemma_add_symbol_well_formed(self.slots@, self.capacity as nat, name, sym, head, node, nil);
        }
        self.slots.push(Value::Symbol { name });
        self.slots.push(Value::Cons { car: sym, cdr: head });
        self.slots.set(9, Value::Cons { car: node, cdr: nil });
        proof {
            let t = self.cells();
            assert(t[sym@ as int] == (Value::Symbol { name: name }));
            assert(name@ < sym@);
        }
        Ok(sym)
    }

    /// The symbol whose name is the chain `chain` with characters `cs`: the
    /// one on the intern list, or a new one.
    fn intern(&mut self, chain: ArenaIndex, cs: &Vec<char>) -> (r: Result<ArenaIndex, ArenaError>)
        requires
            old(self).wf(),
            chain@ < old(self).cells().len(),
            chain_link(old(self).cells(), chain@ as int),
            cs@ == chain_chars(old(self).cells(), chain@ as int),
        ensures
            final(self).extends(old(self)),
            r matches Ok(k) ==> k@ < final(self).cells().len() && k@ != intern_cell() && decode(
                final(self).cells(),
                k@ as int,
            ) == SExpr::Sym(cs@),
            r is Err ==> r == Err::<ArenaIndex, ArenaError>(ArenaError::OutOfMemory)
                && old(self).cells().len() + 2 > old(self).cap(),
            final(self).cells().len() <= old(self).cells().len() + 2,
            old(self).cells().len() + 2 <= old(self).cap() ==> r is Ok,
    {
        match self.find_symbol(cs) {
            Some(k) => {
                assert(k@ != intern_cell());
                assert(refs_below(self.cells()[k@ as int], k@ as int));
                Ok(k)
            },
            None => self.add_symbol(chain),
        }
    }

    /// The interned symbol named `name`, allocated when the arena holds none.
    pub(crate) fn symbol(&mut self, name: &Vec<char>) -> (r: Result<ArenaIndex, ArenaError>)
        requires
            old(self).wf(),
        ensures
            final(self).extends(old(self)),
            r matches Ok(k) ==> k@ < final(self).cells().len() && k@ != intern_cell() && decode(
                final(self).cells(),
                k@ as int,
            ) == SExpr::Sym(name@),
            r is Err ==> r == Err::<ArenaIndex, ArenaError>(ArenaError::OutOfMemory)
                && final(self).is_nearly_full(),
            final(self).cells().len() <= old(self).cells().len() + name@.len() + 2,
            old(self).cells().len() + name@.len() + 2 <= old(self).cap() ==> r is Ok,
    {
        match self.find_symbol(name) {
            Some(k) => {
                assert(k@ != intern_cell());
                assert(refs_below(self.cells()[k@ as int], k@ as int));
                return Ok(k);
            },
            None => {},
        }
        let mut head = ArenaIndex::nil();
        let mut k = name.len();
        assert(name@.skip(k as int) =~= Seq::<char>::empty());
        while k > 0
            invariant
                self.extends(old(self)),
                k <= name@.len(),
                head@ < self.cells().len(),
                chain_link(self.cells(), head@ as int),
                chain_chars(self.cells(), head@ as int) == name@.skip(k as int),
                self.cells().len() == old(self).cells().len() + (name@.len() - k),
            decreases k,
        {
            k = k - 1;
            let c: char = name[k];
            match self.prepend_char(head, c) {
                Ok(n) => {
                    head = n;
                },
                Err(e) => {
                    return Err(e);
                },
            }
            assert(name@.skip(k as int) =~= seq![name@[k as int]] + name@.skip(k + 1));
        }
        assert(name@.skip(0) =~= name@);
        self.intern(head, name)
    }

    /// The value that the atom text in the chain `chain` stands for: a
    /// singleton for the boolean and special literals, a new number, or an
    /// interned symbol.
    pub(crate) fn classify_atom(&mut self, chain: ArenaIndex) -> (r: Result<ArenaIndex, ArenaError>)
        requires
            old(self).wf(),
            chain@ < old(self).cells().len(),
            chain_link(old(self).cells(), chain@ as int),
        ensures
            final(self).extends(old(self)),
            ({
                let cs = chain_chars(old(self).cells(), chain@ as int);
                &&& classify(cs) is Overflow ==> r == Err::<ArenaIndex, ArenaError>(
                    ArenaError::ArithmeticOverflow,
                )
                &&& r matches Ok(k) ==> k@ < final(self).cells().len() && k@ != intern_cell()
                    && decode(final(self).cells(), k@ as int) == atom_sexpr(cs)
                &&& r matches Err(e) ==> (e == ArenaError::ArithmeticOverflow && classify(
                    cs,
                ) is Overflow) || (e == ArenaError::OutOfMemory && final(self).is_nearly_full())
            }),
            final(self).cells().len() <= old(self).cells().len() + 2,
            old(self).cells().len() + 2 <= old(self).cap() ==> r != Err::<ArenaIndex, ArenaError>(
                ArenaError::OutOfMemory,
            ),
    {
        let cs = self.chain_to_vec(chain);
        if same_chars(&cs, &vec!['#', 't']) || same_chars(&cs, &vec!['#', 't', 'r', 'u', 'e']) {
            return Ok(ArenaIndex::true_value());
        }
        if same_chars(&cs, &vec!['#', 'f']) || same_chars(&cs, &vec!['#', 'f', 'a', 'l', 's', 'e']) {
            return Ok(ArenaIndex::false_value());
        }
        if same_chars(&cs, &vec!['#', 'i', 'n', 'e', 'r', 't']) {
            return Ok(ArenaIndex::inert());
        }
        if same_chars(&cs, &vec!['#', 'i', 'g', 'n', 'o', 'r', 'e']) {
            return Ok(ArenaIndex::ignore());
        }
        match read_numeral(&cs) {
            Numeral::Value(n) => self.allocate(Value::Number(n)),
            Numeral::Overflow => Err(ArenaError::ArithmeticOverflow),
            Numeral::NotNumeral => self.intern(chain, &cs),
        }
    }
}


/// Whether two character vectors hold the same characters.
fn same_chars(a: &Vec<char>, b: &Vec<char>) -> (r: bool)
    ensures
        r == (a@ == b@),
{
    if a.len() != b.len() {
        return false;
    }
    let mut i: usize = 0;
    while i < a.len()
        invariant
            a@.len() == b@.len(),
            i <= a@.len(),
            forall|k: int| 0 <= k < i ==> a@[k] == b@[k],
        decreases a@.len() - i,
    {
        if a[i] != b[i] {
            return false;
        }
        i = i + 1;
    }
    assert(a@ =~= b@);
    true
}

/// Reads a numeral: its value, `Overflow` when it does not fit in `isize`,
/// or `NotNumeral` when the text is no numeral.
fn read_numeral(cs: &Vec<char>) -> (r: Numeral)
    ensures
        r is NotNumeral <==> !is_numeral(cs@),
        r is Overflow ==> !(isize::MIN <= numeral_value(cs@) <= isize::MAX),
        r matches Numeral::Value(n) ==> n == numeral_value(cs@),
{
    let len = cs.len();
    let mut start: usize = 0;
    let mut neg = false;
    if len > 0 && (cs[0] == '+' || cs[0] == '-') {
        start = 1;
        neg = cs[0] == '-';
    }
    let ghost ds = digits_of(cs@);
    assert(ds =~= cs@.skip(start as int));
    if start == len {
        assert(ds.len() == 0);
        assert(!is_numeral(cs@));
        return Numeral::NotNumeral;
    }
    let mut i: usize = start;
    while i < len
        invariant
            start <= i <= len,
            len == cs@.len(),
            ds =~= cs@.skip(start as int),
            ds == digits_of(cs@),
            forall|k: int| start <= k < i ==> is_digit(#[trigger] cs@[k]),
        decreases len - i,
    {
        let c: char = cs[i];
        if c < '0' || c > '9' {
            assert(ds[i - start] == cs@[i as int]);
            assert(!is_digit(ds[i - start]));
            return Numeral::NotNumeral;
        }
        i = i + 1;
    }
    assert forall|k: int| 0 <= k < ds.len() implies is_digit(#[trigger] ds[k]) by {
        assert(ds[k] == cs@[k + start]);
    }
    let mut acc: isize = 0;
    i = start;
    assert(ds.take(0) =~= Seq::<char>::empty());
    while i < len
        invariant
            start <= i <= len,
            len == cs@.len(),
            ds =~= cs@.skip(start as int),
            ds == digits_of(cs@),
            is_numeral(cs@),
            forall|k: int| 0 <= k < ds.len() ==> is_digit(#[trigger] ds[k]),
            neg == (has_sign(cs@) && cs@[0] == '-'),
            start == (if has_sign(cs@) { 1int } else { 0int }),
            acc == (if neg { -digits_value(ds.take(i - start)) } else { digits_value(
                ds.take(i - start),
            ) }),
        decreases len - i,
    {
        let ghost k = i - start;
        assert(ds.take(k + 1).drop_last() =~= ds.take(k));
        assert(ds[k] == cs@[i as int]);
        assert(is_digit(ds[k]));
        assert(ds.take(k + 1).last() == ds[k]);
        assert(digits_value(ds.take(k + 1)) == digits_value(ds.take(k)) * 10 + (ds[k] as int - 48));
        proof {
            lemma_digits_mono(ds, k + 1);
            lemma_digits_mono(ds, k);
        }
        let c: char = cs[i];
        let d = (c as u32 - 48) as isize;
        let m = acc.checked_mul(10);
        match m {
            None => {
                return Numeral::Overflow;
            },
            Some(m) => {
                let next = if neg {
                    m.checked_sub(d)
                } else {
                    m.checked_add(d)
                };
                match next {
                    None => {
                        return Numeral::Overflow;
                    },
                    Some(n) => {
                        acc = n;
                    },
                }
            },
        }
        i = i + 1;
    }
    assert(ds.take(ds.len() as int) =~= ds);
    Numeral::Value(acc)
}

} // verus!
