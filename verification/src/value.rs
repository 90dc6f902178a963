//! The values stored in arena slots, and their meaning as S-expressions.
//!
//! A sequence of slots is read as a graph of values: strings and symbol
//! names are chains of [`Value::CharPair`] cells, lists are chains of
//! [`Value::Cons`] cells. In a well-formed arena every reference points to a
//! slot with a smaller number, so every structure is finite and acyclic.

use vstd::prelude::*;
use crate::types::ArenaIndex;

verus! {

/// A value stored in one arena slot.
#[derive(Clone, Copy, Debug, PartialEq, Eq, Structural)]
pub enum Value {
    /// The empty list `()`.
    Nil,
    /// `#t` or `#f`.
    Boolean(bool),
    /// A signed integer.
    Number(isize),
    /// An interned symbol; `name` is the chain of its characters.
    Symbol { name: ArenaIndex },
    /// A pair.
    Cons { car: ArenaIndex, cdr: ArenaIndex },
    /// One character of a string, followed by the rest of the string.
    CharPair { ch: char, cdr: ArenaIndex },
    /// `#inert`.
    Inert,
    /// `#ignore`.
    Ignore,
    /// An environment: its own bindings and its parents.
    Environment { bindings: ArenaIndex, parents: ArenaIndex },
}

/// An S-expression: what a tree of arena values means.
pub enum SExpr {
    Nil,
    Bool(bool),
    Num(int),
    Sym(Seq<char>),
    Str(Seq<char>),
    Pair(Box<SExpr>, Box<SExpr>),
    Inert,
    Ignore,
    Environment,
}

/// Every slot that `v` refers to lies below slot `i`.
pub open spec fn refs_below(v: Value, i: int) -> bool {
    match v {
        Value::Symbol { name } => name@ < i,
        Value::Cons { car, cdr } => car@ < i && cdr@ < i,
        Value::CharPair { cdr, .. } => cdr@ < i,
        Value::Environment { bindings, parents } => bindings@ < i && parents@ < i,
        _ => true,
    }
}

/// The slot of the intern cell, whose car is the head of the list of all
/// symbols; it is the one slot that changes after it is made.
pub open spec fn intern_cell() -> int {
    9
}

/// Every slot but the intern cell refers only to slots below itself.
pub open spec fn ordered(s: Seq<Value>) -> bool {
    forall|i: int| 0 <= i < s.len() && i != intern_cell() ==> #[trigger] refs_below(s[i], i)
}

/// `v` refers to slot `j`.
pub open spec fn refers_to(v: Value, j: int) -> bool {
    match v {
        Value::Symbol { name } => name@ == j,
        Value::Cons { car, cdr } => car@ == j || cdr@ == j,
        Value::CharPair { cdr, .. } => cdr@ == j,
        Value::Environment { bindings, parents } => bindings@ == j || parents@ == j,
        _ => false,
    }
}

/// No slot refers to the intern cell.
pub open spec fn avoids_intern_cell(s: Seq<Value>) -> bool {
    forall|i: int| 0 <= i < s.len() ==> !refers_to(#[trigger] s[i], intern_cell())
}

/// The characters of the chain that starts at slot `i`: it ends at NIL, at
/// an unallocated slot, or at a slot that is not a character cell.
pub open spec fn chain_chars(s: Seq<Value>, i: int) -> Seq<char>
    decreases i,
{
    if i <= 0 || i >= s.len() {
        seq![]
    } else {
        match s[i] {
            Value::CharPair { ch, cdr } => if cdr@ < i {
                seq![ch] + chain_chars(s, cdr@ as int)
            } else {
                seq![ch]
            },
            _ => seq![],
        }
    }
}

/// The S-expression that slot `i` stands for.
pub open spec fn decode(s: Seq<Value>, i: int) -> SExpr
    decreases i,
{
    if i < 0 || i >= s.len() {
        SExpr::Nil
    } else {
        match s[i] {
            Value::Nil => SExpr::Nil,
            Value::Boolean(b) => SExpr::Bool(b),
            Value::Number(n) => SExpr::Num(n as int),
            Value::Symbol { name } => if name@ < i {
                SExpr::Sym(chain_chars(s, name@ as int))
            } else {
                SExpr::Sym(seq![])
            },
            Value::Cons { car, cdr } => SExpr::Pair(
                Box::new(
                    if car@ < i {
                        decode(s, car@ as int)
                    } else {
                        SExpr::Nil
                    },
                ),
                Box::new(
                    if cdr@ < i {
                        decode(s, cdr@ as int)
                    } else {
                        SExpr::Nil
                    },
                ),
            ),
            Value::CharPair { .. } => SExpr::Str(chain_chars(s, i)),
            Value::Inert => SExpr::Inert,
            Value::Ignore => SExpr::Ignore,
            Value::Environment { .. } => SExpr::Environment,
        }
    }
}

/// The name of the symbol in slot `i`.
pub open spec fn symbol_name(s: Seq<Value>, i: int) -> Seq<char> {
    chain_chars(s, s[i]->Symbol_name@ as int)
}

/// No two symbol slots carry the same name.
pub open spec fn interned(s: Seq<Value>) -> bool {
    forall|i: int, j: int|
        0 <= i < s.len() && 0 <= j < s.len() && i != j && (#[trigger] s[i]) is Symbol && (
        #[trigger] s[j]) is Symbol ==> symbol_name(s, i) != symbol_name(s, j)
}

/// `new` holds every slot of `old` unchanged but the intern cell, possibly
/// followed by more.
pub open spec fn keeps(old: Seq<Value>, new: Seq<Value>) -> bool {
    &&& old.len() <= new.len()
    &&& forall|i: int| 0 <= i < old.len() && i != intern_cell() ==> new[i] == old[i]
}

/// Appending slots, or changing the intern cell, changes neither the chain
/// nor the meaning of another existing slot.
pub proof fn lemma_stable(old: Seq<Value>, new: Seq<Value>, i: int)
    requires
        keeps(old, new),
        avoids_intern_cell(old),
        i < old.len(),
        i != intern_cell(),
    ensures
        chain_chars(new, i) == chain_chars(old, i),
        decode(new, i) == decode(old, i),
    decreases i,
{
    if i >= 0 {
        assert(!refers_to(old[i], intern_cell()));
        match old[i] {
            Value::CharPair { ch, cdr } => {
                if cdr@ < i {
                    lemma_stable(old, new, cdr@ as int);
                }
            },
            Value::Symbol { name } => {
                if name@ < i {
                    lemma_stable(old, new, name@ as int);
                }
            },
            Value::Cons { car, cdr } => {
                if car@ < i {
                    lemma_stable(old, new, car@ as int);
                }
                if cdr@ < i {
                    lemma_stable(old, new, cdr@ as int);
                }
            },
            _ => {},
        }
    }
}

/// A non-empty chain starts at a character cell, and its slot means that string.
pub proof fn lemma_chain_nonempty(s: Seq<Value>, i: int)
    requires
        chain_chars(s, i).len() > 0,
    ensures
        0 < i < s.len(),
        s[i] is CharPair,
        decode(s, i) == SExpr::Str(chain_chars(s, i)),
        chain_chars(s, i)[0] == s[i]->CharPair_ch,
{
}

} // verus!
