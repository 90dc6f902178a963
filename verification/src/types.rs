//! Core types shared by the arena and the reader: [`ArenaIndex`], a light
//! index into the arena's slot array, and [`ArenaError`], the enumeration of
//! every failure mode.

use vstd::prelude::*;
use vstd::string::StringExecFns;

verus! {

/// The characters of the decimal numeral of `n`, most significant digit
/// first, with no sign and no leading zero.
pub open spec fn decimal(n: nat) -> Seq<char>
    decreases n,
{
    if n < 10 {
        seq![digit_char(n)]
    } else {
        decimal(n / 10).push(digit_char(n % 10))
    }
}

/// The ASCII character of the decimal digit `d` (for `d < 10`).
pub open spec fn digit_char(d: nat) -> char {
    ((48 + d) as u32) as char
}

/// Renders an integer as its decimal numeral.
///
/// Calls `ToString::to_string` on a `usize`; the contract claims what std's
/// `Display` for unsigned integers documents: the plain decimal numeral.
#[verifier::external_body]
fn usize_decimal(n: usize) -> (s: String)
    ensures
        s@ == decimal(n as nat),
{
    n.to_string()
}

/// Index into the arena.
///
/// A lightweight wrapper around `usize` that directly indexes the arena's
/// slot array. Indices should be obtained from arena operations; building
/// one by hand is meant for serialization.
#[derive(Clone, Copy, Debug, PartialEq, Eq, Hash, Structural)]
pub struct ArenaIndex(usize);

impl View for ArenaIndex {
    type V = nat;

    closed spec fn view(&self) -> nat {
        self.0 as nat
    }
}

/// Indices are their slot numbers: two indices with the same slot number
/// are the same index.
pub proof fn lemma_index_view_injective(a: ArenaIndex, b: ArenaIndex)
    requires
        a@ == b@,
    ensures
        a == b,
{
}

impl ArenaIndex {
    /// The NIL index: slot 0, where the empty list is pre-allocated.
    pub fn nil() -> (r: ArenaIndex)
        ensures
            r@ == 0,
    {
        ArenaIndex(0)
    }

    /// The TRUE index: slot 1, where `#t` is pre-allocated.
    pub fn true_value() -> (r: ArenaIndex)
        ensures
            r@ == 1,
    {
        ArenaIndex(1)
    }

    /// The FALSE index: slot 2, where `#f` is pre-allocated.
    pub fn false_value() -> (r: ArenaIndex)
        ensures
            r@ == 2,
    {
        ArenaIndex(2)
    }

    /// The INERT index: slot 3, where `#inert` is pre-allocated.
    pub fn inert() -> (r: ArenaIndex)
        ensures
            r@ == 3,
    {
        ArenaIndex(3)
    }

    /// The IGNORE index: slot 4, where `#ignore` is pre-allocated.
    pub fn ignore() -> (r: ArenaIndex)
        ensures
            r@ == 4,
    {
        ArenaIndex(4)
    }

    /// The GROUND_ENV index: slot 5, reserved for the ground environment.
    pub fn ground_env() -> (r: ArenaIndex)
        ensures
            r@ == 5,
    {
        ArenaIndex(5)
    }

    /// The GLOBAL_ENV index: slot 7, reserved for the global environment.
    /// Slot 6 is reserved for the cell linking ground to global.
    pub fn global_env() -> (r: ArenaIndex)
        ensures
            r@ == 7,
    {
        ArenaIndex(7)
    }

    /// The GC_ROOTS index: slot 8, reserved for the head of the GC root stack.
    pub fn gc_roots() -> (r: ArenaIndex)
        ensures
            r@ == 8,
    {
        ArenaIndex(8)
    }

    /// The INTERN_LIST index: slot 9, reserved for the head of the intern list.
    pub fn intern_list() -> (r: ArenaIndex)
        ensures
            r@ == 9,
    {
        ArenaIndex(9)
    }

    /// The first slot available for ordinary allocation; the singletons
    /// occupy slots `0..FIRST_FREE`.
    pub fn first_free() -> (r: ArenaIndex)
        ensures
            r@ == 10,
    {
        ArenaIndex(10)
    }

    /// All singleton slots, which survive every collection.
    pub fn roots() -> (r: [ArenaIndex; 9])
        ensures
            r@.len() == 9,
            r@[0]@ == 0 && r@[1]@ == 1 && r@[2]@ == 2 && r@[3]@ == 3 && r@[4]@ == 4,
            r@[5]@ == 5 && r@[6]@ == 7 && r@[7]@ == 8 && r@[8]@ == 9,
    {
        [
            ArenaIndex::nil(),
            ArenaIndex::true_value(),
            ArenaIndex::false_value(),
            ArenaIndex::inert(),
            ArenaIndex::ignore(),
            ArenaIndex::ground_env(),
            ArenaIndex::global_env(),
            ArenaIndex::gc_roots(),
            ArenaIndex::intern_list(),
        ]
    }

    /// The index of `#t` if `b` is true, that of `#f` otherwise.
    pub fn from_bool(b: bool) -> (r: ArenaIndex)
        ensures
            r@ == (if b { 1nat } else { 2nat }),
    {
        if b {
            Self::true_value()
        } else {
            Self::false_value()
        }
    }

    /// Create an arena index with the given slot number.
    pub fn new(index: usize) -> (r: Self)
        ensures
            r@ == index,
    {
        ArenaIndex(index)
    }

    /// The raw slot number.
    pub fn raw(self) -> (r: usize)
        ensures
            r == self@,
    {
        self.0
    }

    /// Whether this is the NIL index (slot 0).
    pub fn is_nil(self) -> (r: bool)
        ensures
            r == (self@ == 0),
    {
        self.0 == 0
    }

    /// The text of this index as `Display` writes it: `@` and the slot number.
    pub fn to_string(&self) -> (s: String)
        ensures
            s@ == seq!['@'] + decimal(self@),
    {
        let mut s = "@".to_owned();
        proof {
            reveal_strlit("@");
        }
        let digits = usize_decimal(self.0);
        s.append(digits.as_str());
        s
    }
}

impl Default for ArenaIndex {
    /// The NIL index (slot 0).
    fn default() -> (r: Self)
        ensures
            r@ == 0,
    {
        Self::nil()
    }
}

/// Errors that can occur during arena and reader operations.
///
/// Each variant captures one failure mode; none carries a heap-allocated
/// message.
#[derive(Debug, Clone, Copy, PartialEq, Eq, Structural)]
pub enum ArenaError {
    /// Arena is full, cannot allocate more cells.
    OutOfMemory,
    /// Index exceeds the arena's capacity.
    IndexOutOfBounds,
    /// Index refers to a slot that has been freed or was never allocated.
    IndexNotAllocated,
    /// An argument to an operation was invalid (such as an unknown escape).
    InvalidArgument,
    /// An error occurred during garbage-collection tracing.
    TraceError,
    /// Cycle detected during structure traversal.
    Cyclic,
    /// A value had the wrong type for the requested operation.
    TypeError,
    /// A parse error, with the 1-based line and column where it was detected.
    ParseError {
        /// 1-based line number where the error was detected.
        line: u32,
        /// 1-based column number where the error was detected.
        col: u32,
    },
    /// Checked arithmetic overflowed.
    ArithmeticOverflow,
    /// Division or modulo by zero.
    DivisionByZero,
    /// A variable was not found in the current or global environment.
    UnboundVariable,
    /// Attempted to call a value that is not a function.
    NotCallable,
    /// Attempted to mutate an immutable environment.
    ImmutableEnvironment,
}

impl ArenaError {
    /// The human-readable description of each error kind.
    pub open spec fn message(self) -> Seq<char> {
        match self {
            ArenaError::OutOfMemory => "Arena is full"@,
            ArenaError::IndexOutOfBounds => "Index out of bounds"@,
            ArenaError::IndexNotAllocated => "Index not allocated"@,
            ArenaError::InvalidArgument => "Invalid argument"@,
            ArenaError::TraceError => "Error during GC tracing"@,
            ArenaError::Cyclic => "Cycle detected in evaluation"@,
            ArenaError::TypeError => "Type error"@,
            ArenaError::ParseError { .. } => "Parse error"@,
            ArenaError::ArithmeticOverflow => "Arithmetic overflow"@,
            ArenaError::DivisionByZero => "Division by zero"@,
            ArenaError::UnboundVariable => "Unbound variable"@,
            ArenaError::NotCallable => "Not callable"@,
            ArenaError::ImmutableEnvironment => "Attempt to mutate immutable environment"@,
        }
    }

    /// A human-readable description of the error.
    pub fn as_str(&self) -> (s: &'static str)
        ensures
            s@ == self.message(),
    {
        match self {
            ArenaError::OutOfMemory => "Arena is full",
            ArenaError::IndexOutOfBounds => "Index out of bounds",
            ArenaError::IndexNotAllocated => "Index not allocated",
            ArenaError::InvalidArgument => "Invalid argument",
            ArenaError::TraceError => "Error during GC tracing",
            ArenaError::Cyclic => "Cycle detected in evaluation",
            ArenaError::TypeError => "Type error",
            ArenaError::ParseError { .. } => "Parse error",
            ArenaError::ArithmeticOverflow => "Arithmetic overflow",
            ArenaError::DivisionByZero => "Division by zero",
            ArenaError::UnboundVariable => "Unbound variable",
            ArenaError::NotCallable => "Not callable",
            ArenaError::ImmutableEnvironment => "Attempt to mutate immutable environment",
        }
    }

    /// Whether this error says that the arena is full.
    pub fn is_out_of_memory(&self) -> (r: bool)
        ensures
            r == (*self is OutOfMemory),
    {
        matches!(self, ArenaError::OutOfMemory)
    }

    /// Whether this error says that an index is invalid (out of bounds or
    /// not allocated).
    pub fn is_invalid_index(&self) -> (r: bool)
        ensures
            r == (*self is IndexOutOfBounds || *self is IndexNotAllocated),
    {
        matches!(self, ArenaError::IndexOutOfBounds | ArenaError::IndexNotAllocated)
    }

    /// Whether this error comes from garbage-collection tracing.
    pub fn is_trace_error(&self) -> (r: bool)
        ensures
            r == (*self is TraceError),
    {
        matches!(self, ArenaError::TraceError)
    }

    /// The text of this error as `Display` writes it: the location for a
    /// parse error, the description otherwise.
    pub fn to_string(&self) -> (s: String)
        ensures
            s@ == (match *self {
                ArenaError::ParseError { line, col } => "Parse error at line "@ + decimal(
                    line as nat,
                ) + ", column "@ + decimal(col as nat),
                _ => self.message(),
            }),
    {
        match self {
            ArenaError::ParseError { line, col } => {
                let mut s = "Parse error at line ".to_owned();
                let l = usize_decimal(*line as usize);
                s.append(l.as_str());
                s.append(", column ");
                let c = usize_decimal(*col as usize);
                s.append(c.as_str());
                s
            },
            _ => self.as_str().to_owned(),
        }
    }
}

} // verus!
