use grift::{ArenaError, ArenaIndex};

#[test]
fn index_basics() {
    let i = ArenaIndex::new(42);
    assert_eq!(i.raw(), 42);
    assert!(!i.is_nil());
    assert!(ArenaIndex::nil().is_nil());
    assert_eq!(ArenaIndex::default(), ArenaIndex::nil());
    assert_eq!(ArenaIndex::from_bool(true), ArenaIndex::true_value());
    assert_eq!(ArenaIndex::from_bool(false), ArenaIndex::false_value());
    assert_eq!(ArenaIndex::true_value().raw(), 1);
    assert_eq!(ArenaIndex::false_value().raw(), 2);
    assert_eq!(ArenaIndex::first_free().raw(), 10);
}

#[test]
fn singleton_slots() {
    let raw: Vec<usize> = ArenaIndex::roots().iter().map(|i| i.raw()).collect();
    assert_eq!(raw, vec![0, 1, 2, 3, 4, 5, 7, 8, 9]);
    assert_eq!(ArenaIndex::inert().raw(), 3);
    assert_eq!(ArenaIndex::ignore().raw(), 4);
    assert_eq!(ArenaIndex::ground_env().raw(), 5);
    assert_eq!(ArenaIndex::global_env().raw(), 7);
    assert_eq!(ArenaIndex::gc_roots().raw(), 8);
    assert_eq!(ArenaIndex::intern_list().raw(), 9);
}

#[test]
fn index_display() {
    assert_eq!(ArenaIndex::new(0).to_string(), "@0");
    assert_eq!(ArenaIndex::new(1234).to_string(), "@1234");
}

#[test]
fn error_messages() {
    assert_eq!(ArenaError::OutOfMemory.as_str(), "Arena is full");
    assert_eq!(ArenaError::IndexOutOfBounds.as_str(), "Index out of bounds");
    assert_eq!(ArenaError::IndexNotAllocated.as_str(), "Index not allocated");
    assert_eq!(ArenaError::InvalidArgument.as_str(), "Invalid argument");
    assert_eq!(ArenaError::TraceError.as_str(), "Error during GC tracing");
    assert_eq!(ArenaError::Cyclic.as_str(), "Cycle detected in evaluation");
    assert_eq!(ArenaError::TypeError.as_str(), "Type error");
    assert_eq!(ArenaError::ParseError { line: 1, col: 2 }.as_str(), "Parse error");
    assert_eq!(ArenaError::ArithmeticOverflow.as_str(), "Arithmetic overflow");
    assert_eq!(ArenaError::DivisionByZero.as_str(), "Division by zero");
    assert_eq!(ArenaError::UnboundVariable.as_str(), "Unbound variable");
    assert_eq!(ArenaError::NotCallable.as_str(), "Not callable");
    assert_eq!(
        ArenaError::ImmutableEnvironment.as_str(),
        "Attempt to mutate immutable environment"
    );
}

#[test]
fn error_predicates() {
    assert!(ArenaError::OutOfMemory.is_out_of_memory());
    assert!(!ArenaError::TypeError.is_out_of_memory());
    assert!(ArenaError::IndexOutOfBounds.is_invalid_index());
    assert!(ArenaError::IndexNotAllocated.is_invalid_index());
    assert!(!ArenaError::OutOfMemory.is_invalid_index());
    assert!(ArenaError::TraceError.is_trace_error());
    assert!(!ArenaError::Cyclic.is_trace_error());
}

#[test]
fn error_display() {
    assert_eq!(
        ArenaError::ParseError { line: 3, col: 14 }.to_string(),
        "Parse error at line 3, column 14"
    );
    assert_eq!(ArenaError::DivisionByZero.to_string(), "Division by zero");
}
