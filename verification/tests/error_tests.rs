use gc_lang::GcError;

#[test]
fn test_capacity_exhausted_display_is_actionable() {
    let text = GcError::CapacityExhausted.to_string();
    assert!(text.contains("u32::MAX"), "{text}");
}

#[test]
fn test_error_is_copy_and_equatable() {
    let a = GcError::CapacityExhausted;
    let b = a;
    assert_eq!(a, b);
}

#[test]
fn error_text_is_exact() {
    assert_eq!(
        GcError::CapacityExhausted.to_string(),
        "heap is full: cannot address beyond u32::MAX slots"
    );
}
