use voleith::prove::{field_for_size, main, ProofField, UnsupportedFieldSize};

#[test]
fn test_main() {
    // Run the test based on the current FIELD_SIZE
    let result = main();
    assert!(result.is_ok(), "Failed to execute main function: {:?}", result);
}

#[test]
fn field_selection() {
    assert_eq!(field_for_size(2), Ok(ProofField::F2));
    assert_eq!(field_for_size(128), Err(UnsupportedFieldSize { size: 128 }));
    assert_eq!(ProofField::F2.name(), "F_2");
    assert_eq!(ProofField::F2.dir(), "f2");
}
