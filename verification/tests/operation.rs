use countdown::operation::{Operation, OperationType};

#[test]
fn new_stores_the_larger_operand_first() {
    let op = Operation::new(3, 8, OperationType::Subtraction);
    assert_eq!((op.op1, op.op2), (8, 3));
    assert_eq!(op.op_type, OperationType::Subtraction);
    let op = Operation::new(8, 3, OperationType::Subtraction);
    assert_eq!((op.op1, op.op2), (8, 3));
    let op = Operation::new(5, 5, OperationType::Division);
    assert_eq!((op.op1, op.op2), (5, 5));
}

#[test]
fn addition_and_multiplication_are_always_possible() {
    assert!(Operation::new(0, 0, OperationType::Addition).is_possible());
    assert!(Operation::new(7, 7, OperationType::Addition).is_possible());
    assert!(Operation::new(0, 9, OperationType::Multiplication).is_possible());
    assert!(Operation::new(u32::MAX, u32::MAX, OperationType::Multiplication).is_possible());
    assert!(Operation::new(u32::MAX, 1, OperationType::Addition).is_possible());
}

#[test]
fn subtraction_of_equal_operands_is_not_possible() {
    assert!(!Operation::new(4, 4, OperationType::Subtraction).is_possible());
    assert_eq!(Operation::new(4, 4, OperationType::Subtraction).result(), None);
    assert!(Operation::new(4, 5, OperationType::Subtraction).is_possible());
    assert_eq!(Operation::new(4, 5, OperationType::Subtraction).result(), Some(1));
}

#[test]
fn division_needs_a_whole_quotient() {
    assert!(Operation::new(3, 12, OperationType::Division).is_possible());
    assert_eq!(Operation::new(3, 12, OperationType::Division).result(), Some(4));
    assert!(!Operation::new(12, 5, OperationType::Division).is_possible());
    assert_eq!(Operation::new(12, 5, OperationType::Division).result(), None);
    assert!(Operation::new(6, 6, OperationType::Division).is_possible());
    assert_eq!(Operation::new(6, 6, OperationType::Division).result(), Some(1));
}

#[test]
fn division_by_zero_is_not_possible() {
    assert!(!Operation::new(5, 0, OperationType::Division).is_possible());
    assert_eq!(Operation::new(5, 0, OperationType::Division).result(), None);
    assert!(!Operation::new(0, 0, OperationType::Division).is_possible());
    assert!(!Operation::new(0, 5, OperationType::Division).is_possible());
    assert_eq!(Operation::new(0, 5, OperationType::Division).result(), None);
    assert_eq!(Operation::new(0, 0, OperationType::Division).render(), "0 ÷ 0 = X");
}

#[test]
fn results_of_the_four_operators() {
    assert_eq!(Operation::new(7, 8, OperationType::Addition).result(), Some(15));
    assert_eq!(Operation::new(7, 8, OperationType::Multiplication).result(), Some(56));
    assert_eq!(Operation::new(7, 8, OperationType::Subtraction).result(), Some(1));
    assert_eq!(Operation::new(56, 8, OperationType::Division).result(), Some(7));
}

#[test]
fn result_that_does_not_fit_is_none() {
    assert_eq!(Operation::new(u32::MAX, 1, OperationType::Addition).result(), None);
    assert_eq!(
        Operation::new(u32::MAX - 1, 1, OperationType::Addition).result(),
        Some(u32::MAX)
    );
    assert_eq!(Operation::new(65536, 65536, OperationType::Multiplication).result(), None);
    assert_eq!(
        Operation::new(65535, 65537, OperationType::Multiplication).result(),
        Some(u32::MAX)
    );
}

#[test]
fn operators_have_their_signs() {
    assert_eq!(OperationType::Addition.symbol(), "+");
    assert_eq!(OperationType::Subtraction.symbol(), "-");
    assert_eq!(OperationType::Multiplication.symbol(), "×");
    assert_eq!(OperationType::Division.symbol(), "÷");
}

#[test]
fn operations_are_written_with_their_result() {
    assert_eq!(Operation::new(7, 8, OperationType::Multiplication).render(), "8 × 7 = 56");
    assert_eq!(Operation::new(100, 25, OperationType::Division).render(), "100 ÷ 25 = 4");
    assert_eq!(Operation::new(1, 6, OperationType::Addition).render(), "6 + 1 = 7");
    assert_eq!(Operation::new(10, 0, OperationType::Subtraction).render(), "10 - 0 = 10");
    assert_eq!(
        Operation::new(4294967295, 0, OperationType::Addition).render(),
        "4294967295 + 0 = 4294967295"
    );
}

#[test]
fn operations_without_result_are_written_with_x() {
    assert_eq!(Operation::new(4, 4, OperationType::Subtraction).render(), "4 - 4 = X");
    assert_eq!(Operation::new(7, 2, OperationType::Division).render(), "7 ÷ 2 = X");
}

#[test]
fn write_to_appends() {
    let mut out = String::from("so: ");
    Operation::new(2, 3, OperationType::Addition).write_to(&mut out);
    assert_eq!(out, "so: 3 + 2 = 5");
}
