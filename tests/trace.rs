use csim::valgrind::{parse, MemoryAccess, Operation, TraceError};

#[test]
fn basic_parsing() {
    let instructions = "\
I 10,1
 L 10,1
 M 20,1
 L 22,1
 S 18,1
 L 110,1
 L 210,1
 M 12,1";

    let result = parse(instructions).unwrap();
    assert_eq!(
        result,
        vec![
            MemoryAccess { operation: Operation::Load, address: 0x10, size: 1 },
            MemoryAccess { operation: Operation::Load, address: 0x20, size: 1 },
            MemoryAccess { operation: Operation::Store, address: 0x20, size: 1 },
            MemoryAccess { operation: Operation::Load, address: 0x22, size: 1 },
            MemoryAccess { operation: Operation::Store, address: 0x18, size: 1 },
            MemoryAccess { operation: Operation::Load, address: 0x110, size: 1 },
            MemoryAccess { operation: Operation::Load, address: 0x210, size: 1 },
            MemoryAccess { operation: Operation::Load, address: 0x12, size: 1 },
            MemoryAccess { operation: Operation::Store, address: 0x12, size: 1 },
        ]
    );
}

#[test]
fn noop() {
    let instructions = "I 10,1";
    let result = parse(instructions).unwrap();
    assert_eq!(result, vec![]);
}

#[test]
fn empty_trace_and_line_endings() {
    assert_eq!(parse("").unwrap(), vec![]);
    let r = parse(" S 7fff0a,8\r\n\tL +ffffffffffffffff,255\n").unwrap();
    assert_eq!(
        r,
        vec![
            MemoryAccess { operation: Operation::Store, address: 0x7fff0a, size: 8 },
            MemoryAccess { operation: Operation::Load, address: u64::MAX, size: 255 },
        ]
    );
}

#[test]
fn field_count_errors() {
    assert_eq!(parse("L 10,1\n\nL 20,1"), Err(TraceError::FieldCount));
    assert_eq!(parse("L"), Err(TraceError::FieldCount));
    assert_eq!(parse("L 10,1 extra"), Err(TraceError::FieldCount));
}

#[test]
fn operation_errors() {
    assert_eq!(parse("X 10,1"), Err(TraceError::UnknownOperation));
    assert_eq!(parse("LL 10,1"), Err(TraceError::UnknownOperation));
}

#[test]
fn operand_errors() {
    assert_eq!(parse("L 10"), Err(TraceError::Operands));
    assert_eq!(parse("L 10,1,2"), Err(TraceError::Operands));
    assert_eq!(parse("L 1g,1"), Err(TraceError::Address));
    assert_eq!(parse("L ,1"), Err(TraceError::Address));
    assert_eq!(parse("L 10000000000000000,1"), Err(TraceError::Address));
    assert_eq!(parse("L 10,256"), Err(TraceError::Size));
    assert_eq!(parse("L 10,a"), Err(TraceError::Size));
    assert_eq!(parse("L 10,-1"), Err(TraceError::Size));
}

#[test]
fn one_bad_line_rejects_the_trace() {
    assert_eq!(parse("L 10,1\nS 20,1\nQ 30,1\nL 40,1"), Err(TraceError::UnknownOperation));
}

#[test]
fn unicode_white_space_is_trimmed() {
    let r = parse("\u{a0}L 10,1\u{3000}\n\u{2003} S 20,2\u{85}\u{202f}").unwrap();
    assert_eq!(
        r,
        vec![
            MemoryAccess { operation: Operation::Load, address: 0x10, size: 1 },
            MemoryAccess { operation: Operation::Store, address: 0x20, size: 2 },
        ]
    );
    // Inside a line only spaces separate the fields.
    assert_eq!(parse("L\u{a0}10,1"), Err(TraceError::FieldCount));
    // A character without the White_Space property is not trimmed.
    assert_eq!(parse("\u{200b}L 10,1"), Err(TraceError::UnknownOperation));
}
