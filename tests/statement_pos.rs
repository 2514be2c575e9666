use reactive_core::statement_pos::{ExecutionType, StatementPos};

#[test]
fn test_pos_intersection() {
    // 1......2.1.....2
    let pos_1 = StatementPos {
        execution_type: ExecutionType::Exec,
        row_start: 0,
        row_end: 0,
        col_start: 0,
        col_end: 10,
    };
    let pos_2 = StatementPos {
        execution_type: ExecutionType::Exec,
        row_start: 0,
        row_end: 0,
        col_start: 8,
        col_end: 15,
    };
    assert!(pos_1.intersects(&pos_2));
    assert!(pos_2.intersects(&pos_1));
}

#[test]
fn test_pos_no_intersection() {
    let pos_1 = StatementPos {
        execution_type: ExecutionType::Exec,
        row_start: 0,
        row_end: 0,
        col_start: 10,
        col_end: 10,
    };
    let pos_2 = StatementPos {
        execution_type: ExecutionType::Exec,
        row_start: 11,
        row_end: 13,
        col_start: 15,
        col_end: 15,
    };
    assert!(!pos_1.intersects(&pos_2));
    assert!(!pos_2.intersects(&pos_1));
}

#[test]
fn test_pos_same_pos() {
    let pos_1 = StatementPos {
        execution_type: ExecutionType::Exec,
        row_start: 0,
        row_end: 0,
        col_start: 10,
        col_end: 10,
    };
    let pos_2 = StatementPos {
        execution_type: ExecutionType::Exec,
        row_start: 0,
        row_end: 0,
        col_start: 10,
        col_end: 10,
    };
    assert!(pos_1.intersects(&pos_2));
    assert!(pos_2.intersects(&pos_1));
}

#[test]
fn test_pos_no_intersection_same_col() {
    // 1........1
    // 2........2
    let pos_1 = StatementPos {
        execution_type: ExecutionType::Exec,
        row_start: 0,
        row_end: 10,
        col_start: 0,
        col_end: 0,
    };
    let pos_2 = StatementPos {
        execution_type: ExecutionType::Exec,
        row_start: 12,
        row_end: 15,
        col_start: 0,
        col_end: 0,
    };
    assert!(!pos_1.intersects(&pos_2));
    assert!(!pos_2.intersects(&pos_1));
}

#[test]
fn test_pos_no_intersection_same_row() {
    // 1........1.2...2
    let pos_1 = StatementPos {
        execution_type: ExecutionType::Exec,
        row_start: 0,
        row_end: 0,
        col_start: 0,
        col_end: 10,
    };
    let pos_2 = StatementPos {
        execution_type: ExecutionType::Exec,
        row_start: 0,
        row_end: 0,
        col_start: 12,
        col_end: 15,
    };
    assert!(!pos_1.intersects(&pos_2));
    assert!(!pos_2.intersects(&pos_1));
}

#[test]
fn test_extract_code() {
    let code = "a = 1
b = 2
c = 3
d = 4
";
    let pos = StatementPos {
        execution_type: ExecutionType::Exec,
        row_start: 1,
        row_end: 2,
        col_start: 0,
        col_end: 5,
    };

    assert_eq!(pos.extract_code(code), "b = 2\nc = 3".to_string());
}

#[test]
fn extract_code_clips_rows_past_the_end() {
    let pos = StatementPos {
        execution_type: ExecutionType::Eval,
        row_start: 2,
        row_end: 9,
        col_start: 0,
        col_end: 0,
    };
    assert_eq!(pos.extract_code("x\r\ny\nz\n"), "z".to_string());
    let pos = StatementPos { row_start: 0, row_end: 1, ..pos };
    assert_eq!(pos.extract_code("x\r\ny\nz\n"), "x\ny".to_string());
}

#[test]
fn extract_code_of_empty_range_is_empty() {
    let pos = StatementPos {
        execution_type: ExecutionType::Exec,
        row_start: 3,
        row_end: 1,
        col_start: 0,
        col_end: 0,
    };
    assert_eq!(pos.extract_code("a\nb\nc\nd\ne"), String::new());
}
