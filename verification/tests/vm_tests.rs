use langlang::vm::{Error, Instruction, Program, Value, VM};

#[test]
fn ch_1() {
    let input = "a".to_string();
    // G <- 'a'
    let program = Program {
        names: vec![],
        code: vec![
            Instruction::Call(2, 0),
            Instruction::Halt,
            Instruction::Char('a'),
            Instruction::Return,
        ],
    };

    let mut vm = VM::new(program);
    let result = vm.run(&input);

    assert!(result.is_ok());
    assert!(vm.cursor.is_ok());
    assert_eq!(1, vm.cursor.unwrap());
}

#[test]
fn ch_2() {
    let input = "b".to_string();
    // G <- 'a'
    let program = Program {
        names: vec![],
        code: vec![
            Instruction::Call(2, 0),
            Instruction::Halt,
            Instruction::Char('a'),
            Instruction::Return,
        ],
    };

    let mut vm = VM::new(program);
    let result = vm.run(&input);

    assert!(result.is_err());
    assert_eq!(
        Error::Matching("a".to_string(), "b".to_string()),
        result.unwrap_err(),
    );
    assert_eq!(0, vm.ffp);
}

#[test]
fn any_1() {
    let input = "abcd".to_string();
    let program = Program {
        names: vec![],
        code: vec![
            Instruction::Call(2, 0),
            Instruction::Halt,
            Instruction::Any,
            Instruction::Any,
            Instruction::Any,
            Instruction::Return,
        ],
    };

    let mut vm = VM::new(program);
    let result = vm.run(&input);

    assert!(result.is_ok());
    assert!(vm.cursor.is_ok());
    assert_eq!(3, vm.cursor.unwrap());
}

#[test]
fn any_2_eof() {
    let input = "".to_string();
    let program = Program {
        names: vec![],
        code: vec![
            Instruction::Call(2, 0),
            Instruction::Halt,
            Instruction::Any,
            Instruction::Return,
        ],
    };

    let mut vm = VM::new(program);
    let result = vm.run(&input);

    assert!(result.is_err());
    assert_eq!(Error::EOF, result.unwrap_err());
    assert!(vm.cursor.is_err());
    assert_eq!(vm.cursor.unwrap_err(), Error::EOF)
}

#[test]
fn not_1() {
    let input = "foo".to_string();
    // G <- !'a'
    let program = Program {
        names: vec![],
        code: vec![
            Instruction::Call(2, 0),
            Instruction::Halt,
            Instruction::Choice(4),
            Instruction::Char('a'),
            Instruction::Commit(1),
            Instruction::Fail,
            Instruction::Return,
        ],
    };

    let mut vm = VM::new(program);
    let result = vm.run(&input);

    assert!(result.is_ok());
    assert!(vm.cursor.is_ok());
    assert_eq!(0, vm.cursor.unwrap());
    assert_eq!(0, vm.ffp);
}

#[test]
fn not_2() {
    let input = "foo".to_string();
    // G <- !'f'
    let program = Program {
        names: vec![],
        code: vec![
            Instruction::Call(2, 0),
            Instruction::Halt,
            Instruction::Choice(4),
            Instruction::Char('f'),
            Instruction::Commit(1),
            Instruction::Fail,
            Instruction::Return,
        ],
    };

    let mut vm = VM::new(program);
    let result = vm.run(&input);

    assert!(result.is_err());
    assert_eq!(Error::Fail, result.unwrap_err());
    assert!(vm.cursor.is_err());
    assert_eq!(1, vm.ffp);
}

#[test]
fn ord_1() {
    let input = "c".to_string();
    // G <- 'a' / 'b'
    let program = Program {
        names: vec![],
        code: vec![
            Instruction::Call(2, 0),
            Instruction::Halt,
            Instruction::Choice(3),
            Instruction::Char('a'),
            Instruction::Commit(2),
            Instruction::Char('b'),
            Instruction::Halt,
            Instruction::Return,
        ],
    };

    let mut vm = VM::new(program);
    let result = vm.run(&input);

    assert!(result.is_err());
    // the machine reports the last alternative's mismatch
    assert_eq!(
        Error::Matching("b".to_string(), "c".to_string()),
        result.unwrap_err()
    );
    assert_eq!(0, vm.ffp);
}

#[test]
fn ord_2() {
    let input = "a".to_string();
    // G <- 'a' / 'b'
    let program = Program {
        names: vec![],
        code: vec![
            Instruction::Call(2, 0),
            Instruction::Halt,
            Instruction::Choice(3),
            Instruction::Char('a'),
            Instruction::Commit(2),
            Instruction::Char('b'),
            Instruction::Halt,
            Instruction::Return,
        ],
    };

    let mut vm = VM::new(program);
    let result = vm.run(&input);

    assert!(result.is_ok());
    assert!(vm.cursor.is_ok());
    assert_eq!(1, vm.cursor.unwrap());
}

#[test]
fn ord_3() {
    let input = "b".to_string();
    // G <- 'a' / 'b'
    let program = Program {
        names: vec![],
        code: vec![
            Instruction::Call(2, 0),
            Instruction::Halt,
            Instruction::Choice(3),
            Instruction::Char('a'),
            Instruction::Commit(2),
            Instruction::Char('b'),
            Instruction::Halt,
            Instruction::Return,
        ],
    };

    let mut vm = VM::new(program);
    let result = vm.run(&input);

    assert!(result.is_ok());
    assert!(vm.cursor.is_ok());
    assert_eq!(1, vm.cursor.unwrap());
    assert_eq!(1, vm.ffp);
}

#[test]
fn rep_1() {
    let input = "aab".to_string();
    // G <- 'a'*
    let program = Program {
        names: vec![],
        code: vec![
            Instruction::Call(2, 0),
            Instruction::Halt,
            Instruction::Choice(3),
            Instruction::Char('a'),
            Instruction::CommitB(2),
            Instruction::Return,
        ],
    };

    let mut vm = VM::new(program);
    let result = vm.run(&input);

    assert!(result.is_ok());
    assert!(vm.cursor.is_ok());
    assert_eq!(2, vm.cursor.unwrap());
    assert_eq!(2, vm.ffp);
}

#[test]
fn rep_2() {
    let input = "b".to_string();
    // G <- 'a'*
    let program = Program {
        names: vec![],
        code: vec![
            Instruction::Call(2, 0),
            Instruction::Halt,
            Instruction::Choice(3),
            Instruction::Char('a'),
            Instruction::CommitB(2),
            Instruction::Return,
        ],
    };

    let mut vm = VM::new(program);
    let result = vm.run(&input);

    assert!(result.is_ok());
    assert!(vm.cursor.is_ok());
    assert_eq!(0, vm.cursor.unwrap());
    assert_eq!(0, vm.ffp);
}

#[test]
fn var_1() {
    let input = "1+1".to_string();
    // G <- D '+' D
    // D <- '0' / '1'
    let program = Program {
        names: vec![],
        code: vec![
            Instruction::Call(2, 0),
            Instruction::Jump(11),
            // G
            Instruction::Call(4, 0),
            Instruction::Char('+'),
            Instruction::Call(2, 0),
            Instruction::Return,
            // D
            Instruction::Choice(3),
            Instruction::Char('0'),
            Instruction::Commit(2),
            Instruction::Char('1'),
            Instruction::Return,
            Instruction::Halt,
        ],
    };

    let mut vm = VM::new(program);
    let result = vm.run(&input);

    assert!(result.is_ok());
    assert!(vm.cursor.is_ok());
    assert_eq!(3, vm.cursor.unwrap());
    assert_eq!(3, vm.ffp);
}

#[test]
fn var_2() {
    let input = "1+2".to_string();
    // G <- D '+' D
    // D <- '0' / '1'
    let program = Program {
        names: vec![],
        code: vec![
            Instruction::Call(2, 0),
            Instruction::Jump(11),
            // G
            Instruction::Call(4, 0),
            Instruction::Char('+'),
            Instruction::Call(2, 0),
            Instruction::Return,
            // D
            Instruction::Choice(3),
            Instruction::Char('0'),
            Instruction::Commit(2),
            Instruction::Char('1'),
            Instruction::Return,
            Instruction::Halt,
        ],
    };

    let mut vm = VM::new(program);
    let result = vm.run(&input);

    assert!(result.is_err());
    assert_eq!(
        Error::Matching("1".to_string(), "2".to_string()),
        result.unwrap_err()
    );
    assert_eq!(2, vm.ffp);
}

#[test]
fn lrvar_1() {
    let input = "n+n".to_string();
    // G <- G '+' 'n' / 'n'
    let program = Program {
        names: vec![],
        code: vec![
            Instruction::Call(2, 1),
            Instruction::Jump(9),
            Instruction::Choice(5),
            Instruction::CallB(1, 1),
            Instruction::Char('+'),
            Instruction::Char('n'),
            Instruction::Commit(2),
            Instruction::Char('n'),
            Instruction::Return,
            Instruction::Halt,
        ],
    };

    let mut vm = VM::new(program);
    let result = vm.run(&input);

    assert!(result.is_ok());
    assert!(vm.cursor.is_ok());
    assert_eq!(3, vm.cursor.unwrap());
}

#[test]
fn capture_1() {
    // G <- 'abacate' / 'abada'
    let program = Program {
        names: vec![(2, "G".to_string())],
        code: vec![
            // call to the first production followed by the end of the matching
            Instruction::Call(2, 0),
            Instruction::Halt,
            // body of the production G
            Instruction::Choice(16),
            Instruction::Char('a'),
            Instruction::Capture,
            Instruction::Char('b'),
            Instruction::Capture,
            Instruction::Char('a'),
            Instruction::Capture,
            Instruction::Char('c'),
            Instruction::Capture,
            Instruction::Char('a'),
            Instruction::Capture,
            Instruction::Char('t'),
            Instruction::Capture,
            Instruction::Char('e'),
            Instruction::Capture,
            Instruction::Commit(11),
            Instruction::Char('a'),
            Instruction::Capture,
            Instruction::Char('b'),
            Instruction::Capture,
            Instruction::Char('a'),
            Instruction::Capture,
            Instruction::Char('d'),
            Instruction::Capture,
            Instruction::Char('a'),
            Instruction::Capture,
            Instruction::Return,
        ],
    };

    let mut vm = VM::new(program);
    let input = "abada".to_string();
    let result = vm.run(&input);

    assert!(result.is_ok());
    assert!(vm.cursor.is_ok());
    assert_eq!(5, vm.cursor.unwrap());
    assert!(vm.accumulator.is_some());
    assert_eq!(
        Value::Node {
            name: "G".to_string(),
            children: vec![
                Value::Chr('a'),
                Value::Chr('b'),
                Value::Chr('a'),
                Value::Chr('d'),
                Value::Chr('a'),
            ]
        },
        vm.accumulator.unwrap()
    );
}

#[test]
fn capture_2() {
    // G <- D
    // D <- '0' / '1'
    let program = Program {
        names: vec![(2, "G".to_string()), (5, "D".to_string())],
        code: vec![
            Instruction::Call(2, 0),
            Instruction::Halt,
            // G
            Instruction::Call(3, 0),
            Instruction::Capture,
            Instruction::Return,
            // D
            Instruction::Choice(4),
            Instruction::Char('0'),
            Instruction::Capture,
            Instruction::Commit(3),
            Instruction::Char('1'),
            Instruction::Capture,
            Instruction::Return,
        ],
    };

    let mut vm = VM::new(program);
    let input = "1".to_string();
    let result = vm.run(&input);

    assert!(result.is_ok());
    assert!(vm.cursor.is_ok());
    assert_eq!(1, vm.cursor.unwrap());
    assert!(vm.accumulator.is_some());
    assert_eq!(
        Value::Node {
            name: "G".to_string(),
            children: vec![Value::Node {
                name: "D".to_string(),
                children: vec![Value::Chr('1')],
            }],
        },
        vm.accumulator.unwrap()
    );
}
