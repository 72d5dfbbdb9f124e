use langlang::vm::{Error, Instruction, Program, Value, VM};

// A matched character lands in the accumulator, and a following
// Capture attaches it to the node returned by the production.
#[test]
fn char_success_with_capture() {
    let program = Program {
        names: vec![],
        code: vec![
            Instruction::Call(2, 0),
            Instruction::Halt,
            Instruction::Char('a'),
            Instruction::Capture,
            Instruction::Return,
        ],
    };

    let mut vm = VM::new(program);
    let result = vm.run("a");

    assert!(result.is_ok());
    assert_eq!(1, vm.cursor.unwrap());
    assert!(vm.ffp >= 1);
    assert_eq!(
        Value::Node { name: "".to_string(), children: vec![Value::Chr('a')] },
        vm.accumulator.unwrap()
    );
}

// Without a Capture the returned node has no children, and an
// unnamed production yields the empty label.
#[test]
fn char_success_without_capture() {
    let program = Program {
        names: vec![],
        code: vec![
            Instruction::Call(2, 0),
            Instruction::Halt,
            Instruction::Char('a'),
            Instruction::Return,
        ],
    };

    let mut vm = VM::new(program);
    let result = vm.run("a");

    assert!(result.is_ok());
    assert_eq!(1, vm.cursor.unwrap());
    assert_eq!(
        Value::Node { name: "".to_string(), children: vec![] },
        vm.accumulator.unwrap()
    );
}

// Bounded left recursion: G <- G '+' 'n' / 'n' entered at precedence
// one grows its seed across the whole input, and the final return
// synthesizes the production's node.
#[test]
fn left_recursion_grows_to_whole_input() {
    let program = Program {
        names: vec![(2, "G".to_string())],
        code: vec![
            Instruction::Call(2, 1),
            Instruction::Jump(9),
            Instruction::Choice(5),
            Instruction::CallB(1, 1),
            Instruction::Char('+'),
            Instruction::Char('n'),
            Instruction::Commit(2),
            Instruction::Char('n'),
            Instruction::Return,
            Instruction::Halt,
        ],
    };

    let mut vm = VM::new(program);
    let result = vm.run("n+n+n");

    assert!(result.is_ok());
    assert_eq!(5, vm.cursor.unwrap());
    assert_eq!(5, vm.ffp);
    match vm.accumulator.unwrap() {
        Value::Node { name, children: _ } => assert_eq!("G".to_string(), name),
        other => panic!("expected a node, got {:?}", other),
    }
}

// A second left-recursive call at the same cursor is answered from
// the memo table and advances the cursor to the same position the
// first call reached.
#[test]
fn memo_hit_gives_same_advancement() {
    let program = Program {
        names: vec![],
        code: vec![
            Instruction::Call(2, 0),
            Instruction::Halt,
            // first a failing attempt, then a retry at the same cursor
            Instruction::Choice(3),
            Instruction::Call(4, 1),
            Instruction::Fail,
            Instruction::Call(2, 1),
            Instruction::Return,
            // G <- G '+' 'n' / 'n'
            Instruction::Choice(5),
            Instruction::CallB(1, 1),
            Instruction::Char('+'),
            Instruction::Char('n'),
            Instruction::Commit(2),
            Instruction::Char('n'),
            Instruction::Return,
        ],
    };

    let mut vm = VM::new(program);
    let result = vm.run("n+n");

    assert!(result.is_ok());
    assert_eq!(3, vm.cursor.unwrap());
}

// A program counter that runs past the code vector is a malformed
// program.
#[test]
fn empty_program_overflows() {
    let program = Program { names: vec![], code: vec![] };

    let mut vm = VM::new(program);
    let result = vm.run("abc");

    assert!(result.is_err());
    assert_eq!(Error::Overflow, result.unwrap_err());
}

// Backtrack purity: captures made in a failing branch are discarded,
// and only the retried branch's captures reach the node.  The first
// alternative captures two characters before failing.
#[test]
fn failed_branch_leaves_no_captures() {
    // G <- 'ax' / 'ab'
    let program = Program {
        names: vec![(2, "G".to_string())],
        code: vec![
            Instruction::Call(2, 0),
            Instruction::Halt,
            Instruction::Choice(6),
            Instruction::Char('a'),
            Instruction::Capture,
            Instruction::Char('x'),
            Instruction::Capture,
            Instruction::Commit(5),
            Instruction::Char('a'),
            Instruction::Capture,
            Instruction::Char('b'),
            Instruction::Capture,
            Instruction::Return,
        ],
    };

    let mut vm = VM::new(program);
    let result = vm.run("ab");

    assert!(result.is_ok());
    assert_eq!(2, vm.cursor.unwrap());
    assert_eq!(
        Value::Node {
            name: "G".to_string(),
            children: vec![Value::Chr('a'), Value::Chr('b')],
        },
        vm.accumulator.unwrap()
    );
}

// A successful match never leaves the input, and the farthest
// failure position is at least the final cursor.
#[test]
fn final_cursor_within_input() {
    let program = Program {
        names: vec![],
        code: vec![
            Instruction::Call(2, 0),
            Instruction::Halt,
            Instruction::Any,
            Instruction::Any,
            Instruction::Return,
        ],
    };

    let mut vm = VM::new(program);
    let input = "xyz".to_string();
    let result = vm.run(&input);

    assert!(result.is_ok());
    let cursor = vm.cursor.unwrap();
    assert!(cursor <= input.chars().count());
    assert!(vm.ffp >= cursor);
}

// A jump to an absolute address takes effect directly.
#[test]
fn jump_is_absolute() {
    let program = Program {
        names: vec![],
        code: vec![
            Instruction::Jump(2),
            Instruction::Fail,
            Instruction::Halt,
        ],
    };

    let mut vm = VM::new(program);
    let result = vm.run("");

    assert!(result.is_ok());
    assert_eq!(0, vm.cursor.unwrap());
}
