use rkf::instructions::Instructions;
use rkf::interpreter::{Error, Interpreter};

const STEPS: u64 = 10_000_000;

fn run_source(source: &[u8], input: &[u8]) -> (Interpreter, Result<Vec<u8>, Error>) {
    let mut interp = Interpreter::new();
    interp.load_program(source);
    let result = interp.execute_program(input, STEPS);
    (interp, result)
}

#[test]
fn new_engine_is_zeroed() {
    let interp = Interpreter::new();
    assert_eq!(interp.ram.len(), 65536);
    assert!(interp.ram.iter().all(|&c| c == 0));
    assert_eq!(interp.program.len(), 0);
    assert_eq!(interp.ptr, 0);
    assert_eq!(interp.pc, 0);
}

#[test]
fn loader_maps_each_symbol() {
    let mut interp = Interpreter::new();
    interp.load_program(b"><+-.,[]");
    assert_eq!(
        interp.program,
        vec![
            Instructions::IncrementPointer,
            Instructions::DecrementPointer,
            Instructions::IncrementByte,
            Instructions::DecrementByte,
            Instructions::WriteByte,
            Instructions::ReadByte,
            Instructions::JumpForward,
            Instructions::JumpBackward,
        ]
    );
}

#[test]
fn loader_discards_comments() {
    let mut interp = Interpreter::new();
    interp.load_program(b"a + b + c! \n\t");
    assert_eq!(
        interp.program,
        vec![Instructions::IncrementByte, Instructions::IncrementByte]
    );
}

#[test]
fn loader_appends_across_calls() {
    let mut interp = Interpreter::new();
    interp.load_program(b"+");
    interp.load_program(b"-");
    assert_eq!(
        interp.program,
        vec![Instructions::IncrementByte, Instructions::DecrementByte]
    );
}

#[test]
fn cell_increment_wraps_around_after_256() {
    // 5 increments set the cell, 256 more return it to the same value
    let mut source = vec![b'+'; 5];
    source.extend(vec![b'+'; 256]);
    let (interp, result) = run_source(&source, &[]);
    assert_eq!(result, Ok(vec![]));
    assert_eq!(interp.ram[0], 5);
}

#[test]
fn cell_decrement_wraps_around_after_256() {
    let mut source = vec![b'+'; 3];
    source.extend(vec![b'-'; 256]);
    let (interp, result) = run_source(&source, &[]);
    assert_eq!(result, Ok(vec![]));
    assert_eq!(interp.ram[0], 3);
}

#[test]
fn cell_decrement_from_zero_wraps_to_255() {
    let (interp, result) = run_source(b"-", &[]);
    assert_eq!(result, Ok(vec![]));
    assert_eq!(interp.ram[0], 255);
}

#[test]
fn pointer_forward_wraps_around_after_65536() {
    let mut source = vec![b'>'; 3];
    source.extend(vec![b'>'; 65536]);
    let (interp, result) = run_source(&source, &[]);
    assert_eq!(result, Ok(vec![]));
    assert_eq!(interp.ptr, 3);
}

#[test]
fn pointer_backward_wraps_around_after_65536() {
    let source = vec![b'<'; 65536];
    let (interp, result) = run_source(&source, &[]);
    assert_eq!(result, Ok(vec![]));
    assert_eq!(interp.ptr, 0);
}

#[test]
fn pointer_backward_from_zero_wraps_to_last_cell() {
    let (interp, result) = run_source(b"<", &[]);
    assert_eq!(result, Ok(vec![]));
    assert_eq!(interp.ptr, 65535);
}

#[test]
fn loop_table_is_symmetric() {
    let mut interp = Interpreter::new();
    interp.load_program(b"[[]][]");
    assert_eq!(interp.precompute_jumps(), Ok(()));
    let pairs = [(0, 3), (1, 2), (4, 5)];
    for (i, j) in pairs {
        assert_eq!(interp.jump_map[i], j);
        assert_eq!(interp.jump_map[j], i);
    }
}

#[test]
fn resolver_rejects_unmatched_loop_end() {
    let mut interp = Interpreter::new();
    interp.load_program(b"+]");
    assert_eq!(interp.precompute_jumps(), Err(Error::MalformedProgram));
}

#[test]
fn resolver_rejects_unclosed_loop_start() {
    let mut interp = Interpreter::new();
    interp.load_program(b"[+");
    assert_eq!(interp.precompute_jumps(), Err(Error::MalformedProgram));
}

#[test]
fn execute_rejects_malformed_program() {
    let (_, result) = run_source(b"]", &[]);
    assert_eq!(result, Err(Error::MalformedProgram));
}

#[test]
fn resolver_is_pure_across_runs() {
    let mut interp = Interpreter::new();
    interp.load_program(b"+[>[-]<]");
    assert_eq!(interp.precompute_jumps(), Ok(()));
    let first = interp.jump_map.clone();
    assert_eq!(interp.precompute_jumps(), Ok(()));
    assert_eq!(interp.jump_map, first);
}

#[test]
fn three_increments_output_three() {
    let (_, result) = run_source(b"+++.", &[]);
    assert_eq!(result, Ok(vec![3]));
}

#[test]
fn copy_loop_moves_cell_value() {
    let (interp, result) = run_source(b"+++++[>+<-]", &[]);
    assert_eq!(result, Ok(vec![]));
    assert_eq!(interp.ram[0], 0);
    assert_eq!(interp.ram[1], 5);
}

#[test]
fn input_byte_passes_through_to_output() {
    let (_, result) = run_source(b",.", &[0x41]);
    assert_eq!(result, Ok(vec![0x41]));
}

#[test]
fn empty_source_halts_immediately() {
    let (interp, result) = run_source(b"", &[]);
    assert_eq!(result, Ok(vec![]));
    assert_eq!(interp.pc, 0);
}

#[test]
fn comment_only_source_halts_with_no_output() {
    let (interp, result) = run_source(b"hello world\n", &[]);
    assert_eq!(result, Ok(vec![]));
    assert_eq!(interp.program.len(), 0);
}

#[test]
fn skipped_loop_is_not_entered() {
    // cell 0 is zero, so the whole loop body is jumped over
    let (_, result) = run_source(b"[+++.]", &[]);
    assert_eq!(result, Ok(vec![]));
}

#[test]
fn read_with_no_input_left_fails() {
    let (_, result) = run_source(b",", &[]);
    assert_eq!(result, Err(Error::InputExhausted));
}

#[test]
fn second_read_with_one_input_byte_fails() {
    let (_, result) = run_source(b",,", &[7]);
    assert_eq!(result, Err(Error::InputExhausted));
}

#[test]
fn endless_loop_hits_step_limit() {
    let mut interp = Interpreter::new();
    interp.load_program(b"+[]");
    let result = interp.execute_program(&[], 1000);
    assert_eq!(result, Err(Error::StepLimitReached));
}

#[test]
fn consecutive_outputs_keep_order() {
    let (_, result) = run_source(b"+.+.+.", &[]);
    assert_eq!(result, Ok(vec![1, 2, 3]));
}
