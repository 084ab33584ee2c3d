use bf::compiler::compile;
use bf::instruction::Instruction;
use bf::machine::{execute, Machine, Progress, RuntimeError, TAPE_LEN};

#[test]
fn fresh_machine_is_zeroed() {
    let machine = Machine::new();
    assert_eq!(machine.pointer(), 0);
    assert_eq!(machine.counter(), 0);
    assert_eq!(machine.cell(), 0);
    assert!(machine.output().is_empty());
    assert_eq!(TAPE_LEN, 30_000);
    assert_eq!(machine.tape().len(), TAPE_LEN);
    assert!(machine.tape().iter().all(|&cell| cell == 0));
}

#[test]
fn tape_shows_what_was_stored() {
    let code = compile("+++>>--<+").unwrap();
    let mut machine = Machine::new();
    assert_eq!(machine.run(&code, 100), Ok(Progress::Halted));
    assert_eq!(machine.pointer(), 1);
    assert_eq!(&machine.tape()[..4], &[3, 1, 254, 0]);
    assert_eq!(machine.tape().len(), TAPE_LEN);
}

#[test]
fn increment_wraps_from_255_to_0() {
    let code = vec![Instruction::Increment(255), Instruction::Increment(1)];
    let mut machine = Machine::new();
    assert_eq!(machine.step(&code), Ok(()));
    assert_eq!(machine.cell(), 255);
    assert_eq!(machine.step(&code), Ok(()));
    assert_eq!(machine.cell(), 0);
    assert_eq!(machine.counter(), 2);
}

#[test]
fn decrement_wraps_from_0_to_255() {
    let code = vec![Instruction::Decrement(1)];
    let mut machine = Machine::new();
    assert_eq!(machine.step(&code), Ok(()));
    assert_eq!(machine.cell(), 255);
}

#[test]
fn large_operands_wrap_modulo_256() {
    let code = vec![
        Instruction::Increment(300),
        Instruction::WriteOutput(1),
        Instruction::Decrement(600),
        Instruction::WriteOutput(1),
        Instruction::Increment(256),
        Instruction::WriteOutput(1),
        Instruction::Decrement(usize::MAX),
        Instruction::WriteOutput(1),
    ];
    let execution = execute(&code, 100);
    assert_eq!(execution.result, Ok(Progress::Halted));
    let after_max = (212u8).wrapping_sub((usize::MAX % 256) as u8);
    assert_eq!(execution.output, vec![44, 212, 212, after_max]);
}

#[test]
fn move_left_at_the_first_cell_underflows() {
    let code = vec![Instruction::MoveLeft(1)];
    let mut machine = Machine::new();
    assert_eq!(machine.step(&code), Err(RuntimeError::PointerUnderflow));
    assert_eq!(machine.pointer(), 0);
    assert_eq!(machine.counter(), 0);
}

#[test]
fn move_left_further_than_the_pointer_underflows() {
    let code = vec![Instruction::MoveRight(3), Instruction::MoveLeft(4)];
    let mut machine = Machine::new();
    assert_eq!(machine.run(&code, 10), Err(RuntimeError::PointerUnderflow));
    assert_eq!(machine.pointer(), 3);
    assert_eq!(machine.counter(), 1);
}

#[test]
fn move_left_to_the_first_cell_is_fine() {
    let code = vec![Instruction::MoveRight(3), Instruction::MoveLeft(3)];
    let mut machine = Machine::new();
    assert_eq!(machine.run(&code, 10), Ok(Progress::Halted));
    assert_eq!(machine.pointer(), 0);
}

#[test]
fn move_right_at_the_last_cell_overflows() {
    let code = vec![Instruction::MoveRight(29_999), Instruction::MoveRight(1)];
    let mut machine = Machine::new();
    assert_eq!(machine.step(&code), Ok(()));
    assert_eq!(machine.pointer(), 29_999);
    assert_eq!(machine.step(&code), Err(RuntimeError::PointerOverflow));
    assert_eq!(machine.pointer(), 29_999);
    assert_eq!(machine.counter(), 1);
}

#[test]
fn move_right_by_the_tape_length_overflows() {
    assert_eq!(
        execute(&[Instruction::MoveRight(30_000)], 1).result,
        Err(RuntimeError::PointerOverflow)
    );
    assert_eq!(
        execute(&[Instruction::MoveRight(usize::MAX)], 1).result,
        Err(RuntimeError::PointerOverflow)
    );
    assert_eq!(
        execute(&[Instruction::MoveRight(1), Instruction::MoveRight(usize::MAX)], 2).result,
        Err(RuntimeError::PointerOverflow)
    );
}

#[test]
fn read_input_is_unimplemented() {
    let code = vec![Instruction::Increment(1), Instruction::ReadInput];
    let mut machine = Machine::new();
    assert_eq!(machine.run(&code, 10), Err(RuntimeError::UnimplementedInput));
    assert_eq!(machine.cell(), 1);
    assert_eq!(machine.counter(), 1);
}

#[test]
fn write_output_repeats_the_cell() {
    let code = vec![Instruction::Increment(65), Instruction::WriteOutput(3)];
    let execution = execute(&code, 10);
    assert_eq!(execution.result, Ok(Progress::Halted));
    assert_eq!(execution.output, vec![65, 65, 65]);
}

#[test]
fn write_output_covers_every_byte_value() {
    let code = vec![
        Instruction::WriteOutput(1),
        Instruction::Decrement(1),
        Instruction::WriteOutput(1),
        Instruction::Decrement(55),
        Instruction::WriteOutput(1),
    ];
    let execution = execute(&code, 10);
    assert_eq!(execution.output, vec![0, 255, 200]);
}

#[test]
fn write_output_of_zero_times_emits_nothing() {
    let execution = execute(&[Instruction::WriteOutput(0)], 10);
    assert_eq!(execution.result, Ok(Progress::Halted));
    assert!(execution.output.is_empty());
}

#[test]
fn jump_if_zero_skips_on_zero() {
    let code = vec![
        Instruction::JumpIfZero(3),
        Instruction::Increment(1),
        Instruction::JumpIfNonZero(1),
    ];
    let mut machine = Machine::new();
    assert_eq!(machine.step(&code), Ok(()));
    assert_eq!(machine.counter(), 3);
    assert_eq!(machine.cell(), 0);
    assert_eq!(machine.run(&code, 10), Ok(Progress::Halted));
}

#[test]
fn jump_if_zero_falls_through_on_nonzero() {
    let code = vec![
        Instruction::Increment(2),
        Instruction::JumpIfZero(4),
        Instruction::Decrement(1),
        Instruction::JumpIfNonZero(2),
    ];
    let mut machine = Machine::new();
    assert_eq!(machine.run(&code, 2), Ok(Progress::Suspended));
    assert_eq!(machine.counter(), 2);
    assert_eq!(machine.run(&code, 2), Ok(Progress::Suspended));
    assert_eq!(machine.counter(), 2);
    assert_eq!(machine.cell(), 1);
    assert_eq!(machine.run(&code, 2), Ok(Progress::Halted));
    assert_eq!(machine.counter(), 4);
    assert_eq!(machine.cell(), 0);
}

#[test]
fn jump_past_the_end_halts() {
    let code = vec![Instruction::JumpIfZero(17), Instruction::ReadInput];
    let mut machine = Machine::new();
    assert_eq!(machine.run(&code, 5), Ok(Progress::Halted));
    assert_eq!(machine.counter(), 17);
}

#[test]
fn step_on_a_halted_machine_changes_nothing() {
    let code = vec![Instruction::Increment(1)];
    let mut machine = Machine::new();
    assert_eq!(machine.step(&code), Ok(()));
    assert_eq!(machine.step(&code), Ok(()));
    assert_eq!(machine.counter(), 1);
    assert_eq!(machine.cell(), 1);
}

#[test]
fn endless_loop_is_suspended_when_the_budget_is_spent() {
    let code = compile("+[]").unwrap();
    let mut machine = Machine::new();
    assert_eq!(machine.run(&code, 1_000), Ok(Progress::Suspended));
    assert_eq!(machine.run(&code, 1_000), Ok(Progress::Suspended));
    assert_eq!(machine.cell(), 1);
}

#[test]
fn zero_budget_runs_nothing() {
    let code = vec![Instruction::Increment(1)];
    let mut machine = Machine::new();
    assert_eq!(machine.run(&code, 0), Ok(Progress::Suspended));
    assert_eq!(machine.counter(), 0);
    assert_eq!(machine.cell(), 0);
    let empty: Vec<Instruction> = vec![];
    assert_eq!(machine.run(&empty, 0), Ok(Progress::Halted));
}

#[test]
fn run_in_slices_equals_one_run() {
    let code = compile("++++++++[>++++++++<-]>+.+.+.").unwrap();
    let whole = execute(&code, 10_000);
    assert_eq!(whole.result, Ok(Progress::Halted));
    assert_eq!(whole.output, vec![65, 66, 67]);

    let mut machine = Machine::new();
    let mut output = Vec::new();
    let mut rounds = 0;
    loop {
        let progress = machine.run(&code, 7).unwrap();
        output.extend(machine.take_output());
        rounds += 1;
        if progress == Progress::Halted {
            break;
        }
    }
    assert!(rounds > 1);
    assert_eq!(output, whole.output);
}

#[test]
fn take_output_empties_the_record() {
    let code = vec![Instruction::Increment(7), Instruction::WriteOutput(2)];
    let mut machine = Machine::new();
    assert_eq!(machine.run(&code, 10), Ok(Progress::Halted));
    assert_eq!(machine.output(), &vec![7, 7]);
    assert_eq!(machine.take_output(), vec![7, 7]);
    assert!(machine.output().is_empty());
    assert_eq!(machine.take_output(), Vec::<u8>::new());
    assert_eq!(machine.cell(), 7);
    assert_eq!(machine.counter(), 2);
}

#[test]
fn output_before_a_failure_is_kept() {
    let code = compile("+++.<").unwrap();
    let execution = execute(&code, 100);
    assert_eq!(execution.result, Err(RuntimeError::PointerUnderflow));
    assert_eq!(execution.output, vec![3]);
}

#[test]
fn compacted_and_single_steps_agree() {
    let compacted = vec![
        Instruction::Increment(5),
        Instruction::MoveRight(4),
        Instruction::Decrement(3),
        Instruction::WriteOutput(2),
        Instruction::MoveLeft(4),
        Instruction::WriteOutput(1),
    ];
    let mut single = Vec::new();
    for instruction in &compacted {
        let (unit, count) = match *instruction {
            Instruction::Increment(n) => (Instruction::Increment(1), n),
            Instruction::Decrement(n) => (Instruction::Decrement(1), n),
            Instruction::MoveLeft(n) => (Instruction::MoveLeft(1), n),
            Instruction::MoveRight(n) => (Instruction::MoveRight(1), n),
            Instruction::WriteOutput(n) => (Instruction::WriteOutput(1), n),
            other => (other, 1),
        };
        for _ in 0..count {
            single.push(unit);
        }
    }
    assert_eq!(single.len(), 19);
    let mut a = Machine::new();
    let mut b = Machine::new();
    assert_eq!(a.run(&compacted, 100), Ok(Progress::Halted));
    assert_eq!(b.run(&single, 100), Ok(Progress::Halted));
    assert_eq!(a.output(), b.output());
    assert_eq!(a.output(), &vec![253, 253, 5]);
    assert_eq!(a.pointer(), b.pointer());
    assert_eq!(a.cell(), b.cell());
}

#[test]
fn compacted_and_single_steps_fail_alike() {
    let compacted = vec![Instruction::MoveRight(2), Instruction::MoveLeft(3)];
    let single = vec![
        Instruction::MoveRight(1),
        Instruction::MoveRight(1),
        Instruction::MoveLeft(1),
        Instruction::MoveLeft(1),
        Instruction::MoveLeft(1),
    ];
    assert_eq!(execute(&compacted, 100).result, Err(RuntimeError::PointerUnderflow));
    assert_eq!(execute(&single, 100).result, Err(RuntimeError::PointerUnderflow));
}

#[test]
fn classic_program_emits_one_byte() {
    let code = compile("++++++++[>++++[>++>+++>+++>+<<<<-]>+>+>->>+[<]<-]>>.").unwrap();
    let execution = execute(&code, 1_000_000);
    assert_eq!(execution.result, Ok(Progress::Halted));
    assert_eq!(execution.output.len(), 1);
    assert_eq!(execution.output, vec![72]);
}

#[test]
fn greeting_program_runs_to_the_end() {
    let source = "++++++++[>++++[>++>+++>+++>+<<<<-]>+>+>->>+[<]<-]>>.>---.+++++++..+++.\
                  >>.<-.<.+++.------.--------.>>+.>++.";
    let code = compile(source).unwrap();
    let execution = execute(&code, 1_000_000);
    assert_eq!(execution.result, Ok(Progress::Halted));
    assert_eq!(execution.output, b"Hello World!\n".to_vec());
}

#[test]
fn commentary_halts_at_once_without_output() {
    let code = compile("nothing to do here\n").unwrap();
    assert!(code.is_empty());
    let execution = execute(&code, 0);
    assert_eq!(execution.result, Ok(Progress::Halted));
    assert!(execution.output.is_empty());
    let execution = execute(&code, 1_000);
    assert_eq!(execution.result, Ok(Progress::Halted));
    assert!(execution.output.is_empty());
}

#[test]
fn runtime_error_messages() {
    assert_eq!(RuntimeError::PointerUnderflow.message(), "Memory underflow");
    assert_eq!(RuntimeError::PointerOverflow.message(), "Memory overflow");
    assert_eq!(RuntimeError::UnimplementedInput.message(), "Input is not implemented");
}
