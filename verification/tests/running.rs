use bf_rs::interpreter::{read_cell, run, run_instruction, run_new, Input, RunError};
use bf_rs::tokenizer::{tokenize, Instruction, Tree};
use std::collections::HashMap;

fn program(source: &[u8]) -> Vec<Tree> {
    Tree::parse(&tokenize(source))
}

#[test]
fn hello() {
    let trees = program(
        b"++++++++[>++++[>++>+++>+++>+<<<<-]>+>+>->>+[<]<-]>>.>---.+++++++..+++.",
    );
    let mut out = Vec::new();
    let mut input = Input::new(Vec::new());
    assert_eq!(run_new(&trees, &mut out, &mut input, 1_000_000), Ok(()));
    assert_eq!(out, b"Hello".to_vec());
}

#[test]
fn echo_one_byte() {
    let trees = program(b",.");
    let mut out = Vec::new();
    let mut input = Input::new(vec![65]);
    assert_eq!(run_new(&trees, &mut out, &mut input, 0), Ok(()));
    assert_eq!(out, vec![65]);
    assert_eq!(input.remaining(), 0);
}

#[test]
fn echo_takes_one_byte_only() {
    let trees = program(b",.");
    let mut out = Vec::new();
    let mut input = Input::new(vec![65, 66, 67]);
    assert_eq!(run_new(&trees, &mut out, &mut input, 0), Ok(()));
    assert_eq!(out, vec![65]);
    assert_eq!(input.remaining(), 2);
    assert_eq!(input.next(), Some(66));
}

#[test]
fn endless_loop_runs_out_of_fuel() {
    let trees = program(b"+[]");
    let mut out = Vec::new();
    let mut input = Input::new(Vec::new());
    let mut mem = HashMap::new();
    let mut ptr = 0;
    let mut fuel = 10_000;
    assert_eq!(
        run(&trees, &mut out, &mut input, &mut mem, &mut ptr, &mut fuel),
        Err(RunError::OutOfFuel)
    );
    assert_eq!(fuel, 0);
    assert_eq!(read_cell(&mem, 0), 1);
    assert_eq!(ptr, 0);
    assert!(out.is_empty());
}

#[test]
fn each_pass_costs_one() {
    let trees = program(b"+++[-]");
    let mut out = Vec::new();
    let mut input = Input::new(Vec::new());
    let mut mem = HashMap::new();
    let mut ptr = 0;
    let mut fuel = 5;
    assert_eq!(run(&trees, &mut out, &mut input, &mut mem, &mut ptr, &mut fuel), Ok(()));
    assert_eq!(fuel, 2);
    assert_eq!(read_cell(&mem, 0), 0);

    let mut mem = HashMap::new();
    let mut fuel = 2;
    assert_eq!(
        run(&trees, &mut out, &mut input, &mut mem, &mut ptr, &mut fuel),
        Err(RunError::OutOfFuel)
    );
    assert_eq!(fuel, 0);
    assert_eq!(read_cell(&mem, 0), 1);
}

#[test]
fn nested_passes_share_the_budget() {
    // two outer passes, each with three inner passes
    let trees = program(b"++[>+++[-]<-]");
    let mut out = Vec::new();
    let mut input = Input::new(Vec::new());
    let mut mem = HashMap::new();
    let mut ptr = 0;
    let mut fuel = 8;
    assert_eq!(run(&trees, &mut out, &mut input, &mut mem, &mut ptr, &mut fuel), Ok(()));
    assert_eq!(fuel, 0);

    let mut mem = HashMap::new();
    let mut fuel = 7;
    assert_eq!(
        run(&trees, &mut out, &mut input, &mut mem, &mut ptr, &mut fuel),
        Err(RunError::OutOfFuel)
    );
}

#[test]
fn loop_on_zero_is_not_entered() {
    let trees = program(b"[+>.,-<]");
    let mut out = Vec::new();
    let mut input = Input::new(vec![9]);
    let mut mem = HashMap::new();
    mem.insert(3, 7);
    let mut ptr = 5;
    let mut fuel = 4;
    assert_eq!(run(&trees, &mut out, &mut input, &mut mem, &mut ptr, &mut fuel), Ok(()));
    assert!(out.is_empty());
    assert_eq!(input.remaining(), 1);
    assert_eq!(ptr, 5);
    assert_eq!(fuel, 4);
    let mut expected = HashMap::new();
    expected.insert(3, 7);
    assert_eq!(mem, expected);
}

#[test]
fn loop_on_zero_needs_no_fuel() {
    let trees = program(b"[+]");
    let mut out = Vec::new();
    let mut input = Input::new(Vec::new());
    assert_eq!(run_new(&trees, &mut out, &mut input, 0), Ok(()));
    assert!(out.is_empty());
}

#[test]
fn pass_is_finished_after_the_cell_reaches_zero() {
    // the cell reaches 0 in the middle of the pass; the rest of the pass still runs
    let trees = program(b"+[->+.<]");
    let mut out = Vec::new();
    let mut input = Input::new(Vec::new());
    assert_eq!(run_new(&trees, &mut out, &mut input, 5), Ok(()));
    assert_eq!(out, vec![1]);
}

#[test]
fn increment_wraps_at_255() {
    let mut out = Vec::new();
    let mut input = Input::new(Vec::new());
    let mut mem = HashMap::new();
    mem.insert(0, 255);
    let mut ptr = 0;
    assert_eq!(
        run_instruction(Instruction::Increment, &mut out, &mut input, &mut mem, &mut ptr),
        Ok(())
    );
    assert_eq!(read_cell(&mem, 0), 0);
    assert_eq!(mem.get(&0), Some(&0));
}

#[test]
fn decrement_wraps_at_zero() {
    let mut out = Vec::new();
    let mut input = Input::new(Vec::new());
    let mut mem = HashMap::new();
    mem.insert(0, 0);
    let mut ptr = 0;
    assert_eq!(
        run_instruction(Instruction::Decrement, &mut out, &mut input, &mut mem, &mut ptr),
        Ok(())
    );
    assert_eq!(read_cell(&mem, 0), 255);
}

#[test]
fn decrement_of_untouched_cell_stores_255() {
    let mut out = Vec::new();
    let mut input = Input::new(Vec::new());
    let mut mem = HashMap::new();
    let mut ptr = -4;
    assert_eq!(
        run_instruction(Instruction::Decrement, &mut out, &mut input, &mut mem, &mut ptr),
        Ok(())
    );
    assert_eq!(mem.get(&-4), Some(&255));
    assert_eq!(mem.len(), 1);
}

#[test]
fn increment_of_untouched_cell_stores_1() {
    let mut out = Vec::new();
    let mut input = Input::new(Vec::new());
    let mut mem = HashMap::new();
    let mut ptr = 12;
    assert_eq!(
        run_instruction(Instruction::Increment, &mut out, &mut input, &mut mem, &mut ptr),
        Ok(())
    );
    assert_eq!(mem.get(&12), Some(&1));
    assert_eq!(ptr, 12);
}

#[test]
fn wraparound_through_a_program() {
    let mut source = vec![b'+'; 256];
    source.push(b'.');
    source.push(b'-');
    source.push(b'.');
    let mut out = Vec::new();
    let mut input = Input::new(Vec::new());
    assert_eq!(run_new(&program(&source), &mut out, &mut input, 0), Ok(()));
    assert_eq!(out, vec![0, 255]);
}

#[test]
fn cursor_moves_both_ways() {
    let mut out = Vec::new();
    let mut input = Input::new(Vec::new());
    let mut mem = HashMap::new();
    let mut ptr = 0;
    assert_eq!(
        run_instruction(Instruction::DecrementPtr, &mut out, &mut input, &mut mem, &mut ptr),
        Ok(())
    );
    assert_eq!(ptr, -1);
    assert_eq!(
        run_instruction(Instruction::IncrementPtr, &mut out, &mut input, &mut mem, &mut ptr),
        Ok(())
    );
    assert_eq!(
        run_instruction(Instruction::IncrementPtr, &mut out, &mut input, &mut mem, &mut ptr),
        Ok(())
    );
    assert_eq!(ptr, 1);
    assert!(mem.is_empty());
}

#[test]
fn cursor_cannot_leave_the_address_range() {
    let mut out = Vec::new();
    let mut input = Input::new(Vec::new());
    let mut mem = HashMap::new();
    let mut ptr = isize::MAX;
    assert_eq!(
        run_instruction(Instruction::IncrementPtr, &mut out, &mut input, &mut mem, &mut ptr),
        Err(RunError::CursorOutOfRange)
    );
    assert_eq!(ptr, isize::MAX);
    let mut ptr = isize::MIN;
    assert_eq!(
        run_instruction(Instruction::DecrementPtr, &mut out, &mut input, &mut mem, &mut ptr),
        Err(RunError::CursorOutOfRange)
    );
    assert_eq!(ptr, isize::MIN);
    assert!(mem.is_empty());
}

#[test]
fn run_stops_at_the_first_error() {
    let trees = program(b"+.>+.");
    let mut out = Vec::new();
    let mut input = Input::new(Vec::new());
    let mut mem = HashMap::new();
    let mut ptr = isize::MAX;
    let mut fuel = 3;
    assert_eq!(
        run(&trees, &mut out, &mut input, &mut mem, &mut ptr, &mut fuel),
        Err(RunError::CursorOutOfRange)
    );
    assert_eq!(out, vec![1]);
    assert_eq!(ptr, isize::MAX);
    assert_eq!(fuel, 3);
}

#[test]
fn output_writes_the_cell_and_keeps_it() {
    let mut out = vec![1, 2];
    let mut input = Input::new(Vec::new());
    let mut mem = HashMap::new();
    mem.insert(2, 77);
    let mut ptr = 2;
    assert_eq!(
        run_instruction(Instruction::Output, &mut out, &mut input, &mut mem, &mut ptr),
        Ok(())
    );
    assert_eq!(out, vec![1, 2, 77]);
    assert_eq!(mem.get(&2), Some(&77));
}

#[test]
fn output_of_untouched_cell_writes_zero() {
    let mut out = Vec::new();
    let mut input = Input::new(Vec::new());
    let mut mem = HashMap::new();
    let mut ptr = 8;
    assert_eq!(
        run_instruction(Instruction::Output, &mut out, &mut input, &mut mem, &mut ptr),
        Ok(())
    );
    assert_eq!(out, vec![0]);
    assert_eq!(mem.get(&8), Some(&0));
}

#[test]
fn input_overwrites_the_cell() {
    let mut out = Vec::new();
    let mut input = Input::new(vec![33, 44]);
    let mut mem = HashMap::new();
    mem.insert(0, 200);
    let mut ptr = 0;
    assert_eq!(
        run_instruction(Instruction::Input, &mut out, &mut input, &mut mem, &mut ptr),
        Ok(())
    );
    assert_eq!(mem.get(&0), Some(&33));
    assert_eq!(input.remaining(), 1);
    assert!(out.is_empty());
}

#[test]
fn input_at_the_end_stores_zero() {
    let mut out = Vec::new();
    let mut input = Input::new(Vec::new());
    let mut mem = HashMap::new();
    mem.insert(0, 200);
    let mut ptr = 0;
    assert_eq!(
        run_instruction(Instruction::Input, &mut out, &mut input, &mut mem, &mut ptr),
        Ok(())
    );
    assert_eq!(mem.get(&0), Some(&0));
    assert_eq!(input.remaining(), 0);
}

#[test]
fn input_source_hands_out_bytes_in_order() {
    let mut input = Input::new(vec![1, 2, 3]);
    assert_eq!(input.remaining(), 3);
    assert_eq!(input.next(), Some(1));
    assert_eq!(input.next(), Some(2));
    assert_eq!(input.remaining(), 1);
    assert_eq!(input.next(), Some(3));
    assert_eq!(input.next(), None);
    assert_eq!(input.next(), None);
    assert_eq!(input.remaining(), 0);
}

#[test]
fn read_cell_defaults_to_zero() {
    let mut mem = HashMap::new();
    assert_eq!(read_cell(&mem, 0), 0);
    assert_eq!(read_cell(&mem, -100), 0);
    mem.insert(-100, 5);
    assert_eq!(read_cell(&mem, -100), 5);
    assert_eq!(mem.len(), 1);
}

#[test]
fn copy_input_until_zero() {
    let trees = program(b",[.,]");
    let mut out = Vec::new();
    let mut input = Input::new(b"abc".to_vec());
    assert_eq!(run_new(&trees, &mut out, &mut input, 100), Ok(()));
    assert_eq!(out, b"abc".to_vec());
}

#[test]
fn run_continues_on_given_tape() {
    let trees = program(b"[->+<]>.");
    let mut out = Vec::new();
    let mut input = Input::new(Vec::new());
    let mut mem = HashMap::new();
    mem.insert(0, 3);
    mem.insert(1, 4);
    let mut ptr = 0;
    let mut fuel = 3;
    assert_eq!(run(&trees, &mut out, &mut input, &mut mem, &mut ptr, &mut fuel), Ok(()));
    assert_eq!(out, vec![7]);
    assert_eq!(ptr, 1);
    assert_eq!(fuel, 0);
    assert_eq!(read_cell(&mem, 0), 0);
}
