//! Evaluating a program tree against a sparse tape of bytes.

use crate::tokenizer::{
    body_len, instruction_of, lemma_trees_view_index, lemma_trees_view_len, parse_spec, trees_view,
    Instruction, Token, Tree, TreeView,
};
use std::collections::HashMap;
use vstd::prelude::*;

verus! {

broadcast use vstd::std_specs::hash::group_hash_axioms;

/// Why a run stopped before the end of its program.
#[derive(Debug, PartialEq, Eq, Copy, Clone)]
pub enum RunError {
    /// The cursor stood at the largest or smallest address and was asked to
    /// move past it.
    CursorOutOfRange,
    /// A loop pass was due and the budget of passes was spent.
    OutOfFuel,
}

/// A source of input bytes, read front to back.
pub struct Input {
    bytes: Vec<u8>,
    pos: usize,
}

impl View for Input {
    type V = Seq<u8>;

    /// The bytes not yet read.
    closed spec fn view(&self) -> Seq<u8> {
        if self.pos <= self.bytes@.len() {
            self.bytes@.skip(self.pos as int)
        } else {
            Seq::empty()
        }
    }
}

impl Input {
    /// A source that will hand out `bytes`, first to last.
    pub fn new(bytes: Vec<u8>) -> (input: Input)
        ensures
            input@ == bytes@,
    {
        proof {
            assert(bytes@.skip(0) =~= bytes@);
        }
        Input { bytes, pos: 0 }
    }

    /// Takes the next byte, or `None` at the end of the input.
    pub fn next(&mut self) -> (b: Option<u8>)
        ensures
            old(self)@.len() == 0 ==> b.is_none() && final(self)@ == old(self)@,
            old(self)@.len() > 0 ==> b == Some(old(self)@[0]) && final(self)@ == old(
                self,
            )@.drop_first(),
    {
        if self.pos < self.bytes.len() {
            let b = self.bytes[self.pos];
            proof {
                assert(self.bytes@.skip(self.pos as int).drop_first() =~= self.bytes@.skip(
                    self.pos + 1,
                ));
            }
            self.pos += 1;
            Some(b)
        } else {
            None
        }
    }

    /// How many bytes are still to be read.
    pub fn remaining(&self) -> (n: usize)
        ensures
            n == self@.len(),
    {
        if self.pos <= self.bytes.len() {
            self.bytes.len() - self.pos
        } else {
            0
        }
    }
}

/// The byte that the tape holds at `ptr`: an address never written reads 0.
pub open spec fn cell(mem: Map<isize, u8>, ptr: isize) -> u8 {
    if mem.contains_key(ptr) {
        mem[ptr]
    } else {
        0
    }
}

/// All that a run reads and changes, but its budget.
pub ghost struct State {
    /// The tape: the addresses written so far, with their bytes.
    pub mem: Map<isize, u8>,
    /// The cursor.
    pub ptr: isize,
    /// The input not yet read.
    pub input: Seq<u8>,
    /// The bytes written so far.
    pub output: Seq<u8>,
}

/// Where a run ended.
pub ghost struct Outcome {
    pub state: State,
    /// The loop passes still allowed.
    pub fuel: nat,
    /// `None` where the program ran to its end.
    pub error: Option<RunError>,
}

/// One more than `v`, and 0 after 255.
pub open spec fn wrapping_inc(v: u8) -> u8 {
    if v == 255 {
        0
    } else {
        (v + 1) as u8
    }
}

/// One less than `v`, and 255 before 0.
pub open spec fn wrapping_dec(v: u8) -> u8 {
    if v == 0 {
        255
    } else {
        (v - 1) as u8
    }
}

/// The state after one instruction, or `None` where the cursor cannot move.
///
/// Reading input at its end stores 0.
pub open spec fn step_spec(i: Instruction, s: State) -> Option<State> {
    match i {
        Instruction::IncrementPtr => if s.ptr < isize::MAX {
            Some(State { ptr: (s.ptr + 1) as isize, ..s })
        } else {
            None
        },
        Instruction::DecrementPtr => if s.ptr > isize::MIN {
            Some(State { ptr: (s.ptr - 1) as isize, ..s })
        } else {
            None
        },
        Instruction::Increment => Some(
            State { mem: s.mem.insert(s.ptr, wrapping_inc(cell(s.mem, s.ptr))), ..s },
        ),
        Instruction::Decrement => Some(
            State { mem: s.mem.insert(s.ptr, wrapping_dec(cell(s.mem, s.ptr))), ..s },
        ),
        Instruction::Output => Some(
            State {
                mem: s.mem.insert(s.ptr, cell(s.mem, s.ptr)),
                output: s.output.push(cell(s.mem, s.ptr)),
                ..s
            },
        ),
        Instruction::Input => if s.input.len() > 0 {
            Some(State { mem: s.mem.insert(s.ptr, s.input[0]), input: s.input.drop_first(), ..s })
        } else {
            Some(State { mem: s.mem.insert(s.ptr, 0), ..s })
        },
    }
}

/// The outcome of running `trees` from state `s` with `fuel` loop passes
/// allowed. A block is run as a loop: as long as the cell under the cursor
/// is not 0, one pass is taken from the budget and the body is run once. The
/// cell is looked at before the first pass and after each whole pass, never
/// in the middle of one.
///
/// The test that a pass left less fuel than there was is there for the
/// recursion to be well founded; [`lemma_fuel_never_grows`] shows that it
/// never fails.
pub open spec fn run_spec(trees: Seq<TreeView>, s: State, fuel: nat) -> Outcome
    decreases fuel, trees.len(),
{
    if trees.len() == 0 {
        Outcome { state: s, fuel, error: None }
    } else {
        match trees[0] {
            TreeView::Instruction(i) => match step_spec(i, s) {
                Some(next) => run_spec(trees.drop_first(), next, fuel),
                None => Outcome { state: s, fuel, error: Some(RunError::CursorOutOfRange) },
            },
            TreeView::Block(body) => if cell(s.mem, s.ptr) == 0 {
                run_spec(trees.drop_first(), s, fuel)
            } else if fuel == 0 {
                Outcome { state: s, fuel, error: Some(RunError::OutOfFuel) }
            } else {
                let pass = run_spec(body, s, (fuel - 1) as nat);
                if pass.error.is_some() || pass.fuel >= fuel {
                    pass
                } else {
                    run_spec(trees, pass.state, pass.fuel)
                }
            },
        }
    }
}

/// A run never ends with more fuel than it began with.
pub proof fn lemma_fuel_never_grows(trees: Seq<TreeView>, s: State, fuel: nat)
    ensures
        run_spec(trees, s, fuel).fuel <= fuel,
    decreases fuel, trees.len(),
{
    if trees.len() != 0 {
        match trees[0] {
            TreeView::Instruction(i) => match step_spec(i, s) {
                Some(next) => lemma_fuel_never_grows(trees.drop_first(), next, fuel),
                None => {},
            },
            TreeView::Block(body) => if cell(s.mem, s.ptr) == 0 {
                lemma_fuel_never_grows(trees.drop_first(), s, fuel);
            } else if fuel != 0 {
                let pass = run_spec(body, s, (fuel - 1) as nat);
                lemma_fuel_never_grows(body, s, (fuel - 1) as nat);
                if !(pass.error.is_some() || pass.fuel >= fuel) {
                    lemma_fuel_never_grows(trees, pass.state, pass.fuel);
                }
            },
        }
    }
}

/// A loop that is reached with 0 under the cursor is passed over: its body
/// is not run, nothing is read or written, and the tape, the cursor and the
/// budget stay as they are.
pub proof fn lemma_loop_not_entered_at_zero(body: Seq<TreeView>, s: State, fuel: nat)
    requires
        cell(s.mem, s.ptr) == 0,
    ensures
        run_spec(seq![TreeView::Block(body)], s, fuel) == (Outcome { state: s, fuel, error: None }),
{
    let program = seq![TreeView::Block(body)];
    assert(program.drop_first().len() == 0);
    assert(run_spec(program, s, fuel) == run_spec(program.drop_first(), s, fuel));
}

/// Instructions followed by a closing bracket are a loop body that the
/// bracket closes.
pub proof fn lemma_instructions_are_one_body(body: Seq<Token>)
    requires
        forall|i: int| 0 <= i < body.len() ==> instruction_of(body[i]).is_some(),
    ensures
        body_len(body.push(Token::JumpBack), 1) == body.len(),
    decreases body.len(),
{
    if body.len() != 0 {
        lemma_instructions_are_one_body(body.drop_first());
        assert(body.push(Token::JumpBack).drop_first() =~= body.drop_first().push(
            Token::JumpBack,
        ));
        assert(body.push(Token::JumpBack)[0] == body[0]);
        assert(instruction_of(body[0]).is_some());
    }
}

/// The program `[`, any instructions, `]` is one block of those
/// instructions, and started on a cell that holds 0 it does nothing: no
/// input is read, nothing is written, and the tape, the cursor and the
/// budget stay as they are.
pub proof fn lemma_bracketed_program_skipped_at_zero(body: Seq<Token>, s: State, fuel: nat)
    requires
        forall|i: int| 0 <= i < body.len() ==> instruction_of(body[i]).is_some(),
        cell(s.mem, s.ptr) == 0,
    ensures
        parse_spec(seq![Token::JumpFwd] + body + seq![Token::JumpBack]) == seq![
            TreeView::Block(parse_spec(body)),
        ],
        run_spec(parse_spec(seq![Token::JumpFwd] + body + seq![Token::JumpBack]), s, fuel) == (
        Outcome { state: s, fuel, error: None }),
{
    let tokens = seq![Token::JumpFwd] + body + seq![Token::JumpBack];
    let rest = tokens.drop_first();
    let block = TreeView::Block(parse_spec(body));
    lemma_instructions_are_one_body(body);
    assert(rest =~= body.push(Token::JumpBack));
    assert(rest.take(body.len() as int) =~= body);
    assert(rest.skip(rest.len() as int) =~= Seq::<Token>::empty());
    assert(seq![block] + parse_spec(Seq::<Token>::empty()) =~= seq![block]);
    lemma_loop_not_entered_at_zero(parse_spec(body), s, fuel);
}

/// A loop with an empty body on a cell that is not 0 never ends by itself:
/// whatever the budget, all of it is spent, nothing else changes, and the
/// run stops for want of fuel.
pub proof fn lemma_empty_loop_spends_all_fuel(s: State, fuel: nat)
    requires
        cell(s.mem, s.ptr) != 0,
    ensures
        run_spec(seq![TreeView::Block(Seq::empty())], s, fuel) == (Outcome {
            state: s,
            fuel: 0,
            error: Some(RunError::OutOfFuel),
        }),
    decreases fuel,
{
    let program = seq![TreeView::Block(Seq::empty())];
    assert(program[0] == TreeView::Block(Seq::empty()));
    if fuel != 0 {
        lemma_empty_loop_spends_all_fuel(s, (fuel - 1) as nat);
        let pass = run_spec(Seq::<TreeView>::empty(), s, (fuel - 1) as nat);
        assert(pass == (Outcome { state: s, fuel: (fuel - 1) as nat, error: None }));
        assert(run_spec(program, s, fuel) == run_spec(program, s, (fuel - 1) as nat));
    }
}

/// Incrementing wraps from 255 to 0, and decrementing from 0 to 255; a cell
/// never written counts as 0.
pub proof fn lemma_cells_wrap_around(s: State)
    ensures
        cell(s.mem, s.ptr) == 255 ==> cell(
            step_spec(Instruction::Increment, s).unwrap().mem,
            s.ptr,
        ) == 0,
        cell(s.mem, s.ptr) == 0 ==> cell(
            step_spec(Instruction::Decrement, s).unwrap().mem,
            s.ptr,
        ) == 255,
        !s.mem.contains_key(s.ptr) ==> cell(
            step_spec(Instruction::Decrement, s).unwrap().mem,
            s.ptr,
        ) == 255,
{
}

/// Reads the cell at `ptr` without changing the tape.
pub fn read_cell(mem: &HashMap<isize, u8>, ptr: isize) -> (v: u8)
    ensures
        v == cell(mem@, ptr),
{
    match mem.get(&ptr) {
        Some(v) => *v,
        None => 0,
    }
}

/// Runs one instruction. Moving the cursor past the end of the address
/// range is the one error, and leaves everything as it was.
pub fn run_instruction(
    i: Instruction,
    stdout: &mut Vec<u8>,
    stdin: &mut Input,
    mem: &mut HashMap<isize, u8>,
    ptr: &mut isize,
) -> (r: Result<(), RunError>)
    ensures
        ({
            let before = State {
                mem: old(mem)@,
                ptr: *old(ptr),
                input: old(stdin)@,
                output: old(stdout)@,
            };
            let after = State {
                mem: final(mem)@,
                ptr: *final(ptr),
                input: final(stdin)@,
                output: final(stdout)@,
            };
            match r {
                Ok(_) => step_spec(i, before) == Some(after),
                Err(e) => e == RunError::CursorOutOfRange && step_spec(i, before).is_none()
                    && after == before,
            }
        }),
{
    match i {
        Instruction::IncrementPtr => {
            if *ptr == isize::MAX {
                return Err(RunError::CursorOutOfRange);
            }
            *ptr += 1;
        },
        Instruction::DecrementPtr => {
            if *ptr == isize::MIN {
                return Err(RunError::CursorOutOfRange);
            }
            *ptr -= 1;
        },
        Instruction::Increment => {
            let v = read_cell(mem, *ptr);
            let w: u8 = if v == 255 { 0 } else { v + 1 };
            mem.insert(*ptr, w);
        },
        Instruction::Decrement => {
            let v = read_cell(mem, *ptr);
            let w: u8 = if v == 0 { 255 } else { v - 1 };
            mem.insert(*ptr, w);
        },
        Instruction::Output => {
            let v = read_cell(mem, *ptr);
            mem.insert(*ptr, v);
            stdout.push(v);
        },
        Instruction::Input => {
            let b: u8 = match stdin.next() {
                Some(b) => b,
                None => 0,
            };
            mem.insert(*ptr, b);
        },
    }
    Ok(())
}

/// Runs `tokens` in order on the given tape and cursor, reading from
/// `stdin` and appending what the program writes to `stdout`. Each loop pass
/// takes one from `fuel`; the run stops with an error where a pass is due
/// and none is left, or where the cursor cannot move. Whatever was done
/// before an error stays done.
pub fn run(
    tokens: &[Tree],
    stdout: &mut Vec<u8>,
    stdin: &mut Input,
    mem: &mut HashMap<isize, u8>,
    ptr: &mut isize,
    fuel: &mut u64,
) -> (r: Result<(), RunError>)
    ensures
        run_spec(
            trees_view(tokens@),
            (State { mem: old(mem)@, ptr: *old(ptr), input: old(stdin)@, output: old(stdout)@ }),
            *old(fuel) as nat,
        ) == (Outcome {
            state: State {
                mem: final(mem)@,
                ptr: *final(ptr),
                input: final(stdin)@,
                output: final(stdout)@,
            },
            fuel: *final(fuel) as nat,
            error: r.err(),
        }),
    decreases *old(fuel), tokens.len(),
{
    let ghost all = trees_view(tokens@);
    let ghost goal = run_spec(
        all,
        State { mem: mem@, ptr: *ptr, input: stdin@, output: stdout@ },
        *fuel as nat,
    );
    proof {
        lemma_trees_view_len(tokens@);
        assert(all.skip(0) =~= all);
    }
    let mut i: usize = 0;
    while i < tokens.len()
        invariant
            i <= tokens.len(),
            all == trees_view(tokens@),
            all.len() == tokens.len(),
            *fuel <= *old(fuel),
            goal == run_spec(
                all,
                State { mem: old(mem)@, ptr: *old(ptr), input: old(stdin)@, output: old(stdout)@ },
                *old(fuel) as nat,
            ),
            goal == run_spec(
                all.skip(i as int),
                State { mem: mem@, ptr: *ptr, input: stdin@, output: stdout@ },
                *fuel as nat,
            ),
        decreases tokens.len() - i,
    {
        proof {
            lemma_trees_view_index(tokens@, i as int);
            assert(all.skip(i as int).drop_first() =~= all.skip(i + 1));
        }
        match &tokens[i] {
            Tree::Instruction(op) => {
                let r = run_instruction(*op, stdout, stdin, mem, ptr);
                if r.is_err() {
                    return r;
                }
            },
            Tree::Block(tr) => {
                while read_cell(mem, *ptr) != 0
                    invariant
                        i < tokens.len(),
                        all == trees_view(tokens@),
                        all.len() == tokens.len(),
                        all[i as int] == TreeView::Block(trees_view(tr@)),
                        *fuel <= *old(fuel),
                        goal == run_spec(
                            all,
                            State {
                                mem: old(mem)@,
                                ptr: *old(ptr),
                                input: old(stdin)@,
                                output: old(stdout)@,
                            },
                            *old(fuel) as nat,
                        ),
                        goal == run_spec(
                            all.skip(i as int),
                            State { mem: mem@, ptr: *ptr, input: stdin@, output: stdout@ },
                            *fuel as nat,
                        ),
                    decreases *fuel,
                {
                    if *fuel == 0 {
                        return Err(RunError::OutOfFuel);
                    }
                    proof {
                        lemma_fuel_never_grows(
                            trees_view(tr@),
                            State { mem: mem@, ptr: *ptr, input: stdin@, output: stdout@ },
                            (*fuel - 1) as nat,
                        );
                    }
                    *fuel -= 1;
                    let r = run(tr.as_slice(), stdout, stdin, mem, ptr, fuel);
                    if r.is_err() {
                        return r;
                    }
                }
            },
        }
        i += 1;
    }
    Ok(())
}

/// Runs a program on an empty tape with the cursor at 0.
pub fn run_new(tokens: &[Tree], stdout: &mut Vec<u8>, stdin: &mut Input, fuel: u64) -> (r: Result<
    (),
    RunError,
>)
    ensures
        ({
            let end = run_spec(
                trees_view(tokens@),
                State {
                    mem: Map::empty(),
                    ptr: 0,
                    input: old(stdin)@,
                    output: old(stdout)@,
                },
                fuel as nat,
            );
            &&& end.error == r.err()
            &&& end.state.input == final(stdin)@
            &&& end.state.output == final(stdout)@
        }),
{
    let mut mem: HashMap<isize, u8> = HashMap::new();
    let mut ptr: isize = 0;
    let mut fuel = fuel;
    run(tokens, stdout, stdin, &mut mem, &mut ptr, &mut fuel)
}

} // verus!
