//! The evaluator as a machine that is advanced one step at a time, for a
//! caller that does the reading and writing between the steps.

use crate::interpreter::{
    cell, lemma_fuel_never_grows, read_cell, run_instruction, run_spec, step_spec, Input, Outcome,
    RunError, State,
};
use crate::tokenizer::{
    lemma_trees_view_index, lemma_trees_view_len, trees_view, Instruction, Tree, TreeView,
};
use std::collections::HashMap;
use vstd::prelude::*;

verus! {

broadcast use vstd::std_specs::hash::group_hash_axioms;

/// A machine between two steps: what is still to be run, innermost loop
/// body last, and the state it will be run on.
pub ghost struct Config {
    /// For each sequence entered and not yet left, the trees still to run.
    /// Every entry but the last begins with the block whose body is the
    /// entry behind it.
    pub stack: Seq<Seq<TreeView>>,
    pub state: State,
    pub fuel: nat,
}

/// The outcome to which a machine in configuration `c` will come: the
/// innermost sequence is run to its end, then the one around it, which
/// begins by testing its loop again, and so on outwards.
pub open spec fn resume_spec(c: Config) -> Outcome
    decreases c.stack.len(),
{
    if c.stack.len() == 0 {
        Outcome { state: c.state, fuel: c.fuel, error: None }
    } else {
        let inner = run_spec(c.stack.last(), c.state, c.fuel);
        if inner.error.is_some() {
            inner
        } else {
            resume_spec(Config { stack: c.stack.drop_last(), state: inner.state, fuel: inner.fuel })
        }
    }
}

/// The error on which a machine in configuration `c` stops at its next
/// step, if it does.
pub open spec fn stuck_spec(c: Config) -> Option<RunError> {
    if c.stack.len() == 0 || c.stack.last().len() == 0 {
        None
    } else {
        match c.stack.last()[0] {
            TreeView::Instruction(i) => if step_spec(i, c.state).is_none() {
                Some(RunError::CursorOutOfRange)
            } else {
                None
            },
            TreeView::Block(_) => if cell(c.state.mem, c.state.ptr) != 0 && c.fuel == 0 {
                Some(RunError::OutOfFuel)
            } else {
                None
            },
        }
    }
}

/// The configuration after one step. A sequence that is at its end is left;
/// an instruction is run; a block is entered, for one pass of fuel, where
/// the cell under the cursor is not 0, and passed over where it is. A
/// machine that is stuck, or has nothing left to run, stays as it is.
pub open spec fn advance_spec(c: Config) -> Config {
    if c.stack.len() == 0 || stuck_spec(c).is_some() {
        c
    } else {
        let top = c.stack.last();
        let below = c.stack.drop_last();
        if top.len() == 0 {
            Config { stack: below, ..c }
        } else {
            match top[0] {
                TreeView::Instruction(i) => Config {
                    stack: below.push(top.drop_first()),
                    state: step_spec(i, c.state).unwrap(),
                    ..c
                },
                TreeView::Block(body) => if cell(c.state.mem, c.state.ptr) == 0 {
                    Config { stack: below.push(top.drop_first()), ..c }
                } else {
                    Config { stack: c.stack.push(body), fuel: (c.fuel - 1) as nat, ..c }
                },
            }
        }
    }
}

/// A machine that has just been given a program will come to the outcome of
/// running that program.
pub proof fn lemma_resume_from_start(trees: Seq<TreeView>, s: State, fuel: nat)
    ensures
        resume_spec(Config { stack: seq![trees], state: s, fuel }) == run_spec(trees, s, fuel),
{
    let c = Config { stack: seq![trees], state: s, fuel };
    let inner = run_spec(trees, s, fuel);
    assert(c.stack.last() == trees);
    assert(c.stack.drop_last().len() == 0);
    if inner.error.is_none() {
        assert(resume_spec(c) == resume_spec(
            Config { stack: c.stack.drop_last(), state: inner.state, fuel: inner.fuel },
        ));
    }
}

/// A step changes nothing of the outcome to which the machine will come,
/// and a machine that is stuck has come to it: the state and the fuel as
/// they are, with the error.
pub proof fn lemma_advance_keeps_outcome(c: Config)
    ensures
        resume_spec(advance_spec(c)) == resume_spec(c),
        stuck_spec(c).is_some() ==> resume_spec(c) == (Outcome {
            state: c.state,
            fuel: c.fuel,
            error: stuck_spec(c),
        }),
{
    if c.stack.len() != 0 {
        let top = c.stack.last();
        let below = c.stack.drop_last();
        let next = advance_spec(c);
        if top.len() == 0 {
        } else if stuck_spec(c).is_none() {
            match top[0] {
                TreeView::Instruction(i) => {
                    assert(next.stack.last() == top.drop_first());
                    assert(next.stack.drop_last() =~= below);
                },
                TreeView::Block(body) => {
                    if cell(c.state.mem, c.state.ptr) == 0 {
                        assert(next.stack.last() == top.drop_first());
                        assert(next.stack.drop_last() =~= below);
                    } else {
                        let pass = run_spec(body, c.state, next.fuel);
                        lemma_fuel_never_grows(body, c.state, next.fuel);
                        assert(next.stack.last() == body);
                        assert(next.stack.drop_last() =~= c.stack);
                        if pass.error.is_none() {
                            let back = Config { stack: c.stack, state: pass.state, fuel: pass.fuel };
                            assert(resume_spec(next) == resume_spec(back));
                            assert(run_spec(top, c.state, c.fuel) == run_spec(
                                top,
                                pass.state,
                                pass.fuel,
                            ));
                        }
                    }
                },
            }
        }
    }
}

/// One sequence of trees that the machine is in, and how far it has come.
struct Frame<'a> {
    trees: &'a [Tree],
    next: usize,
}

/// What is left to run of one frame.
spec fn frame_rest(f: Frame) -> Seq<TreeView> {
    if f.next <= f.trees@.len() {
        trees_view(f.trees@).skip(f.next as int)
    } else {
        Seq::empty()
    }
}

/// What is left to run of each frame.
spec fn frames_view(frames: Seq<Frame>) -> Seq<Seq<TreeView>> {
    Seq::new(frames.len(), |k: int| frame_rest(frames[k]))
}

/// Where a machine stands in its program.
pub struct Control<'a> {
    frames: Vec<Frame<'a>>,
}

impl<'a> View for Control<'a> {
    type V = Seq<Seq<TreeView>>;

    /// What is still to be run, innermost last.
    closed spec fn view(&self) -> Seq<Seq<TreeView>> {
        frames_view(self.frames@)
    }
}

/// An evaluator that is advanced step by step. It owns the tape, the cursor
/// and the budget of loop passes; input and output are handed to each step.
pub struct Machine<'a> {
    pub control: Control<'a>,
    pub mem: HashMap<isize, u8>,
    pub ptr: isize,
    pub fuel: u64,
}

impl<'a> Machine<'a> {
    /// What is still to be run, innermost last.
    pub open spec fn stack(&self) -> Seq<Seq<TreeView>> {
        self.control@
    }

    /// The machine's configuration, with the given input and output.
    pub open spec fn config(&self, input: Seq<u8>, output: Seq<u8>) -> Config {
        Config {
            stack: self.stack(),
            state: State { mem: self.mem@, ptr: self.ptr, input, output },
            fuel: self.fuel as nat,
        }
    }

    /// A machine at the start of `program`, on an empty tape with the
    /// cursor at 0.
    pub fn new(program: &'a [Tree], fuel: u64) -> (m: Machine<'a>)
        ensures
            m.stack() == seq![trees_view(program@)],
            m.mem@ == Map::<isize, u8>::empty(),
            m.ptr == 0,
            m.fuel == fuel,
    {
        let mut frames: Vec<Frame<'a>> = Vec::new();
        let first = Frame { trees: program, next: 0 };
        proof {
            assert(frame_rest(first) =~= trees_view(program@));
        }
        frames.push(first);
        proof {
            assert(frames_view(frames@) =~= seq![trees_view(program@)]);
        }
        Machine { control: Control { frames }, mem: HashMap::new(), ptr: 0, fuel }
    }

    /// Whether anything is left to run.
    pub fn is_running(&self) -> (b: bool)
        ensures
            b == (self.stack().len() > 0),
    {
        self.control.frames.len() > 0
    }

    /// Whether the next step runs an input instruction.
    pub fn wants_input(&self) -> (b: bool)
        ensures
            b == (self.stack().len() > 0 && self.stack().last().len() > 0 && self.stack().last()[0]
                == TreeView::Instruction(Instruction::Input)),
    {
        if self.control.frames.len() == 0 {
            return false;
        }
        let f = &self.control.frames[self.control.frames.len() - 1];
        if f.next >= f.trees.len() {
            proof {
                lemma_trees_view_len(f.trees@);
            }
            return false;
        }
        proof {
            lemma_trees_view_index(f.trees@, f.next as int);
        }
        match &f.trees[f.next] {
            Tree::Instruction(Instruction::Input) => true,
            _ => false,
        }
    }

    /// Takes one step, as [`advance_spec`] says. An instruction reads from
    /// `stdin` and appends to `stdout` as in a run. On an error the step is
    /// not taken and nothing changes.
    pub fn step(&mut self, stdout: &mut Vec<u8>, stdin: &mut Input) -> (r: Result<(), RunError>)
        ensures
            final(self).config(final(stdin)@, final(stdout)@) == advance_spec(
                old(self).config(old(stdin)@, old(stdout)@),
            ),
            r.err() == stuck_spec(old(self).config(old(stdin)@, old(stdout)@)),
    {
        let ghost before = self.config(stdin@, stdout@);
        let ghost frames = self.control.frames@;
        let f = match self.control.frames.pop() {
            Some(f) => f,
            None => {
                return Ok(());
            },
        };
        let ghost below = frames_view(self.control.frames@);
        proof {
            assert(frames_view(frames).drop_last() =~= below);
            assert(frames_view(frames).last() == frame_rest(f));
            lemma_trees_view_len(f.trees@);
        }
        if f.next >= f.trees.len() {
            return Ok(());
        }
        proof {
            lemma_trees_view_index(f.trees@, f.next as int);
            assert(frame_rest(f).drop_first() =~= trees_view(f.trees@).skip(f.next + 1));
        }
        let trees: &'a [Tree] = f.trees;
        let after = Frame { trees, next: f.next + 1 };
        match &trees[f.next] {
            Tree::Instruction(op) => {
                let r = run_instruction(*op, stdout, stdin, &mut self.mem, &mut self.ptr);
                if r.is_err() {
                    self.control.frames.push(f);
                    proof {
                        assert(frames_view(self.control.frames@) =~= before.stack);
                    }
                    return r;
                }
                self.control.frames.push(after);
                proof {
                    assert(frames_view(self.control.frames@) =~= below.push(frame_rest(after)));
                }
            },
            Tree::Block(body) => {
                if read_cell(&self.mem, self.ptr) == 0 {
                    self.control.frames.push(after);
                    proof {
                        assert(frames_view(self.control.frames@) =~= below.push(frame_rest(after)));
                    }
                } else if self.fuel == 0 {
                    self.control.frames.push(f);
                    proof {
                        assert(frames_view(self.control.frames@) =~= before.stack);
                    }
                    return Err(RunError::OutOfFuel);
                } else {
                    let inner = Frame { trees: body.as_slice(), next: 0 };
                    proof {
                        assert(frame_rest(inner) =~= trees_view(body@));
                    }
                    self.fuel -= 1;
                    self.control.frames.push(f);
                    self.control.frames.push(inner);
                    proof {
                        assert(frames_view(self.control.frames@) =~= before.stack.push(trees_view(body@)));
                    }
                }
            },
        }
        Ok(())
    }
}

} // verus!
