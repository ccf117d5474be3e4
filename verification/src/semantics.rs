//! What running a program means.
//!
//! A machine holds the history of its accumulator and the blocks defined so
//! far. Running a sequence of nodes takes them one by one; a jump goes back to
//! the first node of the sequence that holds it, so a run need not end. Each
//! node that is run, in the program or in a block that it calls, costs one
//! step, and a run is given a number of steps that it cannot exceed.
//!
//! A block runs with the blocks of its caller, and what it defines stays
//! defined. Only its history is its own.
//!
//! The accumulator is a signed 64-bit number. A run whose next value would not
//! fit stops there, in whatever block it is, before the value is recorded.

use crate::ast::Node;
use crate::table::listed;
use crate::text::{character, decimal};
use vstd::prelude::*;

verus! {

/// How a run ended.
#[derive(Clone, Copy, Debug, PartialEq, Eq, Structural)]
pub enum Status {
    /// The last node of the program was run.
    Finished,
    /// The program called a block that was not defined; the nodes behind the
    /// call were not run.
    Aborted,
    /// The steps were used up before the program ended.
    OutOfSteps,
    /// The next value of the accumulator would not fit into 64 bits.
    Overflow,
}

/// The report of a call of a block that was not defined: the name that was
/// called, and the names that were defined at that moment, in the order in
/// which they were first defined.
pub struct Report {
    pub name: Seq<char>,
    pub known: Seq<Seq<char>>,
}

/// What a run reads and changes: the history of the accumulator, the blocks
/// and their names in the order in which they were first defined, the text put
/// out and the reports made so far.
pub struct State {
    pub stack: Seq<i64>,
    pub table: Map<Seq<char>, Seq<Node>>,
    pub names: Seq<Seq<char>>,
    pub output: Seq<char>,
    pub errors: Seq<Report>,
}

/// A run's result: how it ended, the state it left, and the steps it did not
/// use.
pub struct Run {
    pub status: Status,
    pub state: State,
    pub steps_left: nat,
}

/// The accumulator's value: the last value of its history, or 0 where nothing
/// was recorded yet.
pub open spec fn current(stack: Seq<i64>) -> i64 {
    if stack.len() == 0 {
        0
    } else {
        stack.last()
    }
}

/// Whether the accumulator cannot stay at `v`: it cannot be negative, nor be
/// 256.
pub open spec fn wraps(v: i64) -> bool {
    v < 0 || v == 256
}

/// The history after the wrap rule: where the accumulator cannot stay at its
/// value, 0 is recorded behind it.
pub open spec fn settle(stack: Seq<i64>) -> Seq<i64> {
    if wraps(current(stack)) {
        stack.push(0)
    } else {
        stack
    }
}

/// Whether `v` is a signed 64-bit number.
pub open spec fn fits(v: int) -> bool {
    i64::MIN <= v <= i64::MAX
}

/// The value that the instruction `node` computes from the accumulator's
/// value `v`.
pub open spec fn computed(node: Node, v: i64) -> int {
    match node {
        Node::Reset => 0,
        Node::Inc => v + 1,
        Node::Dec => v - 1,
        Node::Square => v * v,
        _ => 0,
    }
}

/// The text that the instruction `node` puts out at the accumulator's value
/// `v`.
pub open spec fn emitted(node: Node, v: i64) -> Seq<char> {
    match node {
        Node::Out => decimal(v as int),
        Node::Print => character(v),
        _ => Seq::empty(),
    }
}

/// The state `st` once the value `v` is recorded and the wrap rule applied.
pub open spec fn recorded(st: State, v: int) -> State {
    State { stack: settle(st.stack.push(v as i64)), ..st }
}

/// The state `st` once the wrap rule is applied.
pub open spec fn settled(st: State) -> State {
    State { stack: settle(st.stack), ..st }
}

/// The state `st` once `text` is put out and the wrap rule applied.
pub open spec fn put_out(st: State, text: Seq<char>) -> State {
    State { stack: settle(st.stack), output: st.output + text, ..st }
}

/// The state `st` once the block `name` is defined as `body`, in place of what
/// was defined under that name.
pub open spec fn defined(st: State, name: Seq<char>, body: Seq<Node>) -> State {
    State {
        table: st.table.insert(name, body),
        names: listed(st.names, st.table.dom(), name),
        ..st
    }
}

/// The state `st` once a call of the block `name`, which is not defined, is
/// reported.
pub open spec fn reported(st: State, name: Seq<char>) -> State {
    State { errors: st.errors.push(Report { name, known: st.names }), ..st }
}

/// The state in which a block is run by a caller in the state `st`: that of
/// the caller, with a history of its own that holds nothing yet.
pub open spec fn entered(st: State) -> State {
    State { stack: Seq::empty(), ..st }
}

/// The state of a caller that was in the state `st` when it called a block,
/// once the block has left the state `inner`: what the block defined, put out
/// and reported stays, its history goes.
pub open spec fn left(st: State, inner: State) -> State {
    State { stack: st.stack, ..inner }
}

/// The run of `prog` from its node `pc` on, in the state `st`, with `steps`
/// steps.
///
/// A call hands the steps that are left to the block, and goes on with those
/// that the block has left. They are never more than were handed over (see
/// `lemma_steps_left`); taking the smaller of the two shows that the recursion
/// ends.
pub open spec fn run_from(prog: Seq<Node>, pc: int, st: State, steps: nat) -> Run
    decreases steps,
{
    if pc < 0 || pc >= prog.len() {
        Run { status: Status::Finished, state: st, steps_left: steps }
    } else if steps == 0 {
        Run { status: Status::OutOfSteps, state: st, steps_left: 0 }
    } else {
        let rest = (steps - 1) as nat;
        let v = current(st.stack);
        match prog[pc] {
            Node::Reset | Node::Inc | Node::Dec | Node::Square => {
                let next = computed(prog[pc], v);
                if fits(next) {
                    run_from(prog, pc + 1, recorded(st, next), rest)
                } else {
                    Run { status: Status::Overflow, state: st, steps_left: rest }
                }
            },
            Node::JumpStart => run_from(prog, 0, settled(st), rest),
            Node::Out | Node::Print => run_from(
                prog,
                pc + 1,
                put_out(st, emitted(prog[pc], v)),
                rest,
            ),
            Node::BlockDef { name, body } => run_from(prog, pc + 1, defined(st, name, body), rest),
            Node::BlockCall { name } => {
                if !st.table.dom().contains(name) {
                    Run { status: Status::Aborted, state: reported(st, name), steps_left: rest }
                } else {
                    let inner = run_from(st.table[name], 0, entered(st), rest);
                    let back = left(st, inner.state);
                    let sum = v + current(inner.state.stack);
                    if inner.status == Status::OutOfSteps || inner.status == Status::Overflow {
                        Run { status: inner.status, state: back, steps_left: inner.steps_left }
                    } else if !fits(sum) {
                        Run { status: Status::Overflow, state: back, steps_left: inner.steps_left }
                    } else {
                        run_from(
                            prog,
                            pc + 1,
                            recorded(back, sum),
                            if inner.steps_left <= rest {
                                inner.steps_left
                            } else {
                                rest
                            },
                        )
                    }
                }
            },
        }
    }
}

/// The state in which a machine with the history `stack` and the blocks
/// `table`, named in the order `names`, begins a run: nothing is put out or
/// reported yet.
pub open spec fn begun(
    stack: Seq<i64>,
    table: Map<Seq<char>, Seq<Node>>,
    names: Seq<Seq<char>>,
) -> State {
    State { stack, table, names, output: Seq::empty(), errors: Seq::empty() }
}

/// Whether the history `stack` obeys the wrap rule: behind each value at which
/// the accumulator cannot stay, 0 is recorded.
pub open spec fn wrapped(stack: Seq<i64>) -> bool {
    forall|i: int|
        0 <= i < stack.len() && wraps(#[trigger] stack[i]) ==> i + 1 < stack.len() && stack[i + 1]
            == 0
}

/// Whether the names of the state `st` are those of its blocks, each once.
pub open spec fn indexed(st: State) -> bool {
    st.names.no_duplicates() && st.names.to_set() == st.table.dom()
}

/// A run leaves no more steps than it was given.
pub proof fn lemma_steps_left(prog: Seq<Node>, pc: int, st: State, steps: nat)
    ensures
        run_from(prog, pc, st, steps).steps_left <= steps,
    decreases steps,
{
    if 0 <= pc < prog.len() && steps > 0 {
        let rest = (steps - 1) as nat;
        let v = current(st.stack);
        match prog[pc] {
            Node::Reset | Node::Inc | Node::Dec | Node::Square => {
                let next = computed(prog[pc], v);
                if fits(next) {
                    lemma_steps_left(prog, pc + 1, recorded(st, next), rest);
                }
            },
            Node::JumpStart => {
                lemma_steps_left(prog, 0, settled(st), rest);
            },
            Node::Out | Node::Print => {
                lemma_steps_left(prog, pc + 1, put_out(st, emitted(prog[pc], v)), rest);
            },
            Node::BlockDef { name, body } => {
                lemma_steps_left(prog, pc + 1, defined(st, name, body), rest);
            },
            Node::BlockCall { name } => {
                if st.table.dom().contains(name) {
                    lemma_steps_left(st.table[name], 0, entered(st), rest);
                    let inner = run_from(st.table[name], 0, entered(st), rest);
                    let sum = v + current(inner.state.stack);
                    if inner.status != Status::OutOfSteps && inner.status != Status::Overflow
                        && fits(sum) {
                        lemma_steps_left(
                            prog,
                            pc + 1,
                            recorded(left(st, inner.state), sum),
                            inner.steps_left,
                        );
                    }
                }
            },
        }
    }
}

} // verus!
