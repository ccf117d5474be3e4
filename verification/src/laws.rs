//! What holds of every run.

use crate::ast::Node;
use crate::semantics::{
    computed, current, defined, emitted, entered, fits, indexed, left, lemma_steps_left, put_out,
    recorded, reported, run_from, settle, settled, wrapped, wraps, State, Status,
};
use vstd::prelude::*;

verus! {

/// The program that holds `node` `n` times.
pub open spec fn repeated(node: Node, n: nat) -> Seq<Node> {
    Seq::new(n, |i: int| node)
}

/// The `n` values that follow `v`, in order.
pub open spec fn counted(v: int, n: nat) -> Seq<i64> {
    Seq::new(n, |i: int| (v + 1 + i) as i64)
}

/// The values -1 and 0 in turn, `n` times.
pub open spec fn bounced(n: nat) -> Seq<i64> {
    Seq::new(2 * n, |i: int| if i % 2 == 0 { -1i64 } else { 0i64 })
}

/// The program that holds `n` increments and then a jump to its start.
pub open spec fn spinning(n: nat) -> Seq<Node> {
    repeated(Node::Inc, n).push(Node::JumpStart)
}

/// Whether the state `after` goes on from the state `before`: the history, the
/// names of the blocks, the text put out and the reports begin with those of
/// `before`, and every block of `before` is still defined.
pub open spec fn continues(before: State, after: State) -> bool {
    &&& before.stack.is_prefix_of(after.stack)
    &&& before.names.is_prefix_of(after.names)
    &&& before.output.is_prefix_of(after.output)
    &&& before.errors.is_prefix_of(after.errors)
    &&& before.table.dom().subset_of(after.table.dom())
}

/// Increments count: `n` of them, run at a value from which they do not reach
/// 256, record the `n` values that follow it, one by one, and change nothing
/// else.
pub proof fn lemma_increments(n: nat, st: State, steps: nat)
    requires
        0 <= current(st.stack),
        current(st.stack) + n <= 255,
        steps >= n,
    ensures
        ({
            let run = run_from(repeated(Node::Inc, n), 0, st, steps);
            &&& run.status == Status::Finished
            &&& run.steps_left == steps - n
            &&& run.state == (State {
                stack: st.stack + counted(current(st.stack) as int, n),
                ..st
            })
            &&& current(run.state.stack) == current(st.stack) + n
        }),
{
    lemma_increments_from(n, 0, st, steps);
}

proof fn lemma_increments_from(n: nat, pc: int, st: State, steps: nat)
    requires
        0 <= pc <= n,
        0 <= current(st.stack),
        current(st.stack) + (n - pc) <= 255,
        steps >= n - pc,
    ensures
        ({
            let run = run_from(repeated(Node::Inc, n), pc, st, steps);
            &&& run.status == Status::Finished
            &&& run.steps_left == steps - (n - pc)
            &&& run.state == (State {
                stack: st.stack + counted(current(st.stack) as int, (n - pc) as nat),
                ..st
            })
            &&& current(run.state.stack) == current(st.stack) + (n - pc)
        }),
    decreases n - pc,
{
    let prog = repeated(Node::Inc, n);
    let v = current(st.stack);
    if pc < n {
        let next = recorded(st, v + 1);
        assert(prog[pc] == Node::Inc);
        assert(next.stack == st.stack.push((v + 1) as i64));
        lemma_increments_from(n, pc + 1, next, (steps - 1) as nat);
        assert(next.stack + counted(v + 1, (n - pc - 1) as nat) =~= st.stack + counted(
            v as int,
            (n - pc) as nat,
        ));
    } else {
        assert(st.stack + counted(v as int, 0) =~= st.stack);
    }
}

/// Decrements at 0 bounce: each records -1 and, by the wrap rule, 0 behind it,
/// so `n` of them leave the accumulator at 0 and change nothing else.
pub proof fn lemma_decrements(n: nat, st: State, steps: nat)
    requires
        current(st.stack) == 0,
        steps >= n,
    ensures
        ({
            let run = run_from(repeated(Node::Dec, n), 0, st, steps);
            &&& run.status == Status::Finished
            &&& run.steps_left == steps - n
            &&& run.state == (State { stack: st.stack + bounced(n), ..st })
            &&& current(run.state.stack) == 0
        }),
{
    lemma_decrements_from(n, 0, st, steps);
}

proof fn lemma_decrements_from(n: nat, pc: int, st: State, steps: nat)
    requires
        0 <= pc <= n,
        current(st.stack) == 0,
        steps >= n - pc,
    ensures
        ({
            let run = run_from(repeated(Node::Dec, n), pc, st, steps);
            &&& run.status == Status::Finished
            &&& run.steps_left == steps - (n - pc)
            &&& run.state == (State { stack: st.stack + bounced((n - pc) as nat), ..st })
            &&& current(run.state.stack) == 0
        }),
    decreases n - pc,
{
    let prog = repeated(Node::Dec, n);
    if pc < n {
        let next = recorded(st, -1);
        assert(prog[pc] == Node::Dec);
        assert(next.stack == st.stack.push(-1i64).push(0i64));
        lemma_decrements_from(n, pc + 1, next, (steps - 1) as nat);
        assert(next.stack + bounced((n - pc - 1) as nat) =~= st.stack + bounced((n - pc) as nat));
    } else {
        assert(st.stack + bounced(0) =~= st.stack);
    }
}

/// A history that obeys the wrap rule still does so when a value was recorded
/// and the rule applied. Applying the rule to it alone changes nothing.
pub proof fn lemma_record_wrapped(stack: Seq<i64>, v: i64)
    requires
        wrapped(stack),
    ensures
        wrapped(settle(stack.push(v))),
        settle(stack) == stack,
{
    if stack.len() > 0 {
        assert(!wraps(stack[stack.len() - 1]));
    }
    let pushed = stack.push(v);
    assert forall|i: int| 0 <= i < settle(pushed).len() && wraps(
        #[trigger] settle(pushed)[i],
    ) implies i + 1 < settle(pushed).len() && settle(pushed)[i + 1] == 0 by {
        if i < stack.len() {
            assert(stack[i] == settle(pushed)[i]);
            assert(stack[i + 1] == settle(pushed)[i + 1]);
        }
    }
}

/// A run keeps the wrap rule: where the history obeyed it before the run, it
/// obeys it after, however the run ended. So behind each value at which the
/// accumulator cannot stay, the next value recorded is 0.
pub proof fn lemma_run_wrapped(prog: Seq<Node>, pc: int, st: State, steps: nat)
    requires
        wrapped(st.stack),
    ensures
        wrapped(run_from(prog, pc, st, steps).state.stack),
    decreases steps,
{
    if 0 <= pc < prog.len() && steps > 0 {
        let rest = (steps - 1) as nat;
        let v = current(st.stack);
        lemma_record_wrapped(st.stack, 0);
        match prog[pc] {
            Node::Reset | Node::Inc | Node::Dec | Node::Square => {
                let next = computed(prog[pc], v);
                if fits(next) {
                    lemma_record_wrapped(st.stack, next as i64);
                    lemma_run_wrapped(prog, pc + 1, recorded(st, next), rest);
                }
            },
            Node::JumpStart => {
                lemma_run_wrapped(prog, 0, settled(st), rest);
            },
            Node::Out | Node::Print => {
                lemma_run_wrapped(prog, pc + 1, put_out(st, emitted(prog[pc], v)), rest);
            },
            Node::BlockDef { name, body } => {
                lemma_run_wrapped(prog, pc + 1, defined(st, name, body), rest);
            },
            Node::BlockCall { name } => {
                if st.table.dom().contains(name) {
                    lemma_steps_left(st.table[name], 0, entered(st), rest);
                    let inner = run_from(st.table[name], 0, entered(st), rest);
                    let sum = v + current(inner.state.stack);
                    if inner.status != Status::OutOfSteps && inner.status != Status::Overflow
                        && fits(sum) {
                        lemma_record_wrapped(st.stack, sum as i64);
                        lemma_run_wrapped(
                            prog,
                            pc + 1,
                            recorded(left(st, inner.state), sum),
                            inner.steps_left,
                        );
                    }
                }
            },
        }
    }
}

/// A run keeps the names in step with the blocks: where the names were those
/// of the blocks, each once, before the run, they are after it.
pub proof fn lemma_run_indexed(prog: Seq<Node>, pc: int, st: State, steps: nat)
    requires
        indexed(st),
    ensures
        indexed(run_from(prog, pc, st, steps).state),
    decreases steps,
{
    if 0 <= pc < prog.len() && steps > 0 {
        let rest = (steps - 1) as nat;
        let v = current(st.stack);
        match prog[pc] {
            Node::Reset | Node::Inc | Node::Dec | Node::Square => {
                let next = computed(prog[pc], v);
                if fits(next) {
                    lemma_run_indexed(prog, pc + 1, recorded(st, next), rest);
                }
            },
            Node::JumpStart => {
                lemma_run_indexed(prog, 0, settled(st), rest);
            },
            Node::Out | Node::Print => {
                lemma_run_indexed(prog, pc + 1, put_out(st, emitted(prog[pc], v)), rest);
            },
            Node::BlockDef { name, body } => {
                let next = defined(st, name, body);
                assert(indexed(next)) by {
                    if st.table.dom().contains(name) {
                        assert(next.table.dom() =~= st.table.dom());
                    } else {
                        assert(!st.names.contains(name));
                        assert forall|k: Seq<char>|
                            next.names.to_set().contains(k) <==> next.table.dom().contains(k) by {
                            if next.names.contains(k) {
                                let i = choose|i: int|
                                    0 <= i < next.names.len() && next.names[i] == k;
                                if i < st.names.len() {
                                    assert(st.names[i] == k);
                                    assert(st.names.contains(k));
                                }
                            }
                            if st.table.dom().contains(k) {
                                assert(st.names.to_set().contains(k));
                                let i = choose|i: int| 0 <= i < st.names.len() && st.names[i] == k;
                                assert(next.names[i] == k);
                            }
                            if k == name {
                                assert(next.names[st.names.len() as int] == k);
                            }
                        }
                        assert(next.names.to_set() =~= next.table.dom());
                        assert forall|i: int, j: int|
                            0 <= i < next.names.len() && 0 <= j < next.names.len() && i
                                != j implies next.names[i] != next.names[j] by {
                            if i < st.names.len() && j < st.names.len() {
                            } else if i < st.names.len() {
                                assert(st.names.contains(st.names[i]));
                            } else if j < st.names.len() {
                                assert(st.names.contains(st.names[j]));
                            }
                        }
                    }
                }
                lemma_run_indexed(prog, pc + 1, next, rest);
            },
            Node::BlockCall { name } => {
                if st.table.dom().contains(name) {
                    lemma_steps_left(st.table[name], 0, entered(st), rest);
                    lemma_run_indexed(st.table[name], 0, entered(st), rest);
                    let inner = run_from(st.table[name], 0, entered(st), rest);
                    let sum = v + current(inner.state.stack);
                    if inner.status != Status::OutOfSteps && inner.status != Status::Overflow
                        && fits(sum) {
                        lemma_run_indexed(
                            prog,
                            pc + 1,
                            recorded(left(st, inner.state), sum),
                            inner.steps_left,
                        );
                    }
                }
            },
        }
    }
}

/// A program of increments that ends with a jump to its start never ends: run
/// at a value from 0 to 255, it uses up its steps, however many it is given.
pub proof fn lemma_jump_never_ends(n: nat, pc: int, st: State, steps: nat)
    requires
        0 <= pc <= n,
        0 <= current(st.stack) <= 255,
    ensures
        run_from(spinning(n), pc, st, steps).status == Status::OutOfSteps,
        run_from(spinning(n), pc, st, steps).steps_left == 0,
    decreases steps,
{
    let prog = spinning(n);
    let v = current(st.stack);
    if steps > 0 {
        if pc < n {
            assert(prog[pc] == Node::Inc);
            lemma_jump_never_ends(n, pc + 1, recorded(st, v + 1), (steps - 1) as nat);
        } else {
            assert(prog[pc] == Node::JumpStart);
            lemma_jump_never_ends(n, 0, settled(st), (steps - 1) as nat);
        }
    }
}

/// A call of a block that is not defined ends the run of the sequence that
/// holds it: the call is reported with the names defined at that moment, and
/// nothing is recorded, defined or put out.
pub proof fn lemma_unknown_block(prog: Seq<Node>, pc: int, st: State, steps: nat)
    requires
        0 <= pc < prog.len(),
        prog[pc] is BlockCall,
        !st.table.dom().contains(prog[pc]->BlockCall_name),
        steps > 0,
    ensures
        ({
            let run = run_from(prog, pc, st, steps);
            &&& run.status == Status::Aborted
            &&& run.steps_left == steps - 1
            &&& run.state == reported(st, prog[pc]->BlockCall_name)
            &&& run.state.stack == st.stack
            &&& run.state.table == st.table
            &&& run.state.names == st.names
            &&& run.state.output == st.output
        }),
{
}

/// A call of a defined block whose run ends, at its last node or at a call of
/// a block that is not defined, records one value in the caller's history: the
/// caller's value plus the value at which the block ended. Of the block's own
/// history nothing else is kept. The run goes on behind the call with what the
/// block defined, put out and reported, and with the steps it left.
pub proof fn lemma_call_composes(prog: Seq<Node>, pc: int, st: State, steps: nat)
    requires
        0 <= pc < prog.len(),
        prog[pc] is BlockCall,
        st.table.dom().contains(prog[pc]->BlockCall_name),
        steps > 0,
    ensures
        ({
            let body = st.table[prog[pc]->BlockCall_name];
            let inner = run_from(body, 0, entered(st), (steps - 1) as nat);
            let sum = current(st.stack) + current(inner.state.stack);
            (inner.status == Status::Finished || inner.status == Status::Aborted) && fits(sum)
                ==> run_from(prog, pc, st, steps) == run_from(
                prog,
                pc + 1,
                recorded(left(st, inner.state), sum),
                inner.steps_left,
            )
        }),
{
    let body = st.table[prog[pc]->BlockCall_name];
    lemma_steps_left(body, 0, entered(st), (steps - 1) as nat);
}

/// A run takes memory in proportion to its steps: each step that it makes
/// records two values at most, the one that the node computes and the 0 that
/// the wrap rule puts behind it.
pub proof fn lemma_history_bound(prog: Seq<Node>, pc: int, st: State, steps: nat)
    ensures
        run_from(prog, pc, st, steps).steps_left <= steps,
        run_from(prog, pc, st, steps).state.stack.len() <= st.stack.len() + 2 * (steps - run_from(
            prog,
            pc,
            st,
            steps,
        ).steps_left),
    decreases steps,
{
    lemma_steps_left(prog, pc, st, steps);
    if 0 <= pc < prog.len() && steps > 0 {
        let rest = (steps - 1) as nat;
        let v = current(st.stack);
        match prog[pc] {
            Node::Reset | Node::Inc | Node::Dec | Node::Square => {
                let next = computed(prog[pc], v);
                if fits(next) {
                    lemma_history_bound(prog, pc + 1, recorded(st, next), rest);
                }
            },
            Node::JumpStart => {
                lemma_history_bound(prog, 0, settled(st), rest);
            },
            Node::Out | Node::Print => {
                lemma_history_bound(prog, pc + 1, put_out(st, emitted(prog[pc], v)), rest);
            },
            Node::BlockDef { name, body } => {
                lemma_history_bound(prog, pc + 1, defined(st, name, body), rest);
            },
            Node::BlockCall { name } => {
                if st.table.dom().contains(name) {
                    lemma_steps_left(st.table[name], 0, entered(st), rest);
                    let inner = run_from(st.table[name], 0, entered(st), rest);
                    let sum = v + current(inner.state.stack);
                    if inner.status != Status::OutOfSteps && inner.status != Status::Overflow
                        && fits(sum) {
                        lemma_history_bound(
                            prog,
                            pc + 1,
                            recorded(left(st, inner.state), sum),
                            inner.steps_left,
                        );
                    }
                }
            },
        }
    }
}

/// Whether `nodes` holds no definition.
pub open spec fn defines_nothing(nodes: Seq<Node>) -> bool {
    forall|i: int| 0 <= i < nodes.len() ==> !(#[trigger] nodes[i] is BlockDef)
}

/// Whether no block of `table` holds a definition.
pub open spec fn all_define_nothing(table: Map<Seq<char>, Seq<Node>>) -> bool {
    forall|name: Seq<char>| table.dom().contains(name) ==> defines_nothing(#[trigger] table[name])
}

/// Running a block leaves the blocks as they are: where neither the program
/// nor a block holds a definition, a run, whatever it calls and however often,
/// ends with the blocks and the names with which it began.
pub proof fn lemma_run_keeps_blocks(prog: Seq<Node>, pc: int, st: State, steps: nat)
    requires
        defines_nothing(prog),
        all_define_nothing(st.table),
    ensures
        run_from(prog, pc, st, steps).state.table == st.table,
        run_from(prog, pc, st, steps).state.names == st.names,
    decreases steps,
{
    if 0 <= pc < prog.len() && steps > 0 {
        let rest = (steps - 1) as nat;
        let v = current(st.stack);
        match prog[pc] {
            Node::Reset | Node::Inc | Node::Dec | Node::Square => {
                let next = computed(prog[pc], v);
                if fits(next) {
                    lemma_run_keeps_blocks(prog, pc + 1, recorded(st, next), rest);
                }
            },
            Node::JumpStart => {
                lemma_run_keeps_blocks(prog, 0, settled(st), rest);
            },
            Node::Out | Node::Print => {
                lemma_run_keeps_blocks(prog, pc + 1, put_out(st, emitted(prog[pc], v)), rest);
            },
            Node::BlockDef { name, body } => {},
            Node::BlockCall { name } => {
                if st.table.dom().contains(name) {
                    lemma_steps_left(st.table[name], 0, entered(st), rest);
                    lemma_run_keeps_blocks(st.table[name], 0, entered(st), rest);
                    let inner = run_from(st.table[name], 0, entered(st), rest);
                    let sum = v + current(inner.state.stack);
                    if inner.status != Status::OutOfSteps && inner.status != Status::Overflow
                        && fits(sum) {
                        lemma_run_keeps_blocks(
                            prog,
                            pc + 1,
                            recorded(left(st, inner.state), sum),
                            inner.steps_left,
                        );
                    }
                }
            },
        }
    }
}

/// Going on from a state is transitive.
proof fn lemma_continues_twice(first: State, second: State, third: State)
    requires
        continues(first, second),
        continues(second, third),
    ensures
        continues(first, third),
{
}

/// What one node does to a state goes on from it.
proof fn lemma_continues_node(st: State, v: int, text: Seq<char>, name: Seq<char>, body: Seq<Node>)
    ensures
        continues(st, recorded(st, v)),
        continues(st, settled(st)),
        continues(st, put_out(st, text)),
        continues(st, defined(st, name, body)),
        continues(st, reported(st, name)),
{
}

/// A run only adds: the state it leaves goes on from the state in which it
/// began. The history never shrinks, nothing put out or reported is taken
/// back, and no block is forgotten.
pub proof fn lemma_run_extends(prog: Seq<Node>, pc: int, st: State, steps: nat)
    ensures
        continues(st, run_from(prog, pc, st, steps).state),
    decreases steps,
{
    if 0 <= pc < prog.len() && steps > 0 {
        let rest = (steps - 1) as nat;
        let v = current(st.stack);
        match prog[pc] {
            Node::Reset | Node::Inc | Node::Dec | Node::Square => {
                let value = computed(prog[pc], v);
                if fits(value) {
                    let next = recorded(st, value);
                    lemma_continues_node(st, value, Seq::empty(), Seq::empty(), Seq::empty());
                    lemma_run_extends(prog, pc + 1, next, rest);
                    lemma_continues_twice(st, next, run_from(prog, pc + 1, next, rest).state);
                }
            },
            Node::JumpStart => {
                let next = settled(st);
                lemma_continues_node(st, 0, Seq::empty(), Seq::empty(), Seq::empty());
                lemma_run_extends(prog, 0, next, rest);
                lemma_continues_twice(st, next, run_from(prog, 0, next, rest).state);
            },
            Node::Out | Node::Print => {
                let next = put_out(st, emitted(prog[pc], v));
                lemma_continues_node(st, 0, emitted(prog[pc], v), Seq::empty(), Seq::empty());
                lemma_run_extends(prog, pc + 1, next, rest);
                lemma_continues_twice(st, next, run_from(prog, pc + 1, next, rest).state);
            },
            Node::BlockDef { name, body } => {
                let next = defined(st, name, body);
                lemma_continues_node(st, 0, Seq::empty(), name, body);
                lemma_run_extends(prog, pc + 1, next, rest);
                lemma_continues_twice(st, next, run_from(prog, pc + 1, next, rest).state);
            },
            Node::BlockCall { name } => {
                if st.table.dom().contains(name) {
                    lemma_run_extends(st.table[name], 0, entered(st), rest);
                    lemma_steps_left(st.table[name], 0, entered(st), rest);
                    let inner = run_from(st.table[name], 0, entered(st), rest);
                    let back = left(st, inner.state);
                    let sum = v + current(inner.state.stack);
                    if inner.status != Status::OutOfSteps && inner.status != Status::Overflow
                        && fits(sum) {
                        let next = recorded(back, sum);
                        lemma_continues_node(back, sum, Seq::empty(), Seq::empty(), Seq::empty());
                        lemma_run_extends(prog, pc + 1, next, inner.steps_left);
                        lemma_continues_twice(
                            st,
                            next,
                            run_from(prog, pc + 1, next, inner.steps_left).state,
                        );
                    }
                } else {
                    lemma_continues_node(st, 0, Seq::empty(), name, Seq::empty());
                }
            },
        }
    }
}

/// The steps only decide whether a run gets to its end: a run that did not use
/// up its steps ends in the same way and in the same state with more of them,
/// and leaves as many more as it was given.
pub proof fn lemma_more_steps(prog: Seq<Node>, pc: int, st: State, fewer: nat, more: nat)
    requires
        fewer <= more,
        run_from(prog, pc, st, fewer).status != Status::OutOfSteps,
    ensures
        run_from(prog, pc, st, more).status == run_from(prog, pc, st, fewer).status,
        run_from(prog, pc, st, more).state == run_from(prog, pc, st, fewer).state,
        run_from(prog, pc, st, more).steps_left == run_from(prog, pc, st, fewer).steps_left + (more
            - fewer),
    decreases fewer,
{
    if 0 <= pc < prog.len() && fewer > 0 {
        let rest = (fewer - 1) as nat;
        let wide = (more - 1) as nat;
        let v = current(st.stack);
        match prog[pc] {
            Node::Reset | Node::Inc | Node::Dec | Node::Square => {
                let value = computed(prog[pc], v);
                if fits(value) {
                    lemma_more_steps(prog, pc + 1, recorded(st, value), rest, wide);
                }
            },
            Node::JumpStart => {
                lemma_more_steps(prog, 0, settled(st), rest, wide);
            },
            Node::Out | Node::Print => {
                lemma_more_steps(prog, pc + 1, put_out(st, emitted(prog[pc], v)), rest, wide);
            },
            Node::BlockDef { name, body } => {
                lemma_more_steps(prog, pc + 1, defined(st, name, body), rest, wide);
            },
            Node::BlockCall { name } => {
                if st.table.dom().contains(name) {
                    let body = st.table[name];
                    let inner = run_from(body, 0, entered(st), rest);
                    lemma_more_steps(body, 0, entered(st), rest, wide);
                    lemma_steps_left(body, 0, entered(st), rest);
                    lemma_steps_left(body, 0, entered(st), wide);
                    let sum = v + current(inner.state.stack);
                    if inner.status != Status::Overflow && fits(sum) {
                        lemma_more_steps(
                            prog,
                            pc + 1,
                            recorded(left(st, inner.state), sum),
                            inner.steps_left,
                            (inner.steps_left + (more - fewer)) as nat,
                        );
                    }
                }
            },
        }
    }
}

/// With more steps a run gets further: the state that it leaves goes on from
/// the state that it leaves with fewer.
pub proof fn lemma_more_steps_go_on(prog: Seq<Node>, pc: int, st: State, fewer: nat, more: nat)
    requires
        fewer <= more,
    ensures
        continues(run_from(prog, pc, st, fewer).state, run_from(prog, pc, st, more).state),
    decreases fewer,
{
    if run_from(prog, pc, st, fewer).status != Status::OutOfSteps {
        lemma_more_steps(prog, pc, st, fewer, more);
    } else if fewer == 0 {
        lemma_run_extends(prog, pc, st, more);
    } else {
        let rest = (fewer - 1) as nat;
        let wide = (more - 1) as nat;
        let v = current(st.stack);
        match prog[pc] {
            Node::Reset | Node::Inc | Node::Dec | Node::Square => {
                let value = computed(prog[pc], v);
                if fits(value) {
                    lemma_more_steps_go_on(prog, pc + 1, recorded(st, value), rest, wide);
                }
            },
            Node::JumpStart => {
                lemma_more_steps_go_on(prog, 0, settled(st), rest, wide);
            },
            Node::Out | Node::Print => {
                lemma_more_steps_go_on(
                    prog,
                    pc + 1,
                    put_out(st, emitted(prog[pc], v)),
                    rest,
                    wide,
                );
            },
            Node::BlockDef { name, body } => {
                lemma_more_steps_go_on(prog, pc + 1, defined(st, name, body), rest, wide);
            },
            Node::BlockCall { name } => {
                if st.table.dom().contains(name) {
                    let body = st.table[name];
                    let inner = run_from(body, 0, entered(st), rest);
                    let outer = run_from(body, 0, entered(st), wide);
                    lemma_steps_left(body, 0, entered(st), rest);
                    lemma_steps_left(body, 0, entered(st), wide);
                    let sum = v + current(inner.state.stack);
                    if inner.status == Status::OutOfSteps {
                        lemma_more_steps_go_on(body, 0, entered(st), rest, wide);
                        let back = left(st, inner.state);
                        let wide_back = left(st, outer.state);
                        let wide_sum = v + current(outer.state.stack);
                        if outer.status != Status::OutOfSteps && outer.status != Status::Overflow
                            && fits(wide_sum) {
                            let next = recorded(wide_back, wide_sum);
                            lemma_continues_node(
                                wide_back,
                                wide_sum,
                                Seq::empty(),
                                Seq::empty(),
                                Seq::empty(),
                            );
                            lemma_run_extends(prog, pc + 1, next, outer.steps_left);
                            lemma_continues_twice(
                                back,
                                next,
                                run_from(prog, pc + 1, next, outer.steps_left).state,
                            );
                        }
                    } else {
                        lemma_more_steps(body, 0, entered(st), rest, wide);
                        if inner.status != Status::Overflow && fits(sum) {
                            lemma_more_steps_go_on(
                                prog,
                                pc + 1,
                                recorded(left(st, inner.state), sum),
                                inner.steps_left,
                                (inner.steps_left + (more - fewer)) as nat,
                            );
                        }
                    }
                }
            },
        }
    }
}

} // verus!
