//! The machine: an accumulator with its history, the blocks defined so far, and
//! the program that was read last.

use crate::ast::{clone_nodes, nodes_view, Ast, Node};
use crate::grammar::parse;
use crate::laws::{lemma_history_bound, lemma_record_wrapped, lemma_run_wrapped};
use crate::parser::read_program;
use crate::render::{definitions, table_source, text_of, to_source};
use crate::semantics::{
    begun, current, entered, lemma_steps_left, run_from, settle, wrapped, wraps, Report, State,
    Status,
};
use crate::table::{names_view, SymbolTable};
use crate::text::{character, decimal, lowered, push_character, push_decimal, to_lower_chars};
use vstd::prelude::*;

verus! {

/// The report of a call of a block that was not defined.
#[derive(Clone, Debug, PartialEq, Eq)]
pub struct UnknownBlock {
    /// The name that was called.
    pub name: String,
    /// The names that were defined at that moment, in the order in which they
    /// were first defined.
    pub known: Vec<String>,
}

impl View for UnknownBlock {
    type V = Report;

    open spec fn view(&self) -> Report {
        Report { name: self.name@, known: names_view(self.known@) }
    }
}

/// The model of a sequence of reports.
pub open spec fn reports_view(errors: Seq<UnknownBlock>) -> Seq<Report> {
    Seq::new(errors.len(), |i: int| errors[i]@)
}

/// What a run hands back.
#[derive(Clone, Debug, PartialEq, Eq)]
pub struct Outcome {
    /// How the run ended.
    pub status: Status,
    /// The text that the run put out.
    pub output: String,
    /// The calls of blocks that were not defined, in the order in which they
    /// were made.
    pub errors: Vec<UnknownBlock>,
    /// The steps that the run did not use.
    pub steps_left: u64,
}

/// The interpreter's state.
///
/// The history of the accumulator only grows: each value that an instruction
/// computes is recorded behind the others, so a run takes memory in proportion
/// to the steps it makes.
#[derive(Debug)]
pub struct Deadfish {
    stack: Vec<i64>,
    table: SymbolTable,
    ast: Vec<Ast>,
}

/// The state of a run that holds the history `stack`, the blocks of `table`,
/// the text `output` and the reports `errors`.
pub open spec fn state_of(
    stack: Seq<i64>,
    table: SymbolTable,
    output: Seq<char>,
    errors: Seq<UnknownBlock>,
) -> State {
    State { stack, table: table@, names: table.order(), output, errors: reports_view(errors) }
}

/// The accumulator's value in the history `stack`.
fn top(stack: &Vec<i64>) -> (v: i64)
    ensures
        v == current(stack@),
{
    let n = stack.len();
    if n > 0 {
        stack[n - 1]
    } else {
        0
    }
}

/// Applies the wrap rule to the history `stack`.
fn settle_stack(stack: &mut Vec<i64>)
    ensures
        final(stack)@ == settle(old(stack)@),
{
    let v = top(stack);
    if v < 0 || v == 256 {
        stack.push(0);
    }
}

/// Records `v` in the history `stack` and applies the wrap rule.
fn record(stack: &mut Vec<i64>, v: i64)
    ensures
        final(stack)@ == settle(old(stack)@.push(v)),
{
    stack.push(v);
    settle_stack(stack);
}

/// Runs `nodes` from the first one on, with at most `steps` steps, and says how
/// the run ended and how many steps it left.
fn exec_nodes(
    nodes: &Vec<Ast>,
    stack: &mut Vec<i64>,
    table: &mut SymbolTable,
    output: &mut String,
    errors: &mut Vec<UnknownBlock>,
    steps: u64,
) -> (end: (Status, u64))
    ensures
        ({
            let run = run_from(
                nodes_view(nodes@),
                0,
                state_of(old(stack)@, *old(table), old(output)@, old(errors)@),
                steps as nat,
            );
            &&& end.0 == run.status
            &&& end.1 == run.steps_left
            &&& state_of(final(stack)@, *final(table), final(output)@, final(errors)@) == run.state
        }),
    decreases steps,
{
    let ghost prog = nodes_view(nodes@);
    let ghost start = state_of(stack@, *table, output@, errors@);
    let mut pc: usize = 0;
    let mut left: u64 = steps;
    while pc < nodes.len()
        invariant
            pc <= nodes.len(),
            left <= steps,
            prog == nodes_view(nodes@),
            start == state_of(old(stack)@, *old(table), old(output)@, old(errors)@),
            run_from(prog, 0, start, steps as nat) == run_from(
                prog,
                pc as int,
                state_of(stack@, *table, output@, errors@),
                left as nat,
            ),
        decreases left,
    {
        if left == 0 {
            return (Status::OutOfSteps, 0);
        }
        left = left - 1;
        let v = top(stack);
        let ghost here = state_of(stack@, *table, output@, errors@);
        match &nodes[pc] {
            Ast::Reset => {
                record(stack, 0);
                pc += 1;
            },
            Ast::Inc => {
                match v.checked_add(1) {
                    Some(next) => {
                        record(stack, next);
                        pc += 1;
                    },
                    None => {
                        return (Status::Overflow, left);
                    },
                }
            },
            Ast::Dec => {
                match v.checked_sub(1) {
                    Some(next) => {
                        record(stack, next);
                        pc += 1;
                    },
                    None => {
                        return (Status::Overflow, left);
                    },
                }
            },
            Ast::Square => {
                match v.checked_mul(v) {
                    Some(next) => {
                        record(stack, next);
                        pc += 1;
                    },
                    None => {
                        return (Status::Overflow, left);
                    },
                }
            },
            Ast::JumpStart => {
                settle_stack(stack);
                pc = 0;
            },
            Ast::Out => {
                push_decimal(output, v);
                settle_stack(stack);
                pc += 1;
            },
            Ast::Print => {
                push_character(output, v);
                settle_stack(stack);
                pc += 1;
            },
            Ast::BlockDef { identifier, body } => {
                table.insert(identifier.clone(), clone_nodes(body));
                pc += 1;
            },
            Ast::BlockCall { identifier } => {
                let found = table.get(identifier);
                match found {
                    None => {
                        let report = UnknownBlock {
                            name: identifier.clone(),
                            known: table.names(),
                        };
                        let ghost before = errors@;
                        errors.push(report);
                        proof {
                            assert(reports_view(errors@) =~= reports_view(before).push(report@));
                        }
                        return (Status::Aborted, left);
                    },
                    Some(body) => {
                        let body = clone_nodes(body);
                        let mut inner: Vec<i64> = Vec::new();
                        proof {
                            lemma_steps_left(
                                here.table[identifier@],
                                0,
                                entered(here),
                                left as nat,
                            );
                        }
                        let (status, rest) = exec_nodes(
                            &body,
                            &mut inner,
                            table,
                            output,
                            errors,
                            left,
                        );
                        match status {
                            Status::OutOfSteps | Status::Overflow => {
                                return (status, rest);
                            },
                            _ => {},
                        }
                        match v.checked_add(top(&inner)) {
                            Some(sum) => {
                                record(stack, sum);
                                left = rest;
                                pc += 1;
                            },
                            None => {
                                return (Status::Overflow, rest);
                            },
                        }
                    },
                }
            },
        }
    }
    (Status::Finished, left)
}

impl Default for Deadfish {
    /// A machine that has recorded nothing, knows no block and holds no
    /// program.
    fn default() -> (fish: Deadfish)
        ensures
            fish.history() == Seq::<i64>::empty(),
            fish.blocks() == Map::<Seq<char>, Seq<Node>>::empty(),
            fish.names() == Seq::<Seq<char>>::empty(),
            fish.program() == Seq::<Node>::empty(),
            fish.settled(),
    {
        Deadfish::new()
    }
}

impl Deadfish {
    /// The history of the accumulator: each value that was recorded, the
    /// oldest first.
    pub closed spec fn history(&self) -> Seq<i64> {
        self.stack@
    }

    /// The blocks defined so far: the body under each name.
    pub closed spec fn blocks(&self) -> Map<Seq<char>, Seq<Node>> {
        self.table@
    }

    /// The names of the blocks, in the order in which they were first
    /// defined.
    pub closed spec fn names(&self) -> Seq<Seq<char>> {
        self.table.order()
    }

    /// The program that was read last.
    pub closed spec fn program(&self) -> Seq<Node> {
        nodes_view(self.ast@)
    }

    /// Whether the history obeys the wrap rule. It does in a new machine, and
    /// whatever is done with a machine keeps it so.
    pub open spec fn settled(&self) -> bool {
        wrapped(self.history())
    }

    /// A machine that has recorded nothing, knows no block and holds no
    /// program.
    pub fn new() -> (fish: Deadfish)
        ensures
            fish.history() == Seq::<i64>::empty(),
            fish.blocks() == Map::<Seq<char>, Seq<Node>>::empty(),
            fish.names() == Seq::<Seq<char>>::empty(),
            fish.program() == Seq::<Node>::empty(),
            fish.settled(),
    {
        let fish = Deadfish { stack: Vec::new(), table: SymbolTable::new(), ast: Vec::new() };
        assert(fish.program() =~= Seq::<Node>::empty());
        fish
    }

    /// The history of the accumulator.
    pub fn stack(&self) -> (stack: &Vec<i64>)
        ensures
            stack@ == self.history(),
    {
        &self.stack
    }

    /// The blocks defined so far.
    pub fn table(&self) -> (table: &SymbolTable)
        ensures
            table@ == self.blocks(),
            table.order() == self.names(),
    {
        &self.table
    }

    /// The program that was read last.
    pub fn ast(&self) -> (ast: &Vec<Ast>)
        ensures
            nodes_view(ast@) == self.program(),
    {
        &self.ast
    }

    /// The program that was read last, as text.
    pub fn dump_ast(&self) -> (text: String)
        ensures
            text@ == text_of(self.program()),
    {
        to_source(&self.ast)
    }

    /// The blocks defined so far, as text: the definition of each, in the
    /// order in which they were first defined.
    pub fn dump_table(&self) -> (text: String)
        ensures
            text@ == text_of(definitions(self.names(), self.blocks())),
    {
        table_source(&self.table)
    }

    /// The accumulator's value: the last one of the history, or 0 where the
    /// history is empty. Where the history obeys the wrap rule, it is none at
    /// which the accumulator cannot stay.
    pub fn peak(&self) -> (v: i64)
        ensures
            v == current(self.history()),
            self.settled() ==> !wraps(v),
    {
        proof {
            if self.settled() && self.stack@.len() > 0 {
                assert(!wraps(self.stack@[self.stack@.len() - 1]));
            }
        }
        top(&self.stack)
    }

    /// Applies the wrap rule: where the accumulator cannot stay at its value,
    /// records 0 behind it.
    pub fn check_bounds(&mut self)
        ensures
            final(self).history() == settle(old(self).history()),
            final(self).blocks() == old(self).blocks(),
            final(self).names() == old(self).names(),
            final(self).program() == old(self).program(),
            !wraps(current(final(self).history())),
            old(self).settled() ==> final(self).settled(),
    {
        proof {
            if self.settled() {
                lemma_record_wrapped(self.stack@, 0);
            }
        }
        settle_stack(&mut self.stack);
    }

    /// Reads `program`, in lower case, and holds its nodes as the program to
    /// run, in place of the one before.
    pub fn from_string(&mut self, program: String)
        ensures
            final(self).program() == parse(lowered(program@)),
            final(self).history() == old(self).history(),
            final(self).blocks() == old(self).blocks(),
            final(self).names() == old(self).names(),
    {
        let text = to_lower_chars(program.as_str());
        self.ast = read_program(&text);
    }

    /// The decimal text of the accumulator's value.
    pub fn output_peaked(&self) -> (text: String)
        ensures
            text@ == decimal(current(self.history()) as int),
    {
        let mut text = String::new();
        push_decimal(&mut text, top(&self.stack));
        text
    }

    /// The accumulator's value as a character, where it is a byte; else its
    /// decimal text.
    pub fn output_peaked_ascii(&self) -> (text: String)
        ensures
            text@ == character(current(self.history())),
    {
        let mut text = String::new();
        push_character(&mut text, top(&self.stack));
        text
    }

    /// Runs the program with at most `max_steps` steps: records what it
    /// computes, keeps what it defines, and hands back what it put out and
    /// reported. The history grows by two values for each step at most.
    pub fn run(&mut self, max_steps: u64) -> (outcome: Outcome)
        ensures
            old(self).settled() ==> final(self).settled(),
            outcome.steps_left <= max_steps,
            final(self).history().len() <= old(self).history().len() + 2 * (max_steps
                - outcome.steps_left),
            ({
                let run = run_from(
                    old(self).program(),
                    0,
                    begun(old(self).history(), old(self).blocks(), old(self).names()),
                    max_steps as nat,
                );
                &&& outcome.status == run.status
                &&& outcome.steps_left == run.steps_left
                &&& outcome.output@ == run.state.output
                &&& reports_view(outcome.errors@) == run.state.errors
                &&& final(self).history() == run.state.stack
                &&& final(self).blocks() == run.state.table
                &&& final(self).names() == run.state.names
                &&& final(self).program() == old(self).program()
            }),
    {
        let mut output = String::new();
        let mut errors: Vec<UnknownBlock> = Vec::new();
        proof {
            assert(reports_view(errors@) =~= Seq::<Report>::empty());
            lemma_history_bound(
                nodes_view(self.ast@),
                0,
                begun(self.stack@, self.table@, self.table.order()),
                max_steps as nat,
            );
            if self.settled() {
                lemma_run_wrapped(
                    nodes_view(self.ast@),
                    0,
                    begun(self.stack@, self.table@, self.table.order()),
                    max_steps as nat,
                );
            }
        }
        let (status, steps_left) = exec_nodes(
            &self.ast,
            &mut self.stack,
            &mut self.table,
            &mut output,
            &mut errors,
            max_steps,
        );
        Outcome { status, output, errors, steps_left }
    }
}

} // verus!
