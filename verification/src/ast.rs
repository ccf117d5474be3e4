//! The syntax tree and its mathematical model.

use vstd::prelude::*;

verus! {

/// One node of a program as the interpreter holds it.
#[derive(Debug, PartialEq, Eq)]
pub enum Ast {
    /// Records the accumulator's value less one.
    Dec,
    /// Records the accumulator's value and one.
    Inc,
    /// Records 0.
    Reset,
    /// Records the square of the accumulator's value.
    Square,
    /// Goes back to the first node of the sequence that holds it.
    JumpStart,
    /// Puts out the accumulator's value as a character.
    Print,
    /// Puts out the accumulator's value in decimal.
    Out,
    /// Defines the block `identifier` as `body`.
    BlockDef { identifier: String, body: Vec<Ast> },
    /// Calls the block `identifier`.
    BlockCall { identifier: String },
}

/// The mathematical model of a node: `Ast` with each name as its sequence of
/// characters.
pub enum Node {
    Dec,
    Inc,
    Reset,
    Square,
    JumpStart,
    Print,
    Out,
    BlockDef { name: Seq<char>, body: Seq<Node> },
    BlockCall { name: Seq<char> },
}

impl View for Ast {
    type V = Node;

    open spec fn view(&self) -> Node
        decreases self,
    {
        match self {
            Ast::Dec => Node::Dec,
            Ast::Inc => Node::Inc,
            Ast::Reset => Node::Reset,
            Ast::Square => Node::Square,
            Ast::JumpStart => Node::JumpStart,
            Ast::Print => Node::Print,
            Ast::Out => Node::Out,
            Ast::BlockDef { identifier, body } => Node::BlockDef {
                name: identifier@,
                body: nodes_view(body@),
            },
            Ast::BlockCall { identifier } => Node::BlockCall { name: identifier@ },
        }
    }
}

impl Clone for Ast {
    /// A copy of the node, equal to it in every part.
    fn clone(&self) -> (copy: Ast)
        ensures
            copy@ == self@,
    {
        clone_node(self)
    }
}

/// The model of a sequence of nodes: the model of each, in order. (The test on
/// the position shows that the recursion ends; within the sequence it always
/// holds.)
pub open spec fn nodes_view(nodes: Seq<Ast>) -> Seq<Node>
    decreases nodes,
{
    Seq::new(
        nodes.len(),
        |i: int|
            if 0 <= i < nodes.len() {
                nodes[i]@
            } else {
                Node::Dec
            },
    )
}

/// A copy of `node`.
pub fn clone_node(node: &Ast) -> (copy: Ast)
    ensures
        copy@ == node@,
    decreases node,
{
    match node {
        Ast::Dec => Ast::Dec,
        Ast::Inc => Ast::Inc,
        Ast::Reset => Ast::Reset,
        Ast::Square => Ast::Square,
        Ast::JumpStart => Ast::JumpStart,
        Ast::Print => Ast::Print,
        Ast::Out => Ast::Out,
        Ast::BlockDef { identifier, body } => {
            let copied = clone_nodes(body);
            Ast::BlockDef { identifier: identifier.clone(), body: copied }
        },
        Ast::BlockCall { identifier } => Ast::BlockCall { identifier: identifier.clone() },
    }
}

/// A copy of `nodes`.
pub fn clone_nodes(nodes: &Vec<Ast>) -> (copy: Vec<Ast>)
    ensures
        nodes_view(copy@) == nodes_view(nodes@),
    decreases nodes,
{
    let mut copy: Vec<Ast> = Vec::new();
    let mut i: usize = 0;
    while i < nodes.len()
        invariant
            i <= nodes.len(),
            copy@.len() == i,
            forall|j: int| 0 <= j < i ==> copy@[j]@ == nodes@[j]@,
        decreases nodes.len() - i,
    {
        copy.push(clone_node(&nodes[i]));
        i += 1;
    }
    copy
}

} // verus!
