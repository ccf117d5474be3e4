//! The grammar of the language, as functions on sequences of characters.
//!
//! A program is read from left to right. The letters `i d s o p r j`, in either
//! case, are instructions. `#` opens a comment that runs to the end of the line,
//! the line feed included.
//! `(name;body)` defines a block and `@name.` calls one. Every other character is
//! passed over. A `)` that closes no definition ends the sequence it stands in,
//! so that at the top level it cuts the program short. A definition or a call
//! that the text does not complete takes the rest of the text with it and yields
//! no node.

use crate::ast::Node;
use vstd::prelude::*;

verus! {

/// The instruction that the character `c` stands for, if it stands for one.
pub open spec fn instruction_of(c: char) -> Option<Node> {
    if c == 'i' || c == 'I' {
        Some(Node::Inc)
    } else if c == 'd' || c == 'D' {
        Some(Node::Dec)
    } else if c == 's' || c == 'S' {
        Some(Node::Square)
    } else if c == 'o' || c == 'O' {
        Some(Node::Out)
    } else if c == 'p' || c == 'P' {
        Some(Node::Print)
    } else if c == 'r' || c == 'R' {
        Some(Node::Reset)
    } else if c == 'j' || c == 'J' {
        Some(Node::JumpStart)
    } else {
        None
    }
}

/// The least position at or after `from` at which `s` holds `mark`, or the
/// length of `s` where there is none.
pub open spec fn find_from(s: Seq<char>, from: int, mark: char) -> int
    decreases s.len() - from,
{
    if from < 0 || from >= s.len() {
        s.len() as int
    } else if s[from] == mark {
        from
    } else {
        find_from(s, from + 1, mark)
    }
}

/// The name of a definition whose name part is `part`: its characters but the
/// spaces.
pub open spec fn definition_name(part: Seq<char>) -> Seq<char> {
    part.filter(|c: char| c != ' ')
}

/// The name of a call whose name part is `part`: its characters but the spaces
/// and the call markers.
pub open spec fn call_name(part: Seq<char>) -> Seq<char> {
    part.filter(|c: char| c != ' ' && c != '@')
}

/// A sequence of nodes read from a text, with the position at which reading
/// stopped: that of the `)` that ended the sequence, or the length of the text.
pub struct Parsed {
    pub nodes: Seq<Node>,
    pub stop: int,
}

/// What stands at one position of a text: the node that it yields, if it
/// yields one, and the position behind it.
pub struct Item {
    pub node: Option<Node>,
    pub next: int,
}

/// What holds of `find_from`: the position it gives is the first one at or
/// after `from` that holds `mark`.
pub proof fn lemma_find_from(s: Seq<char>, from: int, mark: char)
    requires
        0 <= from <= s.len(),
    ensures
        from <= find_from(s, from, mark) <= s.len(),
        find_from(s, from, mark) < s.len() ==> s[find_from(s, from, mark)] == mark,
        forall|i: int| from <= i < find_from(s, from, mark) ==> s[i] != mark,
    decreases s.len() - from,
{
    if from < s.len() && s[from] != mark {
        lemma_find_from(s, from + 1, mark);
    }
}

/// The position behind the line that holds position `from` of `s`: behind the
/// next line feed, or the length of `s` where there is none.
pub open spec fn line_end(s: Seq<char>, from: int) -> int {
    let feed = find_from(s, from, '\n');
    if feed < s.len() {
        feed + 1
    } else {
        s.len() as int
    }
}

/// The sequence `nodes` with the node of an item behind it, where the item has
/// one.
pub open spec fn with_item(nodes: Seq<Node>, node: Option<Node>) -> Seq<Node> {
    match node {
        Some(node) => nodes.push(node),
        None => nodes,
    }
}

/// The definition that begins at position `pos` of `s`: its name runs up to
/// the first `;`, its body from there up to the `)` that ends it. Where `s`
/// holds no `(` at `pos` there is none, and `next` is `pos`.
pub open spec fn definition_at(s: Seq<char>, pos: int) -> Item
    decreases s.len() - pos, 0int,
{
    if pos < 0 || pos >= s.len() || s[pos] != '(' {
        Item { node: None, next: pos }
    } else {
        proof {
            lemma_find_from(s, pos + 1, ';');
        }
        let semi = find_from(s, pos + 1, ';');
        if semi >= s.len() {
            Item { node: None, next: s.len() as int }
        } else {
            let body = parse_from(s, semi + 1);
            if body.stop >= s.len() {
                Item { node: None, next: s.len() as int }
            } else {
                Item {
                    node: Some(
                        Node::BlockDef {
                            name: definition_name(s.subrange(pos + 1, semi)),
                            body: body.nodes,
                        },
                    ),
                    next: body.stop + 1,
                }
            }
        }
    }
}

/// The call that begins at position `pos` of `s`: its name runs up to the first
/// `.`. Where `s` holds no `@` at `pos` there is none, and `next` is `pos`.
pub open spec fn call_at(s: Seq<char>, pos: int) -> Item {
    if pos < 0 || pos >= s.len() || s[pos] != '@' {
        Item { node: None, next: pos }
    } else {
        let dot = find_from(s, pos + 1, '.');
        if dot >= s.len() {
            Item { node: None, next: s.len() as int }
        } else {
            Item {
                node: Some(Node::BlockCall { name: call_name(s.subrange(pos + 1, dot)) }),
                next: dot + 1,
            }
        }
    }
}

/// What stands at position `pos` of `s`, which holds no `)` there: a comment,
/// a definition, a call, an instruction, or a character that is passed over.
pub open spec fn item_at(s: Seq<char>, pos: int) -> Item
    decreases s.len() - pos, 1int,
{
    if pos < 0 || pos >= s.len() {
        Item { node: None, next: pos }
    } else if s[pos] == '#' {
        Item { node: None, next: line_end(s, pos) }
    } else if s[pos] == '(' {
        definition_at(s, pos)
    } else if s[pos] == '@' {
        call_at(s, pos)
    } else {
        Item { node: instruction_of(s[pos]), next: pos + 1 }
    }
}

/// The sequence that starts at position `pos` of `s`: item after item, up to
/// the end of `s` or to a `)` that no item has taken.
///
/// The position behind an item is held against `pos` and the length of `s`
/// before reading goes on there. It always lies between them (see
/// `lemma_item_next`); the test shows that the recursion ends.
pub open spec fn parse_from(s: Seq<char>, pos: int) -> Parsed
    decreases s.len() - pos, 2int,
{
    if pos < 0 || pos >= s.len() {
        Parsed { nodes: Seq::empty(), stop: s.len() as int }
    } else if s[pos] == ')' {
        Parsed { nodes: Seq::empty(), stop: pos }
    } else {
        let item = item_at(s, pos);
        if item.next <= pos || item.next > s.len() {
            Parsed { nodes: Seq::empty(), stop: s.len() as int }
        } else {
            let rest = parse_from(s, item.next);
            Parsed { nodes: with_item(Seq::empty(), item.node) + rest.nodes, stop: rest.stop }
        }
    }
}

/// An item ends behind the position at which it begins, and within the text.
pub proof fn lemma_item_next(s: Seq<char>, pos: int)
    requires
        0 <= pos < s.len(),
        s[pos] != ')',
    ensures
        pos < item_at(s, pos).next <= s.len(),
    decreases s.len() - pos, 0int,
{
    if s[pos] == '#' {
        lemma_find_from(s, pos, '\n');
    } else if s[pos] == '(' {
        lemma_find_from(s, pos + 1, ';');
        let semi = find_from(s, pos + 1, ';');
        if semi < s.len() {
            lemma_parse_stop(s, semi + 1);
        }
    } else if s[pos] == '@' {
        lemma_find_from(s, pos + 1, '.');
    }
}

/// A sequence stops at or behind the position at which it begins: at the end
/// of the text, or at a `)`.
pub proof fn lemma_parse_stop(s: Seq<char>, pos: int)
    requires
        0 <= pos <= s.len(),
    ensures
        pos <= parse_from(s, pos).stop <= s.len(),
        parse_from(s, pos).stop < s.len() ==> s[parse_from(s, pos).stop] == ')',
    decreases s.len() - pos, 1int,
{
    if pos < s.len() && s[pos] != ')' {
        lemma_item_next(s, pos);
        lemma_parse_stop(s, item_at(s, pos).next);
    }
}

/// A sequence is its first item and then the sequence behind that item.
pub proof fn lemma_parse_step(s: Seq<char>, pos: int)
    requires
        0 <= pos < s.len(),
        s[pos] != ')',
    ensures
        parse_from(s, pos).nodes == with_item(Seq::empty(), item_at(s, pos).node) + parse_from(
            s,
            item_at(s, pos).next,
        ).nodes,
        parse_from(s, pos).stop == parse_from(s, item_at(s, pos).next).stop,
{
    lemma_item_next(s, pos);
}

/// The nodes of the program `s`.
pub open spec fn parse(s: Seq<char>) -> Seq<Node> {
    parse_from(s, 0).nodes
}

} // verus!
