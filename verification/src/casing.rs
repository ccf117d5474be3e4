//! Letter case in programs.
//!
//! The letters of the instructions count in either case, and no marker is a
//! letter. So a program in lower case reads as the program itself does, but for
//! the names in it, which come out in lower case.

use crate::ast::Node;
use crate::grammar::{
    call_name, definition_name, find_from, instruction_of, item_at, lemma_find_from,
    lemma_item_next, parse, parse_from,
};
use crate::text::{lower, lowered};
use vstd::prelude::*;

verus! {

/// The node `node` with each name in it in lower case.
pub open spec fn lowered_node(node: Node) -> Node
    decreases node,
{
    match node {
        Node::BlockDef { name, body } => Node::BlockDef {
            name: lowered(name),
            body: lowered_nodes(body),
        },
        Node::BlockCall { name } => Node::BlockCall { name: lowered(name) },
        _ => node,
    }
}

/// The nodes `nodes` with each name in them in lower case.
pub open spec fn lowered_nodes(nodes: Seq<Node>) -> Seq<Node>
    decreases nodes,
{
    Seq::new(
        nodes.len(),
        |i: int|
            if 0 <= i < nodes.len() {
                lowered_node(nodes[i])
            } else {
                Node::Dec
            },
    )
}

/// The node of an item with each name in it in lower case.
pub open spec fn lowered_item(node: Option<Node>) -> Option<Node> {
    match node {
        Some(node) => Some(lowered_node(node)),
        None => None,
    }
}

/// Whether `c` is a letter of the ASCII alphabet.
pub open spec fn is_letter(c: char) -> bool {
    ('A' <= c && c <= 'Z') || ('a' <= c && c <= 'z')
}

/// A character that is no letter stands in the lower case of a text where it
/// stands in the text.
proof fn lemma_lower_mark(c: char, mark: char)
    requires
        !is_letter(mark),
    ensures
        (lower(c) == mark) == (c == mark),
{
}

/// The letter of an instruction counts in either case.
pub proof fn lemma_lower_instruction(c: char)
    ensures
        instruction_of(lower(c)) == instruction_of(c),
        instruction_of(c) is Some ==> lowered_node(instruction_of(c)->0) == instruction_of(c)->0,
{
}

/// A part of a text in lower case is the lower case of the part.
proof fn lemma_lowered_part(s: Seq<char>, from: int, to: int)
    requires
        0 <= from <= to <= s.len(),
    ensures
        lowered(s).subrange(from, to) == lowered(s.subrange(from, to)),
{
    assert(lowered(s).subrange(from, to) =~= lowered(s.subrange(from, to)));
}

/// A marker is found in the lower case of a text where it is found in the
/// text.
proof fn lemma_find_lowered(s: Seq<char>, from: int, mark: char)
    requires
        !is_letter(mark),
    ensures
        find_from(lowered(s), from, mark) == find_from(s, from, mark),
    decreases s.len() - from,
{
    if 0 <= from < s.len() {
        lemma_lower_mark(s[from], mark);
        if s[from] != mark {
            lemma_find_lowered(s, from + 1, mark);
        }
    }
}

/// The name of a definition in lower case is the name of its name part in
/// lower case.
proof fn lemma_definition_name_lowered(part: Seq<char>)
    ensures
        definition_name(lowered(part)) == lowered(definition_name(part)),
    decreases part.len(),
{
    reveal(Seq::filter);
    if part.len() > 0 {
        let front = part.drop_last();
        lemma_definition_name_lowered(front);
        lemma_lower_mark(part.last(), ' ');
        assert(lowered(part).drop_last() =~= lowered(front));
        assert(lowered(part).last() == lower(part.last()));
        assert(lowered(definition_name(front).push(part.last())) =~= lowered(
            definition_name(front),
        ).push(lower(part.last())));
    } else {
        assert(lowered(part) =~= part);
        assert(lowered(definition_name(part)) =~= definition_name(part));
    }
}

/// The name of a call in lower case is the name of its name part in lower
/// case.
proof fn lemma_call_name_lowered(part: Seq<char>)
    ensures
        call_name(lowered(part)) == lowered(call_name(part)),
    decreases part.len(),
{
    reveal(Seq::filter);
    if part.len() > 0 {
        let front = part.drop_last();
        lemma_call_name_lowered(front);
        lemma_lower_mark(part.last(), ' ');
        lemma_lower_mark(part.last(), '@');
        assert(lowered(part).drop_last() =~= lowered(front));
        assert(lowered(part).last() == lower(part.last()));
        assert(lowered(call_name(front).push(part.last())) =~= lowered(call_name(front)).push(
            lower(part.last()),
        ));
    } else {
        assert(lowered(part) =~= part);
        assert(lowered(call_name(part)) =~= call_name(part));
    }
}

/// An item of a text in lower case is the item of the text, with its names in
/// lower case.
proof fn lemma_item_lowered(s: Seq<char>, pos: int)
    requires
        0 <= pos < s.len(),
        s[pos] != ')',
    ensures
        item_at(lowered(s), pos).node == lowered_item(item_at(s, pos).node),
        item_at(lowered(s), pos).next == item_at(s, pos).next,
    decreases s.len() - pos, 0int,
{
    let low = lowered(s);
    lemma_lower_mark(s[pos], '#');
    lemma_lower_mark(s[pos], '(');
    lemma_lower_mark(s[pos], '@');
    if s[pos] == '#' {
        lemma_find_lowered(s, pos, '\n');
        lemma_find_from(s, pos, '\n');
    } else if s[pos] == '(' {
        lemma_find_lowered(s, pos + 1, ';');
        lemma_find_from(s, pos + 1, ';');
        let semi = find_from(s, pos + 1, ';');
        if semi < s.len() {
            lemma_parse_lowered(s, semi + 1);
            lemma_lowered_part(s, pos + 1, semi);
            lemma_definition_name_lowered(s.subrange(pos + 1, semi));
        }
    } else if s[pos] == '@' {
        lemma_find_lowered(s, pos + 1, '.');
        lemma_find_from(s, pos + 1, '.');
        let dot = find_from(s, pos + 1, '.');
        if dot < s.len() {
            lemma_lowered_part(s, pos + 1, dot);
            lemma_call_name_lowered(s.subrange(pos + 1, dot));
        }
    } else {
        lemma_lower_instruction(s[pos]);
    }
}

/// A sequence of a text in lower case is the sequence of the text, with its
/// names in lower case; it stops where that one stops.
pub proof fn lemma_parse_lowered(s: Seq<char>, pos: int)
    requires
        0 <= pos <= s.len(),
    ensures
        parse_from(lowered(s), pos).nodes == lowered_nodes(parse_from(s, pos).nodes),
        parse_from(lowered(s), pos).stop == parse_from(s, pos).stop,
    decreases s.len() - pos, 1int,
{
    let low = lowered(s);
    if pos < s.len() {
        lemma_lower_mark(s[pos], ')');
        if s[pos] != ')' {
            lemma_item_next(s, pos);
            lemma_item_lowered(s, pos);
            let item = item_at(s, pos);
            lemma_parse_lowered(s, item.next);
            assert(parse_from(low, pos).nodes =~= lowered_nodes(parse_from(s, pos).nodes));
        } else {
            assert(parse_from(low, pos).nodes =~= lowered_nodes(parse_from(s, pos).nodes));
        }
    } else {
        assert(parse_from(low, pos).nodes =~= lowered_nodes(parse_from(s, pos).nodes));
    }
}

/// Reading a program in lower case gives what reading the program gives, with
/// the names in lower case.
pub proof fn lemma_case(s: Seq<char>)
    ensures
        parse(lowered(s)) == lowered_nodes(parse(s)),
{
    lemma_parse_lowered(s, 0);
}

} // verus!
