//! Writing a program back as text.

use crate::ast::{nodes_view, Ast, Node};
use crate::table::{names_view, SymbolTable};
use crate::grammar::{
    call_name, definition_name, find_from, instruction_of, item_at, parse, parse_from, Item,
    Parsed,
};
use vstd::prelude::*;
use vstd::string::*;

verus! {

/// The letter of an instruction. A node that is none has no letter, and a
/// space stands for it.
pub open spec fn letter(node: Node) -> char {
    match node {
        Node::Dec => 'd',
        Node::Inc => 'i',
        Node::Reset => 'r',
        Node::Square => 's',
        Node::JumpStart => 'j',
        Node::Print => 'p',
        Node::Out => 'o',
        _ => ' ',
    }
}

/// The text of one node: the letter of an instruction, `(name;body)` for a
/// definition, `@name.` for a call.
pub open spec fn node_text(node: Node) -> Seq<char>
    decreases node,
{
    match node {
        Node::BlockDef { name, body } => seq!['('] + name + seq![';'] + text_of(body) + seq![')'],
        Node::BlockCall { name } => seq!['@'] + name + seq!['.'],
        _ => seq![letter(node)],
    }
}

/// The text of a sequence of nodes: the texts of its nodes, one behind the
/// other.
pub open spec fn text_of(nodes: Seq<Node>) -> Seq<char>
    decreases nodes,
{
    if nodes.len() == 0 {
        Seq::empty()
    } else {
        text_of(nodes.drop_last()) + node_text(nodes.last())
    }
}

/// Whether `nodes` holds instructions only: no definition and no call.
pub open spec fn plain(nodes: Seq<Node>) -> bool {
    forall|i: int|
        0 <= i < nodes.len() ==> !(#[trigger] nodes[i] is BlockDef) && !(nodes[i] is BlockCall)
}

/// Puts the text of `node` behind `out`.
fn push_node(out: &mut String, node: &Ast)
    ensures
        final(out)@ == old(out)@ + node_text(node@),
    decreases node,
{
    match node {
        Ast::Dec => out.push('d'),
        Ast::Inc => out.push('i'),
        Ast::Reset => out.push('r'),
        Ast::Square => out.push('s'),
        Ast::JumpStart => out.push('j'),
        Ast::Print => out.push('p'),
        Ast::Out => out.push('o'),
        Ast::BlockDef { identifier, body } => {
            out.push('(');
            out.append(identifier.as_str());
            out.push(';');
            push_nodes(out, body);
            out.push(')');
        },
        Ast::BlockCall { identifier } => {
            out.push('@');
            out.append(identifier.as_str());
            out.push('.');
        },
    }
    proof {
        assert(out@ =~= old(out)@ + node_text(node@));
    }
}

/// Puts the text of `nodes` behind `out`.
fn push_nodes(out: &mut String, nodes: &Vec<Ast>)
    ensures
        final(out)@ == old(out)@ + text_of(nodes_view(nodes@)),
    decreases nodes,
{
    let ghost all = nodes_view(nodes@);
    let mut i: usize = 0;
    proof {
        assert(old(out)@ + text_of(all.take(0)) =~= old(out)@);
    }
    while i < nodes.len()
        invariant
            i <= nodes.len(),
            all == nodes_view(nodes@),
            out@ == old(out)@ + text_of(all.take(i as int)),
        decreases nodes.len() - i,
    {
        push_node(out, &nodes[i]);
        proof {
            let upto = all.take(i + 1);
            assert(upto.drop_last() =~= all.take(i as int));
            assert(upto.last() == nodes@[i as int]@);
            assert(out@ =~= old(out)@ + text_of(upto));
        }
        i += 1;
    }
    proof {
        assert(all.take(nodes.len() as int) =~= all);
    }
}

/// The text of `nodes`.
pub fn to_source(nodes: &Vec<Ast>) -> (text: String)
    ensures
        text@ == text_of(nodes_view(nodes@)),
{
    let mut text = String::new();
    push_nodes(&mut text, nodes);
    text
}

/// The definitions of the blocks `table`, in the order `names`.
pub open spec fn definitions(names: Seq<Seq<char>>, table: Map<Seq<char>, Seq<Node>>) -> Seq<
    Node,
> {
    Seq::new(names.len(), |i: int| Node::BlockDef { name: names[i], body: table[names[i]] })
}

/// The text of the blocks of `table`: the definition of each, in the order in
/// which they were first defined.
pub fn table_source(table: &SymbolTable) -> (text: String)
    ensures
        text@ == text_of(definitions(table.order(), table@)),
{
    let names = table.names();
    let ghost all = definitions(table.order(), table@);
    let mut text = String::new();
    let mut i: usize = 0;
    proof {
        assert(text_of(all.take(0)) =~= text@);
    }
    while i < names.len()
        invariant
            i <= names.len(),
            names_view(names@) == table.order(),
            table.order().to_set() == table@.dom(),
            all == definitions(table.order(), table@),
            text@ == text_of(all.take(i as int)),
        decreases names.len() - i,
    {
        let name = &names[i];
        let ghost before = text@;
        proof {
            assert(table.order()[i as int] == name@);
            assert(table.order().to_set().contains(name@));
        }
        match table.get(name) {
            Some(body) => {
                text.push('(');
                text.append(name.as_str());
                text.push(';');
                push_nodes(&mut text, body);
                text.push(')');
            },
            None => {},
        }
        proof {
            let upto = all.take(i + 1);
            assert(upto.drop_last() =~= all.take(i as int));
            assert(upto.last() == all[i as int]);
            assert(text@ =~= before + node_text(all[i as int]));
        }
        i += 1;
    }
    proof {
        assert(all.take(names.len() as int) =~= all);
    }
    text
}

/// Whether `name` can be written as the name of a definition and read back: it
/// holds no space and no `;`.
pub open spec fn definable(name: Seq<char>) -> bool {
    forall|i: int| 0 <= i < name.len() ==> #[trigger] name[i] != ' ' && name[i] != ';'
}

/// Whether `name` can be written as the name of a call and read back: it holds
/// no space, no `@` and no `.`.
pub open spec fn callable(name: Seq<char>) -> bool {
    forall|i: int|
        0 <= i < name.len() ==> #[trigger] name[i] != ' ' && name[i] != '@' && name[i] != '.'
}

/// Whether the text of `node` can be read back: each name in it can.
pub open spec fn readable(node: Node) -> bool
    decreases node,
{
    match node {
        Node::BlockDef { name, body } => definable(name) && all_readable(body),
        Node::BlockCall { name } => callable(name),
        _ => true,
    }
}

/// Whether the text of `nodes` can be read back.
pub open spec fn all_readable(nodes: Seq<Node>) -> bool
    decreases nodes,
{
    forall|i: int| 0 <= i < nodes.len() ==> readable(#[trigger] nodes[i])
}

/// The text of two sequences, one behind the other, is the text of the first
/// and then that of the second.
pub proof fn lemma_text_append(front: Seq<Node>, back: Seq<Node>)
    ensures
        text_of(front + back) == text_of(front) + text_of(back),
    decreases back.len(),
{
    if back.len() == 0 {
        assert(front + back =~= front);
        assert(text_of(front) + text_of(back) =~= text_of(front));
    } else {
        let all = front + back;
        assert(all.drop_last() =~= front + back.drop_last());
        assert(all.last() == back.last());
        lemma_text_append(front, back.drop_last());
        assert(text_of(all) =~= text_of(front) + text_of(back));
    }
}

/// The text of a sequence begins with the text of its first node.
proof fn lemma_text_first(nodes: Seq<Node>)
    requires
        nodes.len() > 0,
    ensures
        text_of(nodes) == node_text(nodes[0]) + text_of(nodes.drop_first()),
{
    let first = seq![nodes[0]];
    assert(text_of(first.drop_last()) =~= Seq::<char>::empty());
    assert(first.last() == nodes[0]);
    assert(text_of(first) =~= node_text(nodes[0]));
    assert(first + nodes.drop_first() =~= nodes);
    lemma_text_append(first, nodes.drop_first());
}

/// Where `s` holds `mark` at `at` and not between `from` and `at`, the search
/// from `from` ends at `at`.
proof fn lemma_find_exact(s: Seq<char>, from: int, mark: char, at: int)
    requires
        0 <= from <= at < s.len(),
        s[at] == mark,
        forall|i: int| from <= i < at ==> s[i] != mark,
    ensures
        find_from(s, from, mark) == at,
    decreases at - from,
{
    if from < at {
        lemma_find_exact(s, from + 1, mark, at);
    }
}

/// A name part without spaces is the name.
proof fn lemma_definition_name(part: Seq<char>)
    requires
        forall|i: int| 0 <= i < part.len() ==> part[i] != ' ',
    ensures
        definition_name(part) == part,
    decreases part.len(),
{
    reveal(Seq::filter);
    if part.len() > 0 {
        lemma_definition_name(part.drop_last());
        assert(part.drop_last().push(part.last()) =~= part);
    }
}

/// A name part without spaces and call markers is the name.
proof fn lemma_call_name(part: Seq<char>)
    requires
        forall|i: int| 0 <= i < part.len() ==> part[i] != ' ' && part[i] != '@',
    ensures
        call_name(part) == part,
    decreases part.len(),
{
    reveal(Seq::filter);
    if part.len() > 0 {
        lemma_call_name(part.drop_last());
        assert(part.drop_last().push(part.last()) =~= part);
    }
}

/// Whether `s` holds `text` from the position `pos` on.
pub open spec fn holds_at(s: Seq<char>, pos: int, text: Seq<char>) -> bool {
    0 <= pos && pos + text.len() <= s.len() && s.subrange(pos, pos + text.len()) == text
}

/// Where `s` holds the text of a node at `pos`, reading finds the node there
/// and ends behind its text.
proof fn lemma_read_node(s: Seq<char>, pos: int, node: Node)
    requires
        readable(node),
        holds_at(s, pos, node_text(node)),
    ensures
        s[pos] != ')',
        item_at(s, pos) == (Item { node: Some(node), next: pos + node_text(node).len() }),
    decreases node, 0int,
{
    let text = node_text(node);
    assert forall|i: int| 0 <= i < text.len() implies s[pos + i] == text[i] by {
        assert(s.subrange(pos, pos + text.len())[i] == s[pos + i]);
    }
    match node {
        Node::BlockDef { name, body } => {
            let semi = pos + 1 + name.len();
            let close = semi + 1 + text_of(body).len();
            assert(text.len() == name.len() + text_of(body).len() + 3);
            assert(s[pos] == text[0]);
            assert(s[semi] == text[semi - pos]);
            assert(s[close] == text[text.len() - 1]);
            assert forall|i: int| pos + 1 <= i < semi implies s[i] != ';' by {
                assert(s[pos + (i - pos)] == text[i - pos]);
                assert(text[i - pos] == name[i - pos - 1]);
            }
            lemma_find_exact(s, pos + 1, ';', semi);
            assert(s.subrange(pos + 1, semi) =~= name) by {
                assert forall|i: int| 0 <= i < name.len() implies s[pos + 1 + i] == name[i] by {
                    assert(s[pos + (1 + i)] == text[1 + i]);
                }
            }
            lemma_definition_name(name);
            assert(s.subrange(semi + 1, semi + 1 + text_of(body).len()) =~= text_of(body)) by {
                assert forall|i: int| 0 <= i < text_of(body).len() implies s[semi + 1 + i]
                    == text_of(body)[i] by {
                    assert(s[pos + (2 + name.len() + i)] == text[2 + name.len() + i]);
                }
            }
            lemma_read_back(s, semi + 1, body);
        },
        Node::BlockCall { name } => {
            let dot = pos + 1 + name.len();
            assert(text.len() == name.len() + 2);
            assert(s[pos] == text[0]);
            assert(s[dot] == text[text.len() - 1]);
            assert forall|i: int| pos + 1 <= i < dot implies s[i] != '.' by {
                assert(s[pos + (i - pos)] == text[i - pos]);
                assert(text[i - pos] == name[i - pos - 1]);
            }
            lemma_find_exact(s, pos + 1, '.', dot);
            assert(s.subrange(pos + 1, dot) =~= name) by {
                assert forall|i: int| 0 <= i < name.len() implies s[pos + 1 + i] == name[i] by {
                    assert(s[pos + (1 + i)] == text[1 + i]);
                }
            }
            lemma_call_name(name);
        },
        _ => {
            assert(s[pos] == text[0]);
            assert(instruction_of(letter(node)) == Some(node));
        },
    }
}

/// Where `s` holds the text of `nodes` at `pos`, and behind it ends or holds a
/// `)`, reading from `pos` gives `nodes` and stops behind their text.
pub proof fn lemma_read_back(s: Seq<char>, pos: int, nodes: Seq<Node>)
    requires
        all_readable(nodes),
        holds_at(s, pos, text_of(nodes)),
        pos + text_of(nodes).len() == s.len() || s[pos + text_of(nodes).len()] == ')',
    ensures
        parse_from(s, pos) == (Parsed { nodes, stop: pos + text_of(nodes).len() }),
    decreases nodes, 1int,
{
    if nodes.len() == 0 {
        assert(parse_from(s, pos).nodes =~= nodes);
    } else {
        let first = nodes[0];
        let rest = nodes.drop_first();
        let text = text_of(nodes);
        let next = pos + node_text(first).len();
        lemma_text_first(nodes);
        assert forall|i: int| 0 <= i < text.len() implies s[pos + i] == text[i] by {
            assert(s.subrange(pos, pos + text.len())[i] == s[pos + i]);
        }
        assert(s.subrange(pos, next) =~= node_text(first)) by {
            assert forall|i: int| 0 <= i < node_text(first).len() implies s[pos + i]
                == node_text(first)[i] by {
                assert(text[i] == node_text(first)[i]);
            }
        }
        assert(s.subrange(next, next + text_of(rest).len()) =~= text_of(rest)) by {
            assert forall|i: int| 0 <= i < text_of(rest).len() implies s[next + i] == text_of(
                rest,
            )[i] by {
                assert(s[pos + (node_text(first).len() + i)] == text[node_text(first).len() + i]);
            }
        }
        assert(readable(first));
        assert(all_readable(rest)) by {
            assert forall|i: int| 0 <= i < rest.len() implies readable(#[trigger] rest[i]) by {
                assert(rest[i] == nodes[i + 1]);
            }
        }
        lemma_read_node(s, pos, first);
        lemma_read_back(s, next, rest);
        assert(seq![first] + rest =~= nodes);
        assert(parse_from(s, pos).nodes =~= nodes);
    }
}

/// Reading the text of a program gives the program back, where each name in it
/// can be read back.
pub proof fn lemma_round_trip(nodes: Seq<Node>)
    requires
        all_readable(nodes),
    ensures
        parse(text_of(nodes)) == nodes,
{
    let text = text_of(nodes);
    assert(text.subrange(0, text.len() as int) =~= text);
    lemma_read_back(text, 0, nodes);
}

/// Reading the text of instructions gives the instructions back.
pub proof fn lemma_round_trip_plain(nodes: Seq<Node>)
    requires
        plain(nodes),
    ensures
        parse(text_of(nodes)) == nodes,
{
    assert forall|i: int| 0 <= i < nodes.len() implies readable(#[trigger] nodes[i]) by {
        assert(!(nodes[i] is BlockDef) && !(nodes[i] is BlockCall));
    }
    lemma_round_trip(nodes);
}

} // verus!
