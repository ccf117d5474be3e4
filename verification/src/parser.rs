//! Reading a program from its text.

use crate::ast::{nodes_view, Ast};
use crate::grammar::{
    call_at, call_name, definition_at, definition_name, find_from, instruction_of, item_at,
    lemma_find_from, lemma_item_next, line_end, parse, parse_from, with_item,
};
use crate::machine::Deadfish;
use crate::text::to_chars;
use vstd::prelude::*;

verus! {

/// The instruction that `c` stands for, if it stands for one.
fn instruction_for(c: char) -> (found: Option<Ast>)
    ensures
        match found {
            Some(node) => instruction_of(c) == Some(node@),
            None => instruction_of(c) is None,
        },
{
    if c == 'i' || c == 'I' {
        Some(Ast::Inc)
    } else if c == 'd' || c == 'D' {
        Some(Ast::Dec)
    } else if c == 's' || c == 'S' {
        Some(Ast::Square)
    } else if c == 'o' || c == 'O' {
        Some(Ast::Out)
    } else if c == 'p' || c == 'P' {
        Some(Ast::Print)
    } else if c == 'r' || c == 'R' {
        Some(Ast::Reset)
    } else if c == 'j' || c == 'J' {
        Some(Ast::JumpStart)
    } else {
        None
    }
}

/// The first position at or after `from` that holds `mark`, or the length of
/// the text.
fn scan_to(text: &Vec<char>, from: usize, mark: char) -> (at: usize)
    requires
        from <= text.len(),
    ensures
        at == find_from(text@, from as int, mark),
{
    let mut at: usize = from;
    while at < text.len() && text[at] != mark
        invariant
            from <= at <= text.len(),
            find_from(text@, from as int, mark) == find_from(text@, at as int, mark),
        decreases text.len() - at,
    {
        at += 1;
    }
    at
}

/// The position behind the line that holds `from`.
fn skip_line(text: &Vec<char>, from: usize) -> (next: usize)
    requires
        from <= text.len(),
    ensures
        next == line_end(text@, from as int),
{
    proof {
        lemma_find_from(text@, from as int, '\n');
    }
    let feed = scan_to(text, from, '\n');
    if feed < text.len() {
        feed + 1
    } else {
        feed
    }
}

/// The name of the definition whose name part lies between `from` and `to`.
fn read_definition_name(text: &Vec<char>, from: usize, to: usize) -> (name: String)
    requires
        from <= to <= text.len(),
    ensures
        name@ == definition_name(text@.subrange(from as int, to as int)),
{
    let mut name = String::new();
    let mut i: usize = from;
    proof {
        reveal(Seq::filter);
    }
    while i < to
        invariant
            from <= i <= to <= text.len(),
            name@ == definition_name(text@.subrange(from as int, i as int)),
        decreases to - i,
    {
        let c = text[i];
        proof {
            reveal(Seq::filter);
            let part = text@.subrange(from as int, i + 1);
            assert(part.drop_last() =~= text@.subrange(from as int, i as int));
        }
        if c != ' ' {
            name.push(c);
        }
        i += 1;
    }
    name
}

/// The name of the call whose name part lies between `from` and `to`.
fn read_call_name(text: &Vec<char>, from: usize, to: usize) -> (name: String)
    requires
        from <= to <= text.len(),
    ensures
        name@ == call_name(text@.subrange(from as int, to as int)),
{
    let mut name = String::new();
    let mut i: usize = from;
    proof {
        reveal(Seq::filter);
    }
    while i < to
        invariant
            from <= i <= to <= text.len(),
            name@ == call_name(text@.subrange(from as int, i as int)),
        decreases to - i,
    {
        let c = text[i];
        proof {
            reveal(Seq::filter);
            let part = text@.subrange(from as int, i + 1);
            assert(part.drop_last() =~= text@.subrange(from as int, i as int));
        }
        if c != ' ' && c != '@' {
            name.push(c);
        }
        i += 1;
    }
    name
}

/// Reads the definition that begins at `pos` and puts it behind `nodes`.
fn read_definition(text: &Vec<char>, pos: usize, nodes: &mut Vec<Ast>) -> (next: usize)
    ensures
        next == definition_at(text@, pos as int).next,
        nodes_view(final(nodes)@) == with_item(
            nodes_view(old(nodes)@),
            definition_at(text@, pos as int).node,
        ),
    decreases text.len() - pos, 0int,
{
    if pos >= text.len() || text[pos] != '(' {
        return pos;
    }
    proof {
        lemma_find_from(text@, pos + 1, ';');
    }
    let semi = scan_to(text, pos + 1, ';');
    if semi >= text.len() {
        return text.len();
    }
    let name = read_definition_name(text, pos + 1, semi);
    let (body, stop) = read_sequence(text, semi + 1);
    if stop >= text.len() {
        return text.len();
    }
    let ghost before = nodes@;
    let node = Ast::BlockDef { identifier: name, body };
    nodes.push(node);
    proof {
        assert(nodes_view(nodes@) =~= nodes_view(before).push(node@));
    }
    stop + 1
}

/// Reads the call that begins at `pos` and puts it behind `nodes`.
fn read_call(text: &Vec<char>, pos: usize, nodes: &mut Vec<Ast>) -> (next: usize)
    ensures
        next == call_at(text@, pos as int).next,
        nodes_view(final(nodes)@) == with_item(
            nodes_view(old(nodes)@),
            call_at(text@, pos as int).node,
        ),
{
    if pos >= text.len() || text[pos] != '@' {
        return pos;
    }
    proof {
        lemma_find_from(text@, pos + 1, '.');
    }
    let dot = scan_to(text, pos + 1, '.');
    if dot >= text.len() {
        return text.len();
    }
    let name = read_call_name(text, pos + 1, dot);
    let ghost before = nodes@;
    let node = Ast::BlockCall { identifier: name };
    nodes.push(node);
    proof {
        assert(nodes_view(nodes@) =~= nodes_view(before).push(node@));
    }
    dot + 1
}

/// Reads the sequence that begins at `start`, and says where it stopped.
fn read_sequence(text: &Vec<char>, start: usize) -> (read: (Vec<Ast>, usize))
    requires
        start <= text.len(),
    ensures
        nodes_view(read.0@) == parse_from(text@, start as int).nodes,
        read.1 == parse_from(text@, start as int).stop,
    decreases text.len() - start, 2int,
{
    let mut nodes: Vec<Ast> = Vec::new();
    let mut pos: usize = start;
    while pos < text.len() && text[pos] != ')'
        invariant
            start <= pos <= text.len(),
            parse_from(text@, start as int).stop == parse_from(text@, pos as int).stop,
            parse_from(text@, start as int).nodes == nodes_view(nodes@) + parse_from(
                text@,
                pos as int,
            ).nodes,
        decreases text.len() - pos,
    {
        let ghost before = nodes_view(nodes@);
        let ghost here = pos as int;
        proof {
            lemma_item_next(text@, here);
        }
        let c = text[pos];
        if c == '#' {
            pos = skip_line(text, pos);
        } else if c == '(' {
            pos = read_definition(text, pos, &mut nodes);
        } else if c == '@' {
            pos = read_call(text, pos, &mut nodes);
        } else {
            match instruction_for(c) {
                Some(node) => {
                    let ghost old_nodes = nodes@;
                    nodes.push(node);
                    proof {
                        assert(nodes_view(nodes@) =~= nodes_view(old_nodes).push(node@));
                    }
                },
                None => {},
            }
            pos += 1;
        }
        proof {
            let item = item_at(text@, here);
            assert(pos == item.next);
            assert(nodes_view(nodes@) == with_item(before, item.node));
            assert(with_item(before, item.node) + parse_from(text@, pos as int).nodes =~= before
                + (with_item(Seq::empty(), item.node) + parse_from(text@, pos as int).nodes));
        }
    }
    (nodes, pos)
}

/// The nodes of the program `text`.
pub(crate) fn read_program(text: &Vec<char>) -> (ast: Vec<Ast>)
    ensures
        nodes_view(ast@) == parse(text@),
{
    let (nodes, _) = read_sequence(text, 0);
    nodes
}

impl Deadfish {
    /// The length of the comment that `program_at` begins with: the number of
    /// its characters up to and with the first line feed, or all of them
    /// where it holds none.
    pub fn try_parse_comment(program_at: &str) -> (advance: usize)
        ensures
            advance == line_end(program_at@, 0),
            advance <= program_at@.len(),
            forall|i: int| 0 <= i < advance - 1 ==> program_at@[i] != '\n',
            advance < program_at@.len() ==> program_at@[advance - 1] == '\n',
    {
        let text = to_chars(program_at);
        proof {
            lemma_find_from(text@, 0, '\n');
        }
        skip_line(&text, 0)
    }

    /// Reads the definition that `program_at` begins with and puts it behind
    /// `ast`. Gives the number of characters that were taken: none where
    /// `program_at` does not begin with `(`, all of them where it does not
    /// complete the definition; in both cases `ast` stays as it is.
    pub fn try_parse_blockdef(program_at: &str, ast: &mut Vec<Ast>) -> (advance: usize)
        ensures
            advance == definition_at(program_at@, 0).next,
            nodes_view(final(ast)@) == with_item(
                nodes_view(old(ast)@),
                definition_at(program_at@, 0).node,
            ),
    {
        let text = to_chars(program_at);
        read_definition(&text, 0, ast)
    }

    /// Reads the call that `program_at` begins with and puts it behind `ast`.
    /// Gives the number of characters that were taken: none where `program_at`
    /// does not begin with `@`, all of them where it does not complete the
    /// call; in both cases `ast` stays as it is.
    pub fn try_parse_blockcall(program_at: &str, ast: &mut Vec<Ast>) -> (advance: usize)
        ensures
            advance == call_at(program_at@, 0).next,
            nodes_view(final(ast)@) == with_item(
                nodes_view(old(ast)@),
                call_at(program_at@, 0).node,
            ),
    {
        let text = to_chars(program_at);
        read_call(&text, 0, ast)
    }

    /// The nodes of `program`.
    pub fn try_parse(program: &str) -> (ast: Vec<Ast>)
        ensures
            nodes_view(ast@) == parse(program@),
    {
        let text = to_chars(program);
        read_program(&text)
    }
}

} // verus!
