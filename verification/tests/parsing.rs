use doumi::ast::Ast;
use doumi::machine::Deadfish;

fn def(name: &str, body: Vec<Ast>) -> Ast {
    Ast::BlockDef { identifier: name.to_string(), body }
}

fn call(name: &str) -> Ast {
    Ast::BlockCall { identifier: name.to_string() }
}

#[test]
fn instructions_are_read_in_order() {
    assert_eq!(
        Deadfish::try_parse("idsoprj"),
        vec![Ast::Inc, Ast::Dec, Ast::Square, Ast::Out, Ast::Print, Ast::Reset, Ast::JumpStart]
    );
}

#[test]
fn capital_letters_are_instructions_too() {
    assert_eq!(
        Deadfish::try_parse("IDSOPRJ"),
        vec![Ast::Inc, Ast::Dec, Ast::Square, Ast::Out, Ast::Print, Ast::Reset, Ast::JumpStart]
    );
}

#[test]
fn other_characters_are_passed_over() {
    assert_eq!(Deadfish::try_parse(" i\tx\ni;.z "), vec![Ast::Inc, Ast::Inc]);
    assert_eq!(Deadfish::try_parse(""), Vec::<Ast>::new());
}

#[test]
fn text_outside_ascii_is_passed_over() {
    assert_eq!(Deadfish::try_parse("i\u{e9}i\u{1f41f}d"), vec![Ast::Inc, Ast::Inc, Ast::Dec]);
}

#[test]
fn a_comment_runs_to_the_end_of_the_line() {
    assert_eq!(Deadfish::try_parse("i#ddd\nis"), vec![Ast::Inc, Ast::Inc, Ast::Square]);
    assert_eq!(Deadfish::try_parse("i#dd # dd\ni"), vec![Ast::Inc, Ast::Inc]);
}

#[test]
fn a_comment_may_end_with_the_text() {
    assert_eq!(Deadfish::try_parse("i#ddd"), vec![Ast::Inc]);
    assert_eq!(Deadfish::try_parse("#"), Vec::<Ast>::new());
}

#[test]
fn a_definition_holds_its_body() {
    assert_eq!(
        Deadfish::try_parse("(b;rii)"),
        vec![def("b", vec![Ast::Reset, Ast::Inc, Ast::Inc])]
    );
}

#[test]
fn a_definition_stands_in_the_outer_sequence() {
    assert_eq!(
        Deadfish::try_parse("i(b;d)s"),
        vec![Ast::Inc, def("b", vec![Ast::Dec]), Ast::Square]
    );
}

#[test]
fn definitions_nest() {
    assert_eq!(
        Deadfish::try_parse("(a;(b;i)d)i"),
        vec![def("a", vec![def("b", vec![Ast::Inc]), Ast::Dec]), Ast::Inc]
    );
    assert_eq!(
        Deadfish::try_parse("(a;(b;(c;s)))o"),
        vec![def("a", vec![def("b", vec![def("c", vec![Ast::Square])])]), Ast::Out]
    );
}

#[test]
fn a_name_leaves_out_spaces() {
    assert_eq!(Deadfish::try_parse("( my blk ;i)"), vec![def("myblk", vec![Ast::Inc])]);
    assert_eq!(Deadfish::try_parse("(;i)"), vec![def("", vec![Ast::Inc])]);
}

#[test]
fn a_name_keeps_every_other_character() {
    assert_eq!(Deadfish::try_parse("(a)b(\n;i)"), vec![def("a)b(\n", vec![Ast::Inc])]);
    assert_eq!(Deadfish::try_parse("(Ab;i)"), vec![def("Ab", vec![Ast::Inc])]);
}

#[test]
fn a_call_names_its_block() {
    assert_eq!(Deadfish::try_parse("@b."), vec![call("b")]);
    assert_eq!(Deadfish::try_parse("i@blk.d"), vec![Ast::Inc, call("blk"), Ast::Dec]);
}

#[test]
fn a_call_name_leaves_out_spaces_and_markers() {
    assert_eq!(Deadfish::try_parse("@ a@b ."), vec![call("ab")]);
    assert_eq!(Deadfish::try_parse("@@."), vec![call("")]);
}

#[test]
fn a_stray_closing_marker_ends_the_program() {
    assert_eq!(Deadfish::try_parse("ii)dd"), vec![Ast::Inc, Ast::Inc]);
    assert_eq!(Deadfish::try_parse(")i"), Vec::<Ast>::new());
    assert_eq!(Deadfish::try_parse("(b;i))i"), vec![def("b", vec![Ast::Inc])]);
}

#[test]
fn a_closing_marker_in_a_comment_closes_nothing() {
    assert_eq!(Deadfish::try_parse("(b;i#)\nd)s"), vec![def("b", vec![Ast::Inc, Ast::Dec]), Ast::Square]);
}

#[test]
fn an_unfinished_definition_yields_nothing() {
    assert_eq!(Deadfish::try_parse("i(abc"), vec![Ast::Inc]);
    assert_eq!(Deadfish::try_parse("i(b;rii"), vec![Ast::Inc]);
    assert_eq!(Deadfish::try_parse("i(a;(b;i)d"), vec![Ast::Inc]);
    assert_eq!(Deadfish::try_parse("("), Vec::<Ast>::new());
}

#[test]
fn an_unfinished_call_yields_nothing() {
    assert_eq!(Deadfish::try_parse("i@abc"), vec![Ast::Inc]);
    assert_eq!(Deadfish::try_parse("@"), Vec::<Ast>::new());
    assert_eq!(Deadfish::try_parse("(b;i@c)d"), Vec::<Ast>::new());
}

#[test]
fn comment_length_counts_the_line_feed() {
    assert_eq!(Deadfish::try_parse_comment("# hi\nii"), 5);
    assert_eq!(Deadfish::try_parse_comment("# hi\n"), 5);
    assert_eq!(Deadfish::try_parse_comment("#\n#\n"), 2);
    assert_eq!(Deadfish::try_parse_comment("\nabc"), 1);
    assert_eq!(Deadfish::try_parse_comment("#\u{e9}\u{e9}\nii"), 4);
}

#[test]
fn comment_length_is_that_of_the_text_without_line_feed() {
    assert_eq!(Deadfish::try_parse_comment("# hi"), 4);
    assert_eq!(Deadfish::try_parse_comment("#"), 1);
    assert_eq!(Deadfish::try_parse_comment(""), 0);
}

#[test]
fn blockdef_takes_one_definition() {
    let mut ast = vec![Ast::Inc];
    let taken = Deadfish::try_parse_blockdef("(b;rii)ii", &mut ast);
    assert_eq!(taken, 7);
    assert_eq!(ast, vec![Ast::Inc, def("b", vec![Ast::Reset, Ast::Inc, Ast::Inc])]);
}

#[test]
fn blockdef_takes_nested_definitions_whole() {
    let mut ast = Vec::new();
    let taken = Deadfish::try_parse_blockdef("(a;(b;i)d)s", &mut ast);
    assert_eq!(taken, 10);
    assert_eq!(ast, vec![def("a", vec![def("b", vec![Ast::Inc]), Ast::Dec])]);
}

#[test]
fn blockdef_takes_nothing_elsewhere() {
    let mut ast = vec![Ast::Dec];
    assert_eq!(Deadfish::try_parse_blockdef("x(b;i)", &mut ast), 0);
    assert_eq!(Deadfish::try_parse_blockdef("", &mut ast), 0);
    assert_eq!(ast, vec![Ast::Dec]);
}

#[test]
fn blockdef_takes_everything_when_unfinished() {
    let mut ast = vec![Ast::Dec];
    assert_eq!(Deadfish::try_parse_blockdef("(b", &mut ast), 2);
    assert_eq!(Deadfish::try_parse_blockdef("(b;ii", &mut ast), 5);
    assert_eq!(ast, vec![Ast::Dec]);
}

#[test]
fn blockcall_takes_one_call() {
    let mut ast = vec![Ast::Inc];
    let taken = Deadfish::try_parse_blockcall("@b.ii", &mut ast);
    assert_eq!(taken, 3);
    assert_eq!(ast, vec![Ast::Inc, call("b")]);
}

#[test]
fn blockcall_takes_nothing_elsewhere() {
    let mut ast = vec![Ast::Dec];
    assert_eq!(Deadfish::try_parse_blockcall("b@c.", &mut ast), 0);
    assert_eq!(Deadfish::try_parse_blockcall("", &mut ast), 0);
    assert_eq!(ast, vec![Ast::Dec]);
}

#[test]
fn blockcall_takes_everything_when_unfinished() {
    let mut ast = vec![Ast::Dec];
    assert_eq!(Deadfish::try_parse_blockcall("@bcd", &mut ast), 4);
    assert_eq!(ast, vec![Ast::Dec]);
}

#[test]
fn from_string_reads_in_lower_case() {
    let mut fish = Deadfish::new();
    fish.from_string("I(AbC;D)@ABC.".to_string());
    assert_eq!(fish.ast(), &vec![Ast::Inc, def("abc", vec![Ast::Dec]), call("abc")]);
}

#[test]
fn from_string_replaces_the_program() {
    let mut fish = Deadfish::new();
    fish.from_string("ii".to_string());
    fish.from_string("d".to_string());
    assert_eq!(fish.ast(), &vec![Ast::Dec]);
    assert!(fish.stack().is_empty());
}
