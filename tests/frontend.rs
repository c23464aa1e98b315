use zwreec::ast::{ASTNode, TreeError, AST};
use zwreec::parser::{parse_tokens, NonTerminalType, ParseError, Parser};
use zwreec::token::{Operator, Token, TokenKind};
use zwreec::zcode::{gen_zcode, FormattingState, ZOp};
use zwreec::{command_for, help, Command};

fn at(kind: TokenKind, payload: &str, line: u64, column: u64) -> Token {
    Token::new(kind, payload.to_string(), line, column)
}

fn tok(kind: TokenKind, payload: &str) -> Token {
    at(kind, payload, 1, 1)
}

fn bare(kind: TokenKind) -> Token {
    tok(kind, "")
}

fn show(n: &ASTNode) -> String {
    if n.childs.is_empty() {
        n.category.payload.clone()
    } else {
        let kids: Vec<String> = n.childs.iter().map(show).collect();
        format!("{}({})", n.category.payload, kids.join(", "))
    }
}

fn passage(name: &str) -> Token {
    tok(TokenKind::Passage, name)
}

fn zcode_of(ast: &AST) -> Vec<ZOp> {
    let mut out = Vec::new();
    ast.to_zcode(&mut out);
    out
}

fn style(bold: bool, inverted: bool, mono: bool, italic: bool) -> ZOp {
    ZOp::SetTextStyle(bold, inverted, mono, italic)
}

#[test]
fn bold_span_restores_ambient_style() {
    let tokens = vec![
        passage("Start"),
        tok(TokenKind::Text, "Hello "),
        bare(TokenKind::FormatBoldStart),
        tok(TokenKind::Text, "World"),
        bare(TokenKind::FormatBoldEnd),
        bare(TokenKind::NewLine),
    ];
    let ast = parse_tokens(tokens).unwrap();
    let expected = vec![
        ZOp::Print("Hello ".to_string()),
        style(true, false, false, false),
        ZOp::Print("World".to_string()),
        style(false, false, false, false),
        style(false, false, false, false),
        ZOp::NewLine,
    ];
    assert_eq!(zcode_of(&ast), expected);
}

#[test]
fn nested_spans_restore_outer_style() {
    let tokens = vec![
        passage("Start"),
        bare(TokenKind::FormatItalicStart),
        bare(TokenKind::FormatBoldStart),
        tok(TokenKind::Text, "both"),
        bare(TokenKind::FormatBoldEnd),
        tok(TokenKind::Text, "italic"),
        bare(TokenKind::FormatItalicEnd),
    ];
    let ast = parse_tokens(tokens).unwrap();
    let expected = vec![
        style(false, false, false, true),
        style(true, false, false, true),
        ZOp::Print("both".to_string()),
        style(false, false, false, false),
        style(false, false, false, true),
        ZOp::Print("italic".to_string()),
        style(false, false, false, false),
        style(false, false, false, false),
    ];
    assert_eq!(zcode_of(&ast), expected);
}

#[test]
fn mono_span_sets_mono() {
    let tokens = vec![
        passage("Start"),
        bare(TokenKind::FormatMonoStart),
        tok(TokenKind::Text, "code"),
        bare(TokenKind::NewLine),
        bare(TokenKind::FormatMonoEnd),
    ];
    let ast = parse_tokens(tokens).unwrap();
    let expected = vec![
        style(false, false, true, false),
        ZOp::Print("code".to_string()),
        style(false, false, false, false),
        style(false, false, false, false),
    ];
    assert_eq!(zcode_of(&ast), expected);
}

#[test]
fn gen_zcode_starts_from_given_state() {
    let mut node = ASTNode::leaf(bare(TokenKind::FormatItalicStart));
    node.childs.push(ASTNode::leaf(tok(TokenKind::Text, "x")));
    let state = FormattingState { bold: true, italic: false, mono: false, inverted: false };
    let mut out = Vec::new();
    gen_zcode(&node, state, &mut out);
    let expected = vec![
        style(true, false, false, true),
        ZOp::Print("x".to_string()),
        style(false, false, false, false),
        style(true, false, false, false),
    ];
    assert_eq!(out, expected);
}

#[test]
fn if_else_pivots_to_sibling_and_returns() {
    let tokens = vec![
        passage("Start"),
        bare(TokenKind::MacroIf),
        tok(TokenKind::Variable, "x"),
        bare(TokenKind::MacroEnd),
        tok(TokenKind::Text, "then-text"),
        bare(TokenKind::MacroElse),
        bare(TokenKind::MacroEnd),
        tok(TokenKind::Text, "else-text"),
        bare(TokenKind::MacroEndIf),
        bare(TokenKind::MacroEnd),
        tok(TokenKind::Text, "after"),
    ];
    let ast = parse_tokens(tokens).unwrap();
    let passages = ast.passages();
    assert_eq!(passages.len(), 1);
    let root = &passages[0];
    assert_eq!(root.childs.len(), 4);
    let if_node = &root.childs[0];
    assert_eq!(if_node.category.kind, TokenKind::MacroIf);
    assert_eq!(if_node.childs.len(), 2);
    assert_eq!(if_node.childs[0].category.kind, TokenKind::Pseudo);
    assert_eq!(show(&if_node.childs[0]), "(x)");
    assert_eq!(if_node.childs[1].category.payload, "then-text");
    let else_node = &root.childs[1];
    assert_eq!(else_node.category.kind, TokenKind::MacroElse);
    assert_eq!(show(else_node), "(else-text)");
    assert_eq!(root.childs[2].category.kind, TokenKind::MacroEndIf);
    // the text after end-if lands at passage-content depth again
    assert_eq!(root.childs[3].category.payload, "after");
    assert_eq!(ast.path().len(), 1);
}

#[test]
fn if_without_else_returns_to_passage_depth() {
    let tokens = vec![
        passage("Start"),
        bare(TokenKind::MacroIf),
        tok(TokenKind::Boolean, "true"),
        bare(TokenKind::MacroEnd),
        tok(TokenKind::Text, "yes"),
        bare(TokenKind::MacroEndIf),
        bare(TokenKind::MacroEnd),
    ];
    let ast = parse_tokens(tokens).unwrap();
    let root = &ast.passages()[0];
    assert_eq!(root.childs.len(), 2);
    assert_eq!(show(&root.childs[0]), "((true), yes)");
    assert_eq!(root.childs[1].category.kind, TokenKind::MacroEndIf);
    assert_eq!(ast.path().len(), 1);
}

#[test]
fn stray_bold_end_is_a_syntax_error() {
    let tokens = vec![
        at(TokenKind::Passage, "Start", 1, 1),
        at(TokenKind::Text, "Hello", 2, 1),
        at(TokenKind::FormatBoldEnd, "", 2, 6),
    ];
    assert_eq!(parse_tokens(tokens).err(), Some(ParseError::UnexpectedToken { line: 2, column: 6 }));
}

#[test]
fn mismatched_span_end_is_a_syntax_error() {
    let tokens = vec![
        at(TokenKind::Passage, "Start", 1, 1),
        at(TokenKind::FormatBoldStart, "", 1, 2),
        at(TokenKind::Text, "x", 1, 4),
        at(TokenKind::FormatItalicEnd, "", 1, 5),
    ];
    assert_eq!(parse_tokens(tokens).err(), Some(ParseError::UnexpectedToken { line: 1, column: 5 }));
}

#[test]
fn one_root_per_passage() {
    let tokens = vec![
        passage("Start"),
        tok(TokenKind::Text, "a"),
        passage("Second"),
        passage("Third"),
        tok(TokenKind::PassageLink, "Start"),
    ];
    let ast = parse_tokens(tokens).unwrap();
    assert_eq!(ast.passages().len(), 3);
    assert_eq!(ast.count_childs(Vec::new()), 3);
    assert_eq!(ast.count_childs(vec![0]), 1);
    assert_eq!(ast.count_childs(vec![1]), 0);
    assert_eq!(ast.count_childs(vec![2]), 1);
    assert_eq!(ast.passages()[2].category.payload, "Third");
}

#[test]
fn empty_input_has_no_passages() {
    let ast = parse_tokens(Vec::new()).unwrap();
    assert_eq!(ast.count_childs(Vec::new()), 0);
}

#[test]
fn input_ending_inside_display_macro_is_unexpected_end() {
    let tokens = vec![passage("Start"), tok(TokenKind::MacroDisplay, "display")];
    assert_eq!(parse_tokens(tokens).err(), Some(ParseError::UnexpectedEnd(NonTerminalType::ExpressionList)));
}

#[test]
fn input_ending_after_operand_is_missing_macro_end() {
    let tokens = vec![passage("Start"), tok(TokenKind::MacroPrint, "print"), tok(TokenKind::Int, "1")];
    assert_eq!(parse_tokens(tokens).err(), Some(ParseError::MissingToken(TokenKind::MacroEnd)));
}

#[test]
fn input_must_start_with_passage() {
    let tokens = vec![at(TokenKind::Text, "x", 3, 4)];
    assert_eq!(parse_tokens(tokens).err(), Some(ParseError::UnexpectedToken { line: 3, column: 4 }));
}

#[test]
fn unclosed_span_is_missing_token() {
    let tokens = vec![passage("Start"), bare(TokenKind::FormatBoldStart), tok(TokenKind::Text, "x")];
    assert_eq!(parse_tokens(tokens).err(), Some(ParseError::MissingToken(TokenKind::FormatBoldEnd)));
}

#[test]
fn unclosed_mono_is_missing_mono_end() {
    let tokens = vec![passage("Start"), bare(TokenKind::FormatMonoStart)];
    assert_eq!(parse_tokens(tokens).err(), Some(ParseError::MissingToken(TokenKind::FormatMonoEnd)));
}

#[test]
fn print_macro_expression_is_normalized() {
    let tokens = vec![
        passage("Start"),
        tok(TokenKind::MacroPrint, "print"),
        tok(TokenKind::Int, "1"),
        tok(TokenKind::NumOp(Operator::Add), "+"),
        tok(TokenKind::Int, "2"),
        tok(TokenKind::NumOp(Operator::Mul), "*"),
        tok(TokenKind::Int, "3"),
        bare(TokenKind::MacroEnd),
    ];
    let ast = parse_tokens(tokens).unwrap();
    assert_eq!(show(&ast.passages()[0]), "Start(print(+(1, *(2, 3))))");
}

#[test]
fn set_macro_assigns_normalized_value() {
    let tokens = vec![
        passage("Start"),
        tok(TokenKind::MacroSet, "set"),
        tok(TokenKind::Assign, "$x"),
        tok(TokenKind::LogOp(Operator::Not), "not"),
        tok(TokenKind::Variable, "y"),
        tok(TokenKind::CompOp(Operator::Less), "<"),
        tok(TokenKind::Int, "3"),
        bare(TokenKind::MacroEnd),
        tok(TokenKind::Text, "done"),
    ];
    let ast = parse_tokens(tokens).unwrap();
    assert_eq!(show(&ast.passages()[0]), "Start(set($x(<(not(y), 3))), done)");
    assert_eq!(ast.path(), &vec![0]);
}

#[test]
fn function_call_arguments_become_children() {
    let tokens = vec![
        passage("Start"),
        tok(TokenKind::MacroDisplay, "display"),
        tok(TokenKind::Function, "max"),
        tok(TokenKind::Int, "1"),
        bare(TokenKind::Colon),
        tok(TokenKind::Variable, "z"),
        bare(TokenKind::ArgsEnd),
        bare(TokenKind::MacroEnd),
    ];
    let ast = parse_tokens(tokens).unwrap();
    assert_eq!(show(&ast.passages()[0]), "Start(display(max((1), (z))))");
}

#[test]
fn malformed_macro_expression_is_reported() {
    let tokens = vec![
        passage("Start"),
        tok(TokenKind::MacroPrint, "print"),
        tok(TokenKind::LogOp(Operator::Not), "not"),
        at(TokenKind::MacroEnd, "", 4, 9),
    ];
    match parse_tokens(tokens) {
        Err(ParseError::UnexpectedToken { line, column }) => assert_eq!((line, column), (4, 9)),
        other => panic!("unexpected result: {:?}", other.err()),
    }
}

#[test]
fn parser_new_then_parsing() {
    let mut parser = Parser::new(vec![passage("Only"), tok(TokenKind::Text, "t")]);
    assert_eq!(parser.parsing(), Ok(()));
}

#[test]
fn cursor_operations() {
    let mut ast = AST::new();
    assert_eq!(ast.add_child(bare(TokenKind::Text)), Err(TreeError::NoFocus));
    assert_eq!(ast.up(), Err(TreeError::NoFocus));
    ast.add_passage(passage("P"));
    assert_eq!(ast.path(), &vec![0]);
    assert_eq!(ast.up(), Err(TreeError::AboveRoot));
    assert_eq!(ast.child_down(bare(TokenKind::FormatBoldStart)), Ok(()));
    assert_eq!(ast.path(), &vec![0, 0]);
    assert_eq!(ast.add_child(tok(TokenKind::Text, "a")), Ok(()));
    assert_eq!(ast.two_childs_down(bare(TokenKind::MacroIf), bare(TokenKind::Pseudo)), Ok(()));
    assert_eq!(ast.path(), &vec![0, 0, 1, 0]);
    assert_eq!(ast.up_child_down(bare(TokenKind::MacroElse)), Ok(()));
    assert_eq!(ast.path(), &vec![0, 0, 1, 1]);
    assert_eq!(ast.up_child(bare(TokenKind::MacroEndIf)), Ok(()));
    assert_eq!(ast.path(), &vec![0, 0, 1]);
    assert_eq!(ast.count_childs(vec![0, 0, 1]), 3);
    assert_eq!(ast.up(), Ok(()));
    assert_eq!(ast.up(), Ok(()));
    assert_eq!(ast.path(), &vec![0]);
    assert_eq!(ast.count_childs(vec![0]), 1);
    assert_eq!(ast.count_childs(vec![0, 0]), 2);
}

#[test]
fn node_add_and_count_by_path() {
    let mut node = ASTNode::leaf(passage("P"));
    node.add_child(Vec::new(), bare(TokenKind::FormatBoldStart));
    node.add_child(vec![0], tok(TokenKind::Text, "in"));
    node.add_child(vec![0], tok(TokenKind::Text, "too"));
    assert_eq!(node.count_childs(Vec::new()), 1);
    assert_eq!(node.count_childs(vec![0]), 2);
    assert_eq!(node.count_childs(vec![0, 1]), 0);
    assert_eq!(show(&node), "P((in, too))");
}

#[test]
fn token_location_and_copy() {
    let t = at(TokenKind::Variable, "v", 7, 3);
    assert_eq!(t.location(), (7, 3));
    let c = t.duplicate();
    assert_eq!(c.payload, "v");
    assert_eq!(c.kind, TokenKind::Variable);
    let m = Token::marker(TokenKind::Pseudo);
    assert_eq!(m.location(), (0, 0));
}

#[test]
fn command_line_choices() {
    let one = vec!["zwreec".to_string()];
    match command_for(&one) {
        Command::Compile { input, output } => assert_eq!((input.as_str(), output.as_str()), ("a.in", "a.out")),
        Command::Help => panic!("expected compile"),
    }
    let three = vec!["zwreec".to_string(), "story.twee".to_string(), "story.z8".to_string()];
    match command_for(&three) {
        Command::Compile { input, output } => assert_eq!((input.as_str(), output.as_str()), ("story.twee", "story.z8")),
        Command::Help => panic!("expected compile"),
    }
    let two = vec!["zwreec".to_string(), "x".to_string()];
    assert!(matches!(command_for(&two), Command::Help));
    assert_eq!(help(), "usage:\n    zwreec <input_file> <output_file>");
}

#[test]
fn assignment_only_inside_set() {
    let tokens = vec![
        passage("Start"),
        tok(TokenKind::MacroPrint, "print"),
        at(TokenKind::Assign, "$x", 2, 8),
        tok(TokenKind::Int, "1"),
        bare(TokenKind::MacroEnd),
    ];
    assert_eq!(parse_tokens(tokens).err(), Some(ParseError::UnexpectedToken { line: 2, column: 8 }));
}

#[test]
fn structural_nodes_emit_their_children() {
    let tokens = vec![
        passage("Start"),
        bare(TokenKind::MacroIf),
        tok(TokenKind::Variable, "x"),
        bare(TokenKind::MacroEnd),
        tok(TokenKind::Text, "yes"),
        bare(TokenKind::NewLine),
        bare(TokenKind::MacroEndIf),
        bare(TokenKind::MacroEnd),
        passage("Second"),
        tok(TokenKind::Text, "two"),
    ];
    let ast = parse_tokens(tokens).unwrap();
    let expected = vec![ZOp::Print("yes".to_string()), ZOp::NewLine, ZOp::Print("two".to_string())];
    assert_eq!(zcode_of(&ast), expected);
}

#[test]
fn link_and_inline_macros_are_leaves() {
    let tokens = vec![
        passage("Start"),
        tok(TokenKind::PassageLink, "Next"),
        tok(TokenKind::MacroContentVar, "$score"),
        bare(TokenKind::MacroEnd),
        tok(TokenKind::MacroContentPassageName, "Other"),
        bare(TokenKind::MacroEnd),
    ];
    let ast = parse_tokens(tokens).unwrap();
    assert_eq!(show(&ast.passages()[0]), "Start(Next, $score, Other)");
}

#[test]
fn plain_story_parses() {
    let tokens = vec![
        passage("One"),
        tok(TokenKind::Text, "a"),
        bare(TokenKind::NewLine),
        passage("Two"),
        passage("Three"),
        tok(TokenKind::Text, "b"),
    ];
    let ast = parse_tokens(tokens).unwrap();
    assert_eq!(ast.count_childs(Vec::new()), 3);
    assert_eq!(ast.count_childs(vec![0]), 2);
    assert_eq!(ast.count_childs(vec![1]), 0);
    assert_eq!(show(&ast.passages()[2]), "Three(b)");
    assert_eq!(ast.path(), &vec![2]);
}

#[test]
fn stray_italic_end_after_plain_text_is_a_syntax_error() {
    let tokens = vec![
        at(TokenKind::Passage, "Start", 1, 1),
        at(TokenKind::Text, "a", 2, 1),
        at(TokenKind::NewLine, "", 2, 2),
        at(TokenKind::FormatItalicEnd, "", 3, 4),
        at(TokenKind::Text, "b", 3, 6),
    ];
    assert_eq!(parse_tokens(tokens).err(), Some(ParseError::UnexpectedToken { line: 3, column: 4 }));
}
