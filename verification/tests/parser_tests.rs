use jib::lexer::{Lexer, TokenType};
use jib::parser::{parse, ASTNode};

fn parse_source(source: &str) -> Result<ASTNode, (Option<usize>, String)> {
    let mut lexer = Lexer::new().load_source(source.to_string());
    parse(&mut lexer)
}

fn enum_node(name: &str, values: &[&str]) -> ASTNode {
    ASTNode::Enum(
        name.to_string(),
        values.iter().map(|v| ASTNode::EnumValue(v.to_string())).collect(),
    )
}

#[test]
fn empty_source_is_an_empty_root() {
    assert_eq!(parse_source(""), Ok(ASTNode::Root(vec![])));
}

#[test]
fn template_block_keeps_its_text() {
    assert_eq!(
        parse_source("<template><p>Hi!</p></template>"),
        Ok(ASTNode::Root(vec![ASTNode::Template("<p>Hi!</p>".to_string())]))
    );
}

#[test]
fn style_block_keeps_its_text() {
    assert_eq!(
        parse_source("<style>p { left: 0 }</style>"),
        Ok(ASTNode::Root(vec![ASTNode::Style("p { left: 0 }".to_string())]))
    );
}

#[test]
fn enum_round_trip() {
    assert_eq!(
        parse_source("<script>enum Foo = { Bar|Baz }</script>"),
        Ok(ASTNode::Root(vec![ASTNode::Script(vec![enum_node("Foo", &["Bar", "Baz"])])]))
    );
}

#[test]
fn comment_extraction() {
    assert_eq!(
        parse_source("<script># hello world\n</script>"),
        Ok(ASTNode::Root(vec![ASTNode::Script(vec![ASTNode::Comment(
            "hello world".to_string()
        )])]))
    );
    assert_eq!(
        parse_source("<script># Foo bar baz.\n</script>"),
        Ok(ASTNode::Root(vec![ASTNode::Script(vec![ASTNode::Comment(
            "Foo bar baz.".to_string()
        )])]))
    );
}

#[test]
fn unterminated_template_fails() {
    let error = parse_source("<template><p>Hi").unwrap_err();
    assert_eq!(error, (None, "Missing closing </template> tag.".to_string()));
    assert!(error.1.contains("template"));
}

#[test]
fn unterminated_style_fails() {
    assert_eq!(
        parse_source("<style>p {"),
        Err((None, "Missing closing </style> tag.".to_string()))
    );
}

#[test]
fn unterminated_script_fails() {
    assert_eq!(
        parse_source("<script># x\n"),
        Err((None, "Missing closing </script> tag.".to_string()))
    );
    assert_eq!(
        parse_source("<script>"),
        Err((None, "Missing closing </script> tag.".to_string()))
    );
}

#[test]
fn empty_script() {
    assert_eq!(
        parse_source("<script></script>"),
        Ok(ASTNode::Root(vec![ASTNode::Script(vec![])]))
    );
}

#[test]
fn nested_template_markers_stay_in_the_text() {
    assert_eq!(
        parse_source("<template>a<template>b</template>c</template>"),
        Ok(ASTNode::Root(vec![ASTNode::Template(
            "a<template>b</template>c".to_string()
        )]))
    );
}

#[test]
fn nested_style_markers_stay_in_the_text() {
    assert_eq!(
        parse_source("<style>a< style >b</style>c</ style >"),
        Ok(ASTNode::Root(vec![ASTNode::Style("a< style >b</style>c".to_string())]))
    );
}

#[test]
fn markers_of_another_kind_do_not_nest() {
    assert_eq!(
        parse_source("<template><style></script></template>"),
        Ok(ASTNode::Root(vec![ASTNode::Template("<style></script>".to_string())]))
    );
    assert_eq!(
        parse_source("<style><template></style>"),
        Ok(ASTNode::Root(vec![ASTNode::Style("<template>".to_string())]))
    );
}

#[test]
fn nested_template_left_open_fails() {
    assert_eq!(
        parse_source("<template><template></template>"),
        Err((None, "Missing closing </template> tag.".to_string()))
    );
}

#[test]
fn blocks_come_in_source_order() {
    assert_eq!(
        parse_source("\n<template>t</template>\n\n <style>s</style>\n<script>\n</script>"),
        Ok(ASTNode::Root(vec![
            ASTNode::Template("t".to_string()),
            ASTNode::Style("s".to_string()),
            ASTNode::Script(vec![]),
        ]))
    );
}

#[test]
fn layout_behind_the_last_block_counts_for_nothing() {
    assert_eq!(
        parse_source("<script></script>\n"),
        Ok(ASTNode::Root(vec![ASTNode::Script(vec![])]))
    );
    assert_eq!(
        parse_source("<template>t</template> \n\t\n<style>s</style>\n\n  "),
        Ok(ASTNode::Root(vec![
            ASTNode::Template("t".to_string()),
            ASTNode::Style("s".to_string()),
        ]))
    );
}

#[test]
fn source_of_layout_only_is_an_empty_root() {
    assert_eq!(parse_source("\n"), Ok(ASTNode::Root(vec![])));
    assert_eq!(parse_source("  \n\t \r\n "), Ok(ASTNode::Root(vec![])));
}

#[test]
fn parse_uses_up_trailing_layout() {
    let mut lexer = Lexer::new().load_source("<script></script>\n \n".to_string());
    assert!(parse(&mut lexer).is_ok());
    assert!(lexer.next().is_none());
}

#[test]
fn other_token_at_top_level_fails_on_its_line() {
    assert_eq!(
        parse_source("\n\nfoo"),
        Err((
            Some(3),
            "Expected a <template>, <style> or <script> block".to_string()
        ))
    );
    assert_eq!(
        parse_source("</template>"),
        Err((
            Some(1),
            "Expected a <template>, <style> or <script> block".to_string()
        ))
    );
}

#[test]
fn script_holds_statements_in_order() {
    assert_eq!(
        parse_source("<script>\n# one\nenum A = { B }\n# two\n</script>"),
        Ok(ASTNode::Root(vec![ASTNode::Script(vec![
            ASTNode::Comment("one".to_string()),
            enum_node("A", &["B"]),
            ASTNode::Comment("two".to_string()),
        ])]))
    );
}

#[test]
fn other_tokens_in_a_script_are_passed_over() {
    assert_eq!(
        parse_source("<script>foo = (1, 2); # c\n</script>"),
        Ok(ASTNode::Root(vec![ASTNode::Script(vec![ASTNode::Comment("c".to_string())])]))
    );
}

#[test]
fn enum_with_layout_and_duplicates() {
    assert_eq!(
        parse_source("<script>enum\n Color\n=\n{\n Red\n|\n Red | Blue\n}</script>"),
        Ok(ASTNode::Root(vec![ASTNode::Script(vec![enum_node(
            "Color",
            &["Red", "Red", "Blue"]
        )])]))
    );
}

#[test]
fn enum_without_name_fails() {
    assert_eq!(
        parse_source("<script>enum = { A }</script>"),
        Err((Some(1), "Expected Text, but got Equal".to_string()))
    );
}

#[test]
fn enum_without_equal_fails() {
    assert_eq!(
        parse_source("<script>enum Foo { A }</script>"),
        Err((Some(1), "Expected Equal, but got CurlyBracketOpen".to_string()))
    );
}

#[test]
fn enum_without_brace_fails() {
    assert_eq!(
        parse_source("<script>enum Foo = A }</script>"),
        Err((Some(1), "Expected CurlyBracketOpen, but got Text".to_string()))
    );
}

#[test]
fn enum_without_values_fails() {
    assert_eq!(
        parse_source("<script>enum Foo = { }</script>"),
        Err((Some(1), "Expected Text, but got CurlyBracketClose".to_string()))
    );
}

#[test]
fn enum_cut_short_fails_without_line() {
    assert_eq!(
        parse_source("<script>enum Foo = "),
        Err((None, "Unexpected end of file".to_string()))
    );
}

#[test]
fn enum_with_wrong_delimiter_fails_on_the_line_of_its_name() {
    assert_eq!(
        parse_source("<script>\nenum Foo = {\n Bar\n, Baz }</script>"),
        Err((Some(2), "Syntax error".to_string()))
    );
}

#[test]
fn enum_ending_behind_a_value_fails_on_the_line_of_that_value() {
    assert_eq!(
        parse_source("<script>\nenum Foo = {\n Bar |\n Baz"),
        Err((Some(4), "Expected `}` or `|`".to_string()))
    );
}

#[test]
fn other_keywords_are_turned_down() {
    assert_eq!(
        parse_source("<script>\ntype Foo</script>"),
        Err((Some(2), "Not implemented".to_string()))
    );
    assert_eq!(
        parse_source("<script>fn foo</script>"),
        Err((Some(1), "Not implemented".to_string()))
    );
}

#[test]
fn parse_uses_up_the_stream() {
    let mut lexer = Lexer::new().load_source("<style>a</style><script></script>".to_string());
    assert!(parse(&mut lexer).is_ok());
    assert!(lexer.next().is_none());
}

#[test]
fn parse_stops_at_the_first_error() {
    let mut lexer = Lexer::new().load_source("x<style>a</style>".to_string());
    assert!(parse(&mut lexer).is_err());
    assert_eq!(lexer.next().unwrap().token_type, TokenType::TagStyleStart);
}

#[test]
fn two_sources_do_not_disturb_each_other() {
    let base = Lexer::new();
    let first = "<template>one</template>";
    let second = "<script>enum A = { B|C }</script>";
    let mut a = base.load_source(first.to_string());
    let mut b = base.load_source(second.to_string());
    let from_shared_b = parse(&mut b);
    let from_shared_a = parse(&mut a);
    assert_eq!(from_shared_a, parse_source(first));
    assert_eq!(from_shared_b, parse_source(second));
    assert_eq!(
        from_shared_a,
        Ok(ASTNode::Root(vec![ASTNode::Template("one".to_string())]))
    );
}
