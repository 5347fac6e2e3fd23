use jib::lexer::{Lexer, LoadedSource, MissingSource, Peekable, Token, TokenType};

fn lexer_for(source: &str) -> Lexer<LoadedSource> {
    Lexer::new().load_source(source.to_string())
}

fn all_tokens(source: &str) -> Vec<Token> {
    let mut lexer = lexer_for(source);
    let mut tokens = Vec::new();
    while let Some(token) = lexer.next() {
        tokens.push(token);
    }
    tokens
}

fn kinds(source: &str) -> Vec<TokenType> {
    all_tokens(source).into_iter().map(|t| t.token_type).collect()
}

fn values(source: &str) -> Vec<String> {
    all_tokens(source).into_iter().map(|t| t.value).collect()
}

#[test]
fn empty_source_yields_nothing() {
    let mut lexer = lexer_for("");
    assert!(lexer.peek().is_none());
    assert!(lexer.next().is_none());
    assert!(lexer.next().is_none());
}

#[test]
fn lexer_without_source_yields_nothing() {
    let mut lexer: Lexer<LoadedSource> = Lexer::default();
    assert!(lexer.next().is_none());
}

#[test]
fn two_newlines_end_on_line_three() {
    let tokens = all_tokens("\n\n");
    assert_eq!(tokens.len(), 2);
    assert_eq!(tokens[0].line_number, 2);
    assert_eq!(tokens[1].line_number, 3);
}

#[test]
fn script_block_has_three_tokens() {
    assert_eq!(
        kinds("<script>Hello</script>"),
        vec![TokenType::TagScriptStart, TokenType::Text, TokenType::TagScriptEnd]
    );
}

#[test]
fn peek_does_not_consume() {
    let mut lexer = lexer_for("<script>foo</script>");
    assert_eq!(lexer.next().unwrap().token_type, TokenType::TagScriptStart);
    assert_eq!(lexer.next().unwrap().token_type, TokenType::Text);
    assert_eq!(lexer.peek().unwrap().token_type, TokenType::TagScriptEnd);
    assert_eq!(lexer.peek().unwrap().token_type, TokenType::TagScriptEnd);
    assert_eq!(lexer.next().unwrap().token_type, TokenType::TagScriptEnd);
    assert!(lexer.next().is_none());
}

#[test]
fn peek_then_next_give_the_same_token() {
    let mut lexer = lexer_for("foo bar");
    let first = lexer.peek().unwrap();
    let second = lexer.peek().unwrap();
    let taken = lexer.next().unwrap();
    assert_eq!(first.value, "foo");
    assert_eq!(second.value, "foo");
    assert_eq!(taken.value, "foo");
    assert_eq!(first.token_type, taken.token_type);
    assert_eq!(first.line_number, taken.line_number);
    assert_eq!(lexer.next().unwrap().token_type, TokenType::Whitespace);
    assert_eq!(lexer.next().unwrap().value, "bar");
    assert!(lexer.next().is_none());
}

#[test]
fn every_single_character_token() {
    assert_eq!(
        kinds("=-+{}();|,."),
        vec![
            TokenType::Equal,
            TokenType::Minus,
            TokenType::Plus,
            TokenType::CurlyBracketOpen,
            TokenType::CurlyBracketClose,
            TokenType::BracketOpen,
            TokenType::BracketClose,
            TokenType::SemiColon,
            TokenType::Pipe,
            TokenType::Comma,
            TokenType::Period,
        ]
    );
    assert_eq!(
        values("=-+{}();|,."),
        vec!["=", "-", "+", "{", "}", "(", ")", ";", "|", ",", "."]
    );
}

#[test]
fn block_markers_allow_inner_spacing() {
    assert_eq!(
        kinds("< script ></ script >< style ></ style >< template ></ template >"),
        vec![
            TokenType::TagScriptStart,
            TokenType::TagScriptEnd,
            TokenType::TagStyleStart,
            TokenType::TagStyleEnd,
            TokenType::TagTemplateStart,
            TokenType::TagTemplateEnd,
        ]
    );
    assert_eq!(values("< script >"), vec!["< script >"]);
}

#[test]
fn block_markers_are_case_sensitive() {
    assert_eq!(
        kinds("<Script>"),
        vec![TokenType::Unknown, TokenType::Text, TokenType::Unknown]
    );
    assert_eq!(values("<Script>"), vec!["<", "Script", ">"]);
}

#[test]
fn keywords_need_layout_behind_them() {
    assert_eq!(kinds("enum x"), vec![TokenType::Keyword, TokenType::Text]);
    assert_eq!(values("enum x"), vec!["enum", "x"]);
    assert_eq!(kinds("type x"), vec![TokenType::Keyword, TokenType::Text]);
    assert_eq!(kinds("fn x"), vec![TokenType::Keyword, TokenType::Text]);
    assert_eq!(kinds("enumx"), vec![TokenType::Text]);
    assert_eq!(kinds("enum"), vec![TokenType::Text]);
}

#[test]
fn comment_text_drops_the_marker() {
    let tokens = all_tokens("#  hello world\nx");
    assert_eq!(tokens[0].token_type, TokenType::Comment);
    assert_eq!(tokens[0].value, "hello world");
    assert_eq!(tokens[1].token_type, TokenType::Newline);
    assert_eq!(tokens[2].value, "x");
}

#[test]
fn string_literal_drops_the_quotes() {
    let tokens = all_tokens("\"a b\"\"c\"");
    assert_eq!(tokens.len(), 2);
    assert_eq!(tokens[0].token_type, TokenType::StringLiteral);
    assert_eq!(tokens[0].value, "a b");
    assert_eq!(tokens[1].value, "c");
}

#[test]
fn newline_is_tried_before_whitespace() {
    assert_eq!(kinds(" \t\n  "), vec![TokenType::Whitespace]);
    assert_eq!(all_tokens(" \t\n  ")[0].line_number, 1);
    assert_eq!(
        kinds("\n \r"),
        vec![TokenType::Newline, TokenType::Whitespace]
    );
    assert_eq!(kinds("\r\n"), vec![TokenType::Newline, TokenType::Newline]);
}

#[test]
fn unknown_characters_are_taken_one_at_a_time() {
    assert_eq!(kinds("<>"), vec![TokenType::Unknown, TokenType::Unknown]);
    assert_eq!(values("<>"), vec!["<", ">"]);
}

#[test]
fn unknown_character_of_several_bytes_is_one_token() {
    let tokens = all_tokens("a\u{20ac}\u{1f600}b");
    assert_eq!(tokens.len(), 4);
    assert_eq!(tokens[0].value, "a");
    assert_eq!(tokens[1].token_type, TokenType::Unknown);
    assert_eq!(tokens[1].value, "\u{20ac}");
    assert_eq!(tokens[2].token_type, TokenType::Unknown);
    assert_eq!(tokens[2].value, "\u{1f600}");
    assert_eq!(tokens[3].value, "b");
}

#[test]
fn text_may_hold_letters_of_any_script() {
    let tokens = all_tokens("h\u{e9}llo-w:x");
    assert_eq!(tokens.len(), 1);
    assert_eq!(tokens[0].token_type, TokenType::Text);
    assert_eq!(tokens[0].value, "h\u{e9}llo-w:x");
}

#[test]
fn lines_follow_newlines() {
    let tokens = all_tokens("a\nb\n\nc d");
    let lines: Vec<usize> = tokens.iter().map(|t| t.line_number).collect();
    assert_eq!(lines, vec![1, 2, 2, 3, 4, 4, 4, 4]);
    let mut before = 1;
    for token in &tokens {
        let step = if token.token_type == TokenType::Newline { 1 } else { 0 };
        assert_eq!(token.line_number, before + step);
        before = token.line_number;
    }
}

#[test]
fn token_texts_rebuild_a_source_without_stripped_tokens() {
    let source = "<template><p>Hi!</p>\n  a-b: c = {x|y};</template>";
    let rebuilt: String = values(source).concat();
    assert_eq!(rebuilt, source);
}

#[test]
fn tokens_without_stripped_delimiters_are_never_empty() {
    let source = "< template >a\u{20ac}-b\n\t = {x|y};(,.)+ \u{1f600}</template>";
    let tokens = all_tokens(source);
    let rebuilt: String = tokens.iter().map(|t| t.value.as_str()).collect();
    assert_eq!(rebuilt, source);
    for token in &tokens {
        assert_ne!(token.token_type, TokenType::Comment);
        assert_ne!(token.token_type, TokenType::Keyword);
        assert_ne!(token.token_type, TokenType::StringLiteral);
        assert!(!token.value.is_empty());
        if token.token_type == TokenType::Unknown {
            assert_eq!(token.value.chars().count(), 1);
        }
    }
}

#[test]
fn stripped_tokens_may_be_empty() {
    assert_eq!(values("#"), vec![""]);
    assert_eq!(values("\"\""), vec![""]);
    assert_eq!(kinds("\"\""), vec![TokenType::StringLiteral]);
}

#[test]
fn token_texts_do_not_rebuild_a_comment() {
    let rebuilt: String = values("# hi").concat();
    assert_eq!(rebuilt, "hi");
}

#[test]
fn tokens_of_a_string_have_no_origin() {
    let tokens = all_tokens("a");
    assert!(tokens[0].filepath.is_none());
}

#[test]
fn tokens_of_a_file_carry_its_path() {
    let mut lexer = Lexer::new().load_file("dir/main.jib", "a\nb".to_string());
    let first = lexer.next().unwrap();
    assert_eq!(first.filepath.as_deref(), Some("dir/main.jib"));
    assert_eq!(first.value, "a");
    let second = lexer.next().unwrap();
    assert_eq!(second.filepath.as_deref(), Some("dir/main.jib"));
    assert_eq!(second.line_number, 2);
}

#[test]
fn flush_whitespace_stops_at_the_first_other_token() {
    let mut lexer = lexer_for("  \n\t x  y");
    lexer.flush_whitespace();
    assert_eq!(lexer.next().unwrap().value, "x");
    lexer.flush_whitespace();
    lexer.flush_whitespace();
    assert_eq!(lexer.next().unwrap().value, "y");
    lexer.flush_whitespace();
    assert!(lexer.next().is_none());
}

#[test]
fn flush_whitespace_keeps_counting_lines() {
    let mut lexer = lexer_for("\n\n x");
    lexer.flush_whitespace();
    assert_eq!(lexer.next().unwrap().line_number, 3);
}

#[test]
fn expect_token_returns_the_token() {
    let mut lexer = lexer_for("foo=");
    let token = lexer.expect_token(TokenType::Text).unwrap();
    assert_eq!(token.value, "foo");
    assert_eq!(token.token_type, TokenType::Text);
    assert!(lexer.expect_token(TokenType::Equal).is_ok());
}

#[test]
fn expect_token_names_both_categories() {
    let mut lexer = lexer_for("\n=");
    lexer.next();
    let error = lexer.expect_token(TokenType::Text).unwrap_err();
    assert_eq!(error, (Some(2), "Expected Text, but got Equal".to_string()));
    assert!(lexer.next().is_none());
}

#[test]
fn expect_token_at_the_end_has_no_line() {
    let mut lexer = lexer_for("");
    let error = lexer.expect_token(TokenType::Text).unwrap_err();
    assert_eq!(error, (None, "Unexpected end of file".to_string()));
}

#[test]
fn category_names_are_the_variant_names() {
    assert_eq!(TokenType::TagTemplateStart.name(), "TagTemplateStart");
    assert_eq!(TokenType::CurlyBracketClose.name(), "CurlyBracketClose");
    assert_eq!(TokenType::Unknown.name(), format!("{:?}", TokenType::Unknown));
    assert_eq!(TokenType::SemiColon.name(), format!("{:?}", TokenType::SemiColon));
}

#[test]
fn every_category_name_is_its_variant_name() {
    let all = [
        TokenType::Unknown,
        TokenType::BracketClose,
        TokenType::BracketOpen,
        TokenType::Comma,
        TokenType::Comment,
        TokenType::CurlyBracketClose,
        TokenType::CurlyBracketOpen,
        TokenType::Equal,
        TokenType::Keyword,
        TokenType::Minus,
        TokenType::Newline,
        TokenType::Period,
        TokenType::Pipe,
        TokenType::Plus,
        TokenType::SemiColon,
        TokenType::StringLiteral,
        TokenType::TagScriptEnd,
        TokenType::TagScriptStart,
        TokenType::TagStyleEnd,
        TokenType::TagStyleStart,
        TokenType::TagTemplateEnd,
        TokenType::TagTemplateStart,
        TokenType::Text,
        TokenType::Whitespace,
    ];
    for kind in all {
        assert_eq!(kind.name(), format!("{:?}", kind));
    }
}

#[test]
fn lexer_without_patterns_knows_no_token() {
    let base: Lexer<MissingSource> = Lexer::default();
    let mut lexer = base.load_source("a\n\u{e9}".to_string());
    let first = lexer.next().unwrap();
    assert_eq!(first.token_type, TokenType::Unknown);
    assert_eq!(first.value, "a");
    let second = lexer.next().unwrap();
    assert_eq!(second.token_type, TokenType::Unknown);
    assert_eq!(second.value, "\n");
    assert_eq!(second.line_number, 1);
    let third = lexer.next().unwrap();
    assert_eq!(third.value, "\u{e9}");
    assert!(lexer.next().is_none());
}

#[test]
fn default_token_is_unknown_and_empty() {
    let token = Token::default();
    assert_eq!(token.token_type, TokenType::Unknown);
    assert_eq!(token.token_type, TokenType::default());
    assert_eq!(token.value, "");
    assert_eq!(token.line_number, 0);
    assert!(token.filepath.is_none());
}

#[test]
fn cloned_token_is_the_same() {
    let token = Lexer::new()
        .load_file("x.jib", "\nfoo".to_string())
        .expect_token(TokenType::Newline)
        .unwrap();
    let copy = token.clone();
    assert_eq!(copy.token_type, token.token_type);
    assert_eq!(copy.value, token.value);
    assert_eq!(copy.line_number, 2);
    assert_eq!(copy.filepath, token.filepath);
}

#[test]
fn one_lexer_loads_many_sources() {
    let base = Lexer::new();
    let mut first = base.load_source("a b".to_string());
    let mut second = base.load_source("<style>".to_string());
    assert_eq!(first.next().unwrap().value, "a");
    assert_eq!(second.next().unwrap().token_type, TokenType::TagStyleStart);
    assert_eq!(first.next().unwrap().token_type, TokenType::Whitespace);
    assert!(second.next().is_none());
    let mut third = first.load_source("c".to_string());
    assert_eq!(third.next().unwrap().value, "c");
    assert_eq!(third.peek().map(|t| t.value), None);
    assert_eq!(first.next().unwrap().value, "b");
}

#[test]
fn shared_and_fresh_tables_give_the_same_tokens() {
    let sources = ["<script>enum A = { B }</script>", "<style>p { left: 0 }</style>\n# x"];
    let shared = Lexer::new();
    for source in sources {
        let mut from_shared = shared.load_source(source.to_string());
        let mut from_fresh = Lexer::new().load_source(source.to_string());
        loop {
            let a = from_shared.next();
            let b = from_fresh.next();
            match (a, b) {
                (None, None) => break,
                (Some(a), Some(b)) => {
                    assert_eq!(a.token_type, b.token_type);
                    assert_eq!(a.value, b.value);
                    assert_eq!(a.line_number, b.line_number);
                }
                _ => panic!("streams differ in length"),
            }
        }
    }
}
