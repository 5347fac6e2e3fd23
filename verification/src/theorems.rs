//! What holds of the tokenizer and the tree builder as a whole.

use crate::lexer::{
    advance, head, lemma_scan_advances, lex, line_after, pattern_table, scan, strips, usable,
    with_rule, Lexer, LexerState, LoadedSource, Rule, TokenType, TokenView,
};
use crate::pattern::regex_captures;
use crate::parser::{
    block_close, concat_text, depth_after, document, html_block, raw_block, Node, Outcome,
};
use crate::text::{chars_before, chars_from, lemma_join, lemma_split};
use vstd::prelude::*;

verus! {

/// Every token of the stream that `text` yields carries, as its text, exactly
/// the characters that it was made of.
pub open spec fn verbatim(table: Seq<Rule>, text: Seq<char>) -> bool
    decreases text.len(),
    via verbatim_decreases
{
    text.len() > 0 ==> {
        let step = scan(table, text);
        &&& step.value == chars_before(text, step.len)
        &&& verbatim(table, chars_from(text, step.len))
    }
}

#[via_fn]
proof fn verbatim_decreases(table: Seq<Rule>, text: Seq<char>) {
    if text.len() > 0 {
        lemma_scan_advances(table, text);
    }
}

/// The characters that each token of the stream of `text` was made of, in
/// the stream's order.
pub open spec fn lexemes(table: Seq<Rule>, text: Seq<char>) -> Seq<Seq<char>>
    decreases text.len(),
    via lexemes_decreases
{
    if text.len() == 0 {
        Seq::empty()
    } else {
        let step = scan(table, text);
        seq![chars_before(text, step.len)] + lexemes(table, chars_from(text, step.len))
    }
}

#[via_fn]
proof fn lexemes_decreases(table: Seq<Rule>, text: Seq<char>) {
    if text.len() > 0 {
        lemma_scan_advances(table, text);
    }
}

/// The parts of a text, joined in order.
pub open spec fn joined(parts: Seq<Seq<char>>) -> Seq<char>
    decreases parts.len(),
{
    if parts.len() == 0 {
        Seq::empty()
    } else {
        parts[0] + joined(parts.drop_first())
    }
}

/// The text of a run of tokens starts with the text of its first token.
pub proof fn lemma_concat_text_front(first: TokenView, others: Seq<TokenView>)
    ensures
        concat_text(seq![first] + others) == first.text + concat_text(others),
    decreases others.len(),
{
    let all = seq![first] + others;
    if others.len() == 0 {
        assert(all.drop_last() =~= Seq::<TokenView>::empty());
        assert(concat_text(all.drop_last()) =~= Seq::<char>::empty());
        assert(concat_text(all) =~= first.text + concat_text(others));
    } else {
        lemma_concat_text_front(first, others.drop_last());
        assert(all.drop_last() =~= seq![first] + others.drop_last());
        assert(concat_text(all) =~= first.text + concat_text(others));
    }
}

/// Every character of a source goes into exactly one token: there is one
/// lexeme for each token of the stream, and the lexemes joined in order are
/// the source.
pub proof fn lemma_tokens_cover_source(
    table: Seq<Rule>,
    text: Seq<char>,
    origin: Option<Seq<char>>,
    line: nat,
)
    ensures
        lexemes(table, text).len() == lex(table, text, origin, line).len(),
        joined(lexemes(table, text)) == text,
    decreases text.len(),
{
    if text.len() > 0 {
        let step = scan(table, text);
        let rest = chars_from(text, step.len);
        lemma_scan_advances(table, text);
        lemma_split(text, step.len);
        lemma_tokens_cover_source(table, rest, origin, line_after(line, step.kind));
        assert(lexemes(table, text).drop_first() =~= lexemes(table, rest));
    }
}

/// A source is verbatim exactly where the text of each token of its stream is
/// the lexeme at the same place.
pub proof fn lemma_verbatim_by_token(
    table: Seq<Rule>,
    text: Seq<char>,
    origin: Option<Seq<char>>,
    line: nat,
)
    ensures
        verbatim(table, text) <==> (forall|i: int|
            0 <= i < lexemes(table, text).len() ==> (#[trigger] lex(table, text, origin, line)[i]).text
                == lexemes(table, text)[i]),
    decreases text.len(),
{
    if text.len() > 0 {
        let step = scan(table, text);
        let rest = chars_from(text, step.len);
        let next_line = line_after(line, step.kind);
        let tokens = lex(table, text, origin, line);
        let later = lex(table, rest, origin, next_line);
        let spans = lexemes(table, text);
        let later_spans = lexemes(table, rest);
        lemma_scan_advances(table, text);
        lemma_tokens_cover_source(table, text, origin, line);
        lemma_tokens_cover_source(table, rest, origin, next_line);
        lemma_verbatim_by_token(table, rest, origin, next_line);
        assert(tokens.drop_first() =~= later);
        assert(spans.drop_first() =~= later_spans);
        if verbatim(table, text) {
            assert forall|i: int| 0 <= i < spans.len() implies (#[trigger] tokens[i]).text
                == spans[i] by {
                if i > 0 {
                    assert(tokens[i] == later[i - 1]);
                    assert(spans[i] == later_spans[i - 1]);
                }
            }
        }
        if forall|i: int| 0 <= i < spans.len() ==> (#[trigger] tokens[i]).text == spans[i] {
            assert(tokens[0].text == spans[0]);
            assert forall|i: int| 0 <= i < later_spans.len() implies (#[trigger] later[i]).text
                == later_spans[i] by {
                assert(tokens[i + 1] == later[i]);
                assert(spans[i + 1] == later_spans[i]);
            }
        }
    }
}

/// Where every token carries the characters that it was made of, the texts
/// of all tokens of a source, joined in order, are the source.
pub proof fn lemma_lossless(
    table: Seq<Rule>,
    text: Seq<char>,
    origin: Option<Seq<char>>,
    line: nat,
)
    requires
        verbatim(table, text),
    ensures
        concat_text(lex(table, text, origin, line)) == text,
    decreases text.len(),
{
    if text.len() > 0 {
        let step = scan(table, text);
        let rest = chars_from(text, step.len);
        let next_line = line_after(line, step.kind);
        lemma_scan_advances(table, text);
        lemma_split(text, step.len);
        lemma_lossless(table, rest, origin, next_line);
        lemma_concat_text_front(lex(table, text, origin, line)[0], lex(table, rest, origin, next_line));
    }
}

/// A step whose category the grammar strips nothing off takes as the token's
/// text exactly the characters that it consumes.
pub proof fn lemma_scan_verbatim(table: Seq<Rule>, text: Seq<char>)
    requires
        text.len() > 0,
        !strips(scan(table, text).kind),
    ensures
        scan(table, text).value == chars_before(text, scan(table, text).len),
    decreases table.len(),
{
    if table.len() == 0 {
        assert(text =~= text.take(1) + text.skip(1));
        lemma_join(text.take(1), text.skip(1));
    } else if usable(regex_captures(table[0].1, text), text) {
    } else {
        lemma_scan_verbatim(table.drop_first(), text);
    }
}

/// No token of the stream is a comment, a keyword or a string literal.
pub open spec fn nothing_stripped(tokens: Seq<TokenView>) -> bool {
    forall|i: int| 0 <= i < tokens.len() ==> !strips((#[trigger] tokens[i]).kind)
}

/// Lossless coverage: where a source yields no comment, keyword or string
/// literal, the texts of all its tokens, joined in order, are the source, and
/// no token's text is empty.
pub proof fn lemma_lossless_where_nothing_is_stripped(
    table: Seq<Rule>,
    text: Seq<char>,
    origin: Option<Seq<char>>,
    line: nat,
)
    requires
        nothing_stripped(lex(table, text, origin, line)),
    ensures
        verbatim(table, text),
        concat_text(lex(table, text, origin, line)) == text,
        forall|i: int|
            0 <= i < lex(table, text, origin, line).len() ==> (#[trigger] lex(
                table,
                text,
                origin,
                line,
            )[i]).text.len() > 0,
    decreases text.len(),
{
    if text.len() > 0 {
        let step = scan(table, text);
        let rest = chars_from(text, step.len);
        let next_line = line_after(line, step.kind);
        let tokens = lex(table, text, origin, line);
        let later = lex(table, rest, origin, next_line);
        lemma_scan_advances(table, text);
        assert(tokens.drop_first() =~= later);
        assert(tokens[0].kind == step.kind);
        assert forall|i: int| 0 <= i < later.len() implies !strips((#[trigger] later[i]).kind) by {
            assert(later[i] == tokens[i + 1]);
        }
        lemma_scan_verbatim(table, text);
        lemma_lossless_where_nothing_is_stripped(table, rest, origin, next_line);
        assert forall|i: int| 0 <= i < tokens.len() implies (#[trigger] tokens[i]).text.len()
            > 0 by {
            if i > 0 {
                assert(tokens[i] == later[i - 1]);
            }
        }
    }
    lemma_lossless(table, text, origin, line);
}

/// No rule of the table makes an unrecognized token.
pub open spec fn without_unknown(table: Seq<Rule>) -> bool {
    forall|j: int| 0 <= j < table.len() ==> (#[trigger] table[j]).0 != TokenType::Unknown
}

/// An unrecognized token from a step is the first character alone, where no
/// rule of the table makes such tokens.
pub proof fn lemma_scan_unknown(table: Seq<Rule>, text: Seq<char>)
    requires
        text.len() > 0,
        without_unknown(table),
        scan(table, text).kind == TokenType::Unknown,
    ensures
        scan(table, text).value == text.take(1),
    decreases table.len(),
{
    if table.len() > 0 {
        assert(table[0].0 != TokenType::Unknown);
        if !usable(regex_captures(table[0].1, text), text) {
            assert forall|j: int| 0 <= j < table.drop_first().len() implies (
            #[trigger] table.drop_first()[j]).0 != TokenType::Unknown by {
                assert(table.drop_first()[j] == table[j + 1]);
            }
            lemma_scan_unknown(table.drop_first(), text);
        }
    }
}

/// Every unrecognized token of a stream holds exactly one character, where
/// no rule of the table makes such tokens.
pub proof fn lemma_unknown_is_one_character(
    table: Seq<Rule>,
    text: Seq<char>,
    origin: Option<Seq<char>>,
    line: nat,
)
    requires
        without_unknown(table),
    ensures
        forall|i: int|
            0 <= i < lex(table, text, origin, line).len() && (#[trigger] lex(
                table,
                text,
                origin,
                line,
            )[i]).kind == TokenType::Unknown ==> lex(table, text, origin, line)[i].text.len() == 1,
    decreases text.len(),
{
    if text.len() > 0 {
        let step = scan(table, text);
        let rest = chars_from(text, step.len);
        let next_line = line_after(line, step.kind);
        let tokens = lex(table, text, origin, line);
        let later = lex(table, rest, origin, next_line);
        lemma_scan_advances(table, text);
        lemma_unknown_is_one_character(table, rest, origin, next_line);
        assert(tokens.drop_first() =~= later);
        assert forall|i: int|
            0 <= i < tokens.len() && (#[trigger] tokens[i]).kind
                == TokenType::Unknown implies tokens[i].text.len() == 1 by {
            if i > 0 {
                assert(tokens[i] == later[i - 1]);
            } else {
                lemma_scan_unknown(table, text);
            }
        }
    }
}

/// Adding a rule for a category other than the unrecognized one keeps a
/// table free of rules that make unrecognized tokens.
proof fn lemma_with_rule_without_unknown(table: Seq<Rule>, kind: TokenType, pattern: Seq<char>)
    requires
        without_unknown(table),
        kind != TokenType::Unknown,
    ensures
        without_unknown(with_rule(table, kind, pattern)),
{
}

/// The grammar's table has no rule that makes unrecognized tokens: such a
/// token is always one character that no rule matched.
pub proof fn lemma_pattern_table_without_unknown()
    ensures
        without_unknown(pattern_table()),
{
    let t = Seq::<Rule>::empty();
    lemma_with_rule_without_unknown(t, TokenType::Comment, r"^#\s*([^\n\r]*)"@);
    let t = with_rule(t, TokenType::Comment, r"^#\s*([^\n\r]*)"@);
    lemma_with_rule_without_unknown(t, TokenType::Keyword, r"^(enum)\s"@);
    let t = with_rule(t, TokenType::Keyword, r"^(enum)\s"@);
    lemma_with_rule_without_unknown(t, TokenType::Keyword, r"^(type)\s"@);
    let t = with_rule(t, TokenType::Keyword, r"^(type)\s"@);
    lemma_with_rule_without_unknown(t, TokenType::Keyword, r"^(fn)\s"@);
    let t = with_rule(t, TokenType::Keyword, r"^(fn)\s"@);
    lemma_with_rule_without_unknown(t, TokenType::TagScriptStart, r"^(<\s*script\s*>)"@);
    let t = with_rule(t, TokenType::TagScriptStart, r"^(<\s*script\s*>)"@);
    lemma_with_rule_without_unknown(t, TokenType::TagScriptEnd, r"^(<\/\s*script\s*>)"@);
    let t = with_rule(t, TokenType::TagScriptEnd, r"^(<\/\s*script\s*>)"@);
    lemma_with_rule_without_unknown(t, TokenType::TagStyleStart, r"^(<\s*style\s*>)"@);
    let t = with_rule(t, TokenType::TagStyleStart, r"^(<\s*style\s*>)"@);
    lemma_with_rule_without_unknown(t, TokenType::TagStyleEnd, r"^(<\/\s*style\s*>)"@);
    let t = with_rule(t, TokenType::TagStyleEnd, r"^(<\/\s*style\s*>)"@);
    lemma_with_rule_without_unknown(t, TokenType::TagTemplateStart, r"^(<\s*template\s*>)"@);
    let t = with_rule(t, TokenType::TagTemplateStart, r"^(<\s*template\s*>)"@);
    lemma_with_rule_without_unknown(t, TokenType::TagTemplateEnd, r"^(<\/\s*template\s*>)"@);
    let t = with_rule(t, TokenType::TagTemplateEnd, r"^(<\/\s*template\s*>)"@);
    lemma_with_rule_without_unknown(t, TokenType::Newline, r"^([\n\r])"@);
    let t = with_rule(t, TokenType::Newline, r"^([\n\r])"@);
    lemma_with_rule_without_unknown(t, TokenType::Whitespace, r"^([\s\t]+)"@);
    let t = with_rule(t, TokenType::Whitespace, r"^([\s\t]+)"@);
    lemma_with_rule_without_unknown(t, TokenType::StringLiteral, "^\"(.*?)\""@);
    let t = with_rule(t, TokenType::StringLiteral, "^\"(.*?)\""@);
    lemma_with_rule_without_unknown(t, TokenType::Equal, r"^(=)"@);
    let t = with_rule(t, TokenType::Equal, r"^(=)"@);
    lemma_with_rule_without_unknown(t, TokenType::Minus, r"^(-)"@);
    let t = with_rule(t, TokenType::Minus, r"^(-)"@);
    lemma_with_rule_without_unknown(t, TokenType::Plus, r"^(\+)"@);
    let t = with_rule(t, TokenType::Plus, r"^(\+)"@);
    lemma_with_rule_without_unknown(t, TokenType::CurlyBracketOpen, r"^(\{)"@);
    let t = with_rule(t, TokenType::CurlyBracketOpen, r"^(\{)"@);
    lemma_with_rule_without_unknown(t, TokenType::CurlyBracketClose, r"^(\})"@);
    let t = with_rule(t, TokenType::CurlyBracketClose, r"^(\})"@);
    lemma_with_rule_without_unknown(t, TokenType::BracketOpen, r"^(\()"@);
    let t = with_rule(t, TokenType::BracketOpen, r"^(\()"@);
    lemma_with_rule_without_unknown(t, TokenType::BracketClose, r"^(\))"@);
    let t = with_rule(t, TokenType::BracketClose, r"^(\))"@);
    lemma_with_rule_without_unknown(t, TokenType::SemiColon, r"^(;)"@);
    let t = with_rule(t, TokenType::SemiColon, r"^(;)"@);
    lemma_with_rule_without_unknown(t, TokenType::Pipe, r"^(\|)"@);
    let t = with_rule(t, TokenType::Pipe, r"^(\|)"@);
    lemma_with_rule_without_unknown(t, TokenType::Comma, r"^(,)"@);
    let t = with_rule(t, TokenType::Comma, r"^(,)"@);
    lemma_with_rule_without_unknown(t, TokenType::Period, r"^(\.)"@);
    let t = with_rule(t, TokenType::Period, r"^(\.)"@);
    lemma_with_rule_without_unknown(t, TokenType::Text, r"^([\w:][\w\-:]*)"@);
}

/// Line numbers follow the newlines: the line of each token is that of the
/// token before it (for the first token, the line that the tokenizer started
/// on), plus one if the token is a newline. So lines never go down along the
/// stream.
pub proof fn lemma_lines_follow_newlines(
    table: Seq<Rule>,
    text: Seq<char>,
    origin: Option<Seq<char>>,
    line: nat,
)
    ensures
        ({
            let tokens = lex(table, text, origin, line);
            &&& tokens.len() > 0 ==> tokens[0].line == line_after(line, tokens[0].kind)
            &&& forall|i: int|
                0 < i < tokens.len() ==> #[trigger] tokens[i].line == line_after(
                    tokens[i - 1].line,
                    tokens[i].kind,
                )
            &&& forall|i: int| 0 <= i < tokens.len() ==> line <= #[trigger] tokens[i].line
            &&& forall|i: int, j: int|
                0 <= i <= j < tokens.len() ==> #[trigger] tokens[i].line <= #[trigger] tokens[j].line
        }),
    decreases text.len(),
{
    if text.len() > 0 {
        let step = scan(table, text);
        let rest = chars_from(text, step.len);
        let next_line = line_after(line, step.kind);
        let tokens = lex(table, text, origin, line);
        let later = lex(table, rest, origin, next_line);
        lemma_scan_advances(table, text);
        lemma_lines_follow_newlines(table, rest, origin, next_line);
        assert(tokens.drop_first() =~= later);
        assert forall|i: int| 0 < i < tokens.len() implies #[trigger] tokens[i].line == line_after(
            tokens[i - 1].line,
            tokens[i].kind,
        ) by {
            assert(tokens[i] == later[i - 1]);
            if i > 1 {
                assert(tokens[i - 1] == later[i - 2]);
            }
        }
        assert forall|i: int| 0 <= i < tokens.len() implies line <= #[trigger] tokens[i].line by {
            if i > 0 {
                assert(tokens[i] == later[i - 1]);
            }
        }
        assert forall|i: int, j: int| 0 <= i <= j < tokens.len() implies #[trigger] tokens[i].line
            <= #[trigger] tokens[j].line by {
            if i > 0 {
                assert(tokens[i] == later[i - 1]);
                assert(tokens[j] == later[j - 1]);
            } else if j > 0 {
                assert(tokens[j] == later[j - 1]);
            }
        }
    }
}

/// Looking is idempotent: two looks in a row show the same token, taking
/// after them hands out that very token, and the stream is then shorter by
/// exactly that one token.
pub proof fn lemma_peek_idempotent(
    start: Lexer<LoadedSource>,
    looked: Lexer<LoadedSource>,
    looked_again: Lexer<LoadedSource>,
    taken: Lexer<LoadedSource>,
    first: Option<TokenView>,
    second: Option<TokenView>,
    third: Option<TokenView>,
)
    requires
        looked.peeks(&start, first),
        looked_again.peeks(&looked, second),
        taken.takes(&looked_again, third),
    ensures
        first == second,
        second == third,
        third == head(start.stream()),
        taken.stream() == advance(start.stream()),
{
}

/// The depth stays above zero all through `tokens`, entered at `depth`.
pub open spec fn stays_open(tokens: Seq<TokenView>, open: TokenType, close: TokenType, depth: int) -> bool
    decreases tokens.len(),
{
    tokens.len() > 0 ==> {
        let inner = depth_after(depth, tokens[0].kind, open, close);
        inner > 0 && stays_open(tokens.drop_first(), open, close, inner)
    }
}

/// The depth behind `tokens`, entered at `depth`.
pub open spec fn depth_behind(tokens: Seq<TokenView>, open: TokenType, close: TokenType, depth: int) -> int
    decreases tokens.len(),
{
    if tokens.len() == 0 {
        depth
    } else {
        depth_behind(
            tokens.drop_first(),
            open,
            close,
            depth_after(depth, tokens[0].kind, open, close),
        )
    }
}

/// The markers of a block's own kind inside `body` are properly nested and
/// balanced: each closing marker has its opening marker before it, and none
/// is left open at the end.
pub open spec fn balanced(body: Seq<TokenView>, open: TokenType, close: TokenType) -> bool {
    stays_open(body, open, close, 1) && depth_behind(body, open, close, 1) == 1
}

/// A body that keeps the block open, followed by a closing marker at depth
/// one, is closed by that marker.
pub proof fn lemma_block_closes_behind(
    body: Seq<TokenView>,
    marker: TokenView,
    rest: Seq<TokenView>,
    open: TokenType,
    close: TokenType,
    depth: int,
)
    requires
        open != close,
        marker.kind == close,
        stays_open(body, open, close, depth),
        depth_behind(body, open, close, depth) == 1,
    ensures
        block_close(body + seq![marker] + rest, open, close, depth) == Some(body.len() as int),
    decreases body.len(),
{
    let stream = body + seq![marker] + rest;
    if body.len() == 0 {
        assert(stream[0] == marker);
    } else {
        assert(stream[0] == body[0]);
        assert(stream.drop_first() =~= body.drop_first() + seq![marker] + rest);
        lemma_block_closes_behind(
            body.drop_first(),
            marker,
            rest,
            open,
            close,
            depth_after(depth, body[0].kind, open, close),
        );
    }
}

/// Block balance: where the markers inside a block's body are properly
/// nested and balanced, the block's text is the text of every token of the
/// body, inner markers included as they stand, and the stream goes on behind
/// the closing marker.
pub proof fn lemma_block_balance(
    body: Seq<TokenView>,
    marker: TokenView,
    rest: Seq<TokenView>,
    open: TokenType,
    close: TokenType,
)
    requires
        open != close,
        marker.kind == close,
        balanced(body, open, close),
    ensures
        raw_block(body + seq![marker] + rest, open, close) == Some((concat_text(body), rest)),
{
    let stream = body + seq![marker] + rest;
    lemma_block_closes_behind(body, marker, rest, open, close, 1);
    assert(stream.take(body.len() as int) =~= body);
    assert(stream.skip(body.len() as int + 1) =~= rest);
}

/// A template block with balanced markers inside gives a template node whose
/// text is the text of all tokens strictly between its opening marker and the
/// marker that closes it.
pub proof fn lemma_template_balance(
    opening: TokenView,
    body: Seq<TokenView>,
    closing: TokenView,
    rest: Seq<TokenView>,
)
    requires
        opening.kind == TokenType::TagTemplateStart,
        closing.kind == TokenType::TagTemplateEnd,
        balanced(body, TokenType::TagTemplateStart, TokenType::TagTemplateEnd),
    ensures
        html_block(seq![opening] + body + seq![closing] + rest) == (Outcome {
            result: Ok(Some(Node::Template(concat_text(body)))),
            rest,
        }),
{
    let stream = seq![opening] + body + seq![closing] + rest;
    assert(stream[0] == opening);
    assert(stream.drop_first() =~= body + seq![closing] + rest);
    lemma_block_balance(
        body,
        closing,
        rest,
        TokenType::TagTemplateStart,
        TokenType::TagTemplateEnd,
    );
}

/// A style block with balanced markers inside gives a style node whose text
/// is the text of all tokens strictly between its opening marker and the
/// marker that closes it.
pub proof fn lemma_style_balance(
    opening: TokenView,
    body: Seq<TokenView>,
    closing: TokenView,
    rest: Seq<TokenView>,
)
    requires
        opening.kind == TokenType::TagStyleStart,
        closing.kind == TokenType::TagStyleEnd,
        balanced(body, TokenType::TagStyleStart, TokenType::TagStyleEnd),
    ensures
        html_block(seq![opening] + body + seq![closing] + rest) == (Outcome {
            result: Ok(Some(Node::Style(concat_text(body)))),
            rest,
        }),
{
    let stream = seq![opening] + body + seq![closing] + rest;
    assert(stream[0] == opening);
    assert(stream.drop_first() =~= body + seq![closing] + rest);
    lemma_block_balance(body, closing, rest, TokenType::TagStyleStart, TokenType::TagStyleEnd);
}

/// A lexer that was just loaded has the whole stream of its source before
/// it, counted from line one: what is proved of `lex` holds of the tokens
/// that it hands out.
pub proof fn lemma_loaded_stream<A: LexerState>(
    base: Lexer<A>,
    loaded: Lexer<LoadedSource>,
    source: Seq<char>,
    origin: Option<Seq<char>>,
)
    requires
        loaded.loaded_from(&base, source, origin),
    ensures
        loaded.stream() == lex(base.table(), source, origin, 1),
{
}

/// Lexers loaded with the same source from tables that hold the same rules
/// yield the same stream, and so the same tree or diagnostic: it makes no
/// difference whether the table was compiled once and shared or compiled anew
/// for each source.
pub proof fn lemma_shared_table_is_fresh_table<A: LexerState, B: LexerState>(
    shared: Lexer<A>,
    fresh: Lexer<B>,
    from_shared: Lexer<LoadedSource>,
    from_fresh: Lexer<LoadedSource>,
    source: Seq<char>,
    origin: Option<Seq<char>>,
)
    requires
        shared.table() == fresh.table(),
        from_shared.loaded_from(&shared, source, origin),
        from_fresh.loaded_from(&fresh, source, origin),
    ensures
        from_shared.stream() == from_fresh.stream(),
        document(from_shared.stream(), Seq::empty()) == document(
            from_fresh.stream(),
            Seq::empty(),
        ),
{
}

} // verus!
