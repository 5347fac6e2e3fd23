//! The tokenizer: turns source text into a stream of classified tokens.

use crate::pattern::{captures, compile, duplicate, regex_captures, regex_compiles, regex_pattern};
use crate::text::{
    chars_before, chars_from, lemma_advance, lemma_chars_fit, lemma_encode_nonempty, lemma_join,
    lemma_split, on_boundary,
};
use regex::Regex;
use std::marker::PhantomData;
use vstd::prelude::*;
use vstd::utf8::*;

verus! {

/// The lexical category of a [`Token`].
#[allow(missing_docs)]
#[derive(Debug, PartialEq, Eq, Clone, Copy, Structural)]
pub enum TokenType {
    Unknown,
    BracketClose,
    BracketOpen,
    Comma,
    Comment,
    CurlyBracketClose,
    CurlyBracketOpen,
    Equal,
    Keyword,
    Minus,
    Newline,
    Period,
    Pipe,
    Plus,
    SemiColon,
    StringLiteral,
    TagScriptEnd,
    TagScriptStart,
    TagStyleEnd,
    TagStyleStart,
    TagTemplateEnd,
    TagTemplateStart,
    Text,
    Whitespace,
}

impl Default for TokenType {
    fn default() -> (r: Self)
        ensures
            r == TokenType::Unknown,
    {
        TokenType::Unknown
    }
}

impl TokenType {
    /// The category's name as a sequence of characters.
    pub open spec fn spec_name(self) -> Seq<char> {
        match self {
            TokenType::Unknown => "Unknown"@,
            TokenType::BracketClose => "BracketClose"@,
            TokenType::BracketOpen => "BracketOpen"@,
            TokenType::Comma => "Comma"@,
            TokenType::Comment => "Comment"@,
            TokenType::CurlyBracketClose => "CurlyBracketClose"@,
            TokenType::CurlyBracketOpen => "CurlyBracketOpen"@,
            TokenType::Equal => "Equal"@,
            TokenType::Keyword => "Keyword"@,
            TokenType::Minus => "Minus"@,
            TokenType::Newline => "Newline"@,
            TokenType::Period => "Period"@,
            TokenType::Pipe => "Pipe"@,
            TokenType::Plus => "Plus"@,
            TokenType::SemiColon => "SemiColon"@,
            TokenType::StringLiteral => "StringLiteral"@,
            TokenType::TagScriptEnd => "TagScriptEnd"@,
            TokenType::TagScriptStart => "TagScriptStart"@,
            TokenType::TagStyleEnd => "TagStyleEnd"@,
            TokenType::TagStyleStart => "TagStyleStart"@,
            TokenType::TagTemplateEnd => "TagTemplateEnd"@,
            TokenType::TagTemplateStart => "TagTemplateStart"@,
            TokenType::Text => "Text"@,
            TokenType::Whitespace => "Whitespace"@,
        }
    }

    /// The category's name, as diagnostics print it.
    pub fn name(self) -> (r: &'static str)
        ensures
            r@ == self.spec_name(),
    {
        match self {
            TokenType::Unknown => "Unknown",
            TokenType::BracketClose => "BracketClose",
            TokenType::BracketOpen => "BracketOpen",
            TokenType::Comma => "Comma",
            TokenType::Comment => "Comment",
            TokenType::CurlyBracketClose => "CurlyBracketClose",
            TokenType::CurlyBracketOpen => "CurlyBracketOpen",
            TokenType::Equal => "Equal",
            TokenType::Keyword => "Keyword",
            TokenType::Minus => "Minus",
            TokenType::Newline => "Newline",
            TokenType::Period => "Period",
            TokenType::Pipe => "Pipe",
            TokenType::Plus => "Plus",
            TokenType::SemiColon => "SemiColon",
            TokenType::StringLiteral => "StringLiteral",
            TokenType::TagScriptEnd => "TagScriptEnd",
            TokenType::TagScriptStart => "TagScriptStart",
            TokenType::TagStyleEnd => "TagStyleEnd",
            TokenType::TagStyleStart => "TagStyleStart",
            TokenType::TagTemplateEnd => "TagTemplateEnd",
            TokenType::TagTemplateStart => "TagTemplateStart",
            TokenType::Text => "Text",
            TokenType::Whitespace => "Whitespace",
        }
    }
}

/// A token containing all the info for parsing, code generation and troubleshooting.
#[derive(Debug)]
pub struct Token {
    /// The token type.
    pub token_type: TokenType,
    /// The file path of the source code.
    pub filepath: Option<String>,
    /// The line number in the source code.
    pub line_number: usize,
    /// The token's text, as taken from the source code.
    pub value: String,
}

/// What a [`Token`] stands for in contracts.
pub struct TokenView {
    pub kind: TokenType,
    pub origin: Option<Seq<char>>,
    pub line: nat,
    pub text: Seq<char>,
}

/// The view of an optional path.
pub open spec fn origin_view(origin: Option<String>) -> Option<Seq<char>> {
    match origin {
        Some(p) => Some(p@),
        None => None,
    }
}

fn clone_origin(origin: &Option<String>) -> (r: Option<String>)
    ensures
        origin_view(r) == origin_view(*origin),
{
    match origin {
        Some(p) => Some(p.clone()),
        None => None,
    }
}

impl View for Token {
    type V = TokenView;

    open spec fn view(&self) -> TokenView {
        TokenView {
            kind: self.token_type,
            origin: origin_view(self.filepath),
            line: self.line_number as nat,
            text: self.value@,
        }
    }
}

impl Clone for Token {
    fn clone(&self) -> (r: Self)
        ensures
            r@ == self@,
    {
        Token {
            token_type: self.token_type,
            filepath: clone_origin(&self.filepath),
            line_number: self.line_number,
            value: self.value.clone(),
        }
    }
}

impl Default for Token {
    fn default() -> (r: Self)
        ensures
            r@ == (TokenView {
                kind: TokenType::Unknown,
                origin: None,
                line: 0,
                text: Seq::empty(),
            }),
    {
        Token { token_type: TokenType::Unknown, filepath: None, line_number: 0, value: String::new() }
    }
}

/// The view of an optional token.
pub open spec fn token_view(token: Option<Token>) -> Option<TokenView> {
    match token {
        Some(t) => Some(t@),
        None => None,
    }
}

/// One entry of a pattern table in contracts: a category and the text of the
/// pattern that recognises it.
pub type Rule = (TokenType, Seq<char>);

/// Whether the tokenizer takes a search result as a token: the match starts
/// at the very beginning of the text, is not empty, ends between two
/// characters and has a first capture group.
pub open spec fn usable(found: Option<(nat, nat, Option<Seq<char>>)>, text: Seq<char>) -> bool {
    found matches Some(f) && f.0 == 0 && f.1 > 0 && f.2 is Some && on_boundary(text, f.1 as int)
}

/// One step of the tokenizer: the category found, the token's text and the
/// number of bytes consumed.
pub struct Step {
    pub kind: TokenType,
    pub value: Seq<char>,
    pub len: int,
}

/// Whether the grammar strips delimiters off the tokens of a category: a
/// comment loses its marker, a keyword the layout behind it, a string literal
/// its quotes. Such a token's text is the first capture group of its match;
/// every other token's text is exactly what was matched.
pub open spec fn strips(kind: TokenType) -> bool {
    kind == TokenType::Comment || kind == TokenType::Keyword || kind == TokenType::StringLiteral
}

/// The step that the tokenizer takes at the start of `text`: that of the first
/// rule, in the table's order, whose search result is usable; where there is
/// none, the first character alone as an unrecognized token.
pub open spec fn scan(table: Seq<Rule>, text: Seq<char>) -> Step
    decreases table.len(),
{
    if table.len() == 0 {
        Step {
            kind: TokenType::Unknown,
            value: text.take(1),
            len: encode_utf8(text.take(1)).len() as int,
        }
    } else {
        let found = regex_captures(table[0].1, text);
        if usable(found, text) {
            let (_, end, group) = found.unwrap();
            Step {
                kind: table[0].0,
                value: if strips(table[0].0) {
                    group.unwrap()
                } else {
                    chars_before(text, end as int)
                },
                len: end as int,
            }
        } else {
            scan(table.drop_first(), text)
        }
    }
}

/// A step consumes at least one byte and stops between two characters.
pub proof fn lemma_scan_advances(table: Seq<Rule>, text: Seq<char>)
    requires
        text.len() > 0,
    ensures
        scan(table, text).len > 0,
        on_boundary(text, scan(table, text).len),
        chars_before(text, scan(table, text).len).len() > 0,
        chars_from(text, scan(table, text).len).len() < text.len(),
        encode_utf8(chars_from(text, scan(table, text).len)).len() < encode_utf8(text).len(),
    decreases table.len(),
{
    let n = scan(table, text).len;
    if table.len() == 0 {
        assert(text =~= text.take(1) + text.skip(1));
        lemma_join(text.take(1), text.skip(1));
        lemma_encode_nonempty(text.take(1));
    } else if usable(regex_captures(table[0].1, text), text) {
    } else {
        lemma_scan_advances(table.drop_first(), text);
    }
    lemma_split(text, n);
    lemma_encode_nonempty(chars_before(text, n));
    assert(encode_utf8(chars_before(text, n)).len() == n);
}

/// The line that the tokenizer is on after a token of category `kind`.
pub open spec fn line_after(line: nat, kind: TokenType) -> nat {
    if kind == TokenType::Newline {
        line + 1
    } else {
        line
    }
}

/// The tokens that `text` yields under `table`, the line counter standing at
/// `line` before the first of them.
pub open spec fn lex(table: Seq<Rule>, text: Seq<char>, origin: Option<Seq<char>>, line: nat) -> Seq<
    TokenView,
>
    decreases text.len(),
    via lex_decreases
{
    if text.len() == 0 {
        Seq::empty()
    } else {
        let step = scan(table, text);
        let token = TokenView {
            kind: step.kind,
            origin,
            line: line_after(line, step.kind),
            text: step.value,
        };
        seq![token] + lex(table, chars_from(text, step.len), origin, token.line)
    }
}

#[via_fn]
proof fn lex_decreases(table: Seq<Rule>, text: Seq<char>, origin: Option<Seq<char>>, line: nat) {
    if text.len() > 0 {
        lemma_scan_advances(table, text);
    }
}

/// A text yields no more tokens than it has characters.
pub proof fn lemma_lex_bounded(
    table: Seq<Rule>,
    text: Seq<char>,
    origin: Option<Seq<char>>,
    line: nat,
)
    ensures
        lex(table, text, origin, line).len() <= text.len(),
    decreases text.len(),
{
    if text.len() > 0 {
        let step = scan(table, text);
        lemma_scan_advances(table, text);
        lemma_lex_bounded(
            table,
            chars_from(text, step.len),
            origin,
            line_after(line, step.kind),
        );
    }
}

/// What a diagnostic stands for in contracts: the line, where one is known,
/// and the message.
pub type Diagnosis = (Option<nat>, Seq<char>);

/// The view of a diagnostic.
pub open spec fn diagnostic_view(diagnostic: (Option<usize>, String)) -> Diagnosis {
    (
        match diagnostic.0 {
            Some(line) => Some(line as nat),
            None => None,
        },
        diagnostic.1@,
    )
}

/// A stream without its first token; the empty stream stays empty.
pub open spec fn advance(stream: Seq<TokenView>) -> Seq<TokenView> {
    if stream.len() == 0 {
        stream
    } else {
        stream.drop_first()
    }
}

/// The first token of a stream, if it has one.
pub open spec fn head(stream: Seq<TokenView>) -> Option<TokenView> {
    if stream.len() == 0 {
        None
    } else {
        Some(stream[0])
    }
}

/// Whether a category is insignificant layout.
pub open spec fn is_layout(kind: TokenType) -> bool {
    kind == TokenType::Whitespace || kind == TokenType::Newline
}

/// A stream without the layout tokens that it starts with.
pub open spec fn skip_layout(stream: Seq<TokenView>) -> Seq<TokenView>
    decreases stream.len(),
{
    if stream.len() > 0 && is_layout(stream[0].kind) {
        skip_layout(stream.drop_first())
    } else {
        stream
    }
}

/// The message for a token of the wrong category.
pub open spec fn mismatch_message(expected: TokenType, actual: TokenType) -> Seq<char> {
    "Expected "@ + expected.spec_name() + ", but got "@ + actual.spec_name()
}

/// What asking for a token of category `expected` gives on a stream: its
/// first token if that is of the category, else a diagnostic on that token's
/// line, or one without a line where the stream is empty.
pub open spec fn expectation(stream: Seq<TokenView>, expected: TokenType) -> Result<
    TokenView,
    Diagnosis,
> {
    if stream.len() == 0 {
        Err((None, "Unexpected end of file"@))
    } else if stream[0].kind == expected {
        Ok(stream[0])
    } else {
        Err((Some(stream[0].line), mismatch_message(expected, stream[0].kind)))
    }
}

/// The view of what `expect_token` returns.
pub open spec fn expectation_view(result: Result<Token, (Option<usize>, String)>) -> Result<
    TokenView,
    Diagnosis,
> {
    match result {
        Ok(token) => Ok(token@),
        Err(diagnostic) => Err(diagnostic_view(diagnostic)),
    }
}

/// A [Lexer] state in which the source code has not been loaded yet.
pub struct MissingSource {}

/// A [Lexer] state in which the source code has been loaded.
pub struct LoadedSource {}

/// A [Lexer] state.
pub trait LexerState {

}

impl LexerState for MissingSource {

}

impl LexerState for LoadedSource {

}

/// One compiled entry of the pattern table.
pub struct Pattern {
    kind: TokenType,
    regex: Regex,
}

impl Pattern {
    /// The category and the pattern text that the entry stands for.
    pub closed spec fn rule(&self) -> Rule {
        (self.kind, regex_pattern(self.regex))
    }
}

/// The rules that a table of compiled entries stands for, in its order.
pub open spec fn rules(table: Seq<Pattern>) -> Seq<Rule> {
    Seq::new(table.len(), |i: int| table[i].rule())
}

/// A table with one more rule at its end, if the rule's pattern compiles.
pub open spec fn with_rule(table: Seq<Rule>, kind: TokenType, pattern: Seq<char>) -> Seq<Rule> {
    if regex_compiles(pattern) {
        table.push((kind, pattern))
    } else {
        table
    }
}

/// The grammar's rules in priority order: the first rule that matches at the
/// current position wins. Block markers and keywords stand before the rule
/// for plain text, which would match their letters too.
pub open spec fn pattern_table() -> Seq<Rule> {
    let t = Seq::<Rule>::empty();
    let t = with_rule(t, TokenType::Comment, r"^#\s*([^\n\r]*)"@);
    let t = with_rule(t, TokenType::Keyword, r"^(enum)\s"@);
    let t = with_rule(t, TokenType::Keyword, r"^(type)\s"@);
    let t = with_rule(t, TokenType::Keyword, r"^(fn)\s"@);
    let t = with_rule(t, TokenType::TagScriptStart, r"^(<\s*script\s*>)"@);
    let t = with_rule(t, TokenType::TagScriptEnd, r"^(<\/\s*script\s*>)"@);
    let t = with_rule(t, TokenType::TagStyleStart, r"^(<\s*style\s*>)"@);
    let t = with_rule(t, TokenType::TagStyleEnd, r"^(<\/\s*style\s*>)"@);
    let t = with_rule(t, TokenType::TagTemplateStart, r"^(<\s*template\s*>)"@);
    let t = with_rule(t, TokenType::TagTemplateEnd, r"^(<\/\s*template\s*>)"@);
    let t = with_rule(t, TokenType::Newline, r"^([\n\r])"@);
    let t = with_rule(t, TokenType::Whitespace, r"^([\s\t]+)"@);
    let t = with_rule(t, TokenType::StringLiteral, "^\"(.*?)\""@);
    let t = with_rule(t, TokenType::Equal, r"^(=)"@);
    let t = with_rule(t, TokenType::Minus, r"^(-)"@);
    let t = with_rule(t, TokenType::Plus, r"^(\+)"@);
    let t = with_rule(t, TokenType::CurlyBracketOpen, r"^(\{)"@);
    let t = with_rule(t, TokenType::CurlyBracketClose, r"^(\})"@);
    let t = with_rule(t, TokenType::BracketOpen, r"^(\()"@);
    let t = with_rule(t, TokenType::BracketClose, r"^(\))"@);
    let t = with_rule(t, TokenType::SemiColon, r"^(;)"@);
    let t = with_rule(t, TokenType::Pipe, r"^(\|)"@);
    let t = with_rule(t, TokenType::Comma, r"^(,)"@);
    let t = with_rule(t, TokenType::Period, r"^(\.)"@);
    let t = with_rule(t, TokenType::Text, r"^([\w:][\w\-:]*)"@);
    t
}

/// Compiles `pattern` and puts it at the end of the table; a pattern that the
/// engine turns down is left out.
fn add_rule(table: &mut Vec<Pattern>, kind: TokenType, pattern: &str)
    ensures
        rules(final(table)@) == with_rule(rules(old(table)@), kind, pattern@),
{
    match compile(pattern) {
        Ok(regex) => {
            table.push(Pattern { kind, regex });
            assert(rules(table@) =~= rules(old(table)@).push((kind, pattern@)));
        },
        Err(_) => {},
    }
}

/// A copy of a table of compiled entries.
fn clone_table(table: &Vec<Pattern>) -> (r: Vec<Pattern>)
    ensures
        rules(r@) == rules(table@),
{
    let mut copy: Vec<Pattern> = Vec::new();
    let mut i: usize = 0;
    while i < table.len()
        invariant
            i <= table.len(),
            copy.len() == i,
            forall|j: int| 0 <= j < i ==> copy[j].rule() == table[j].rule(),
        decreases table.len() - i,
    {
        copy.push(Pattern { kind: table[i].kind, regex: duplicate(&table[i].regex) });
        i += 1;
    }
    assert(rules(copy@) =~= rules(table@));
    copy
}

fn strips_delimiters(kind: TokenType) -> (r: bool)
    ensures
        r == strips(kind),
{
    match kind {
        TokenType::Comment | TokenType::Keyword | TokenType::StringLiteral => true,
        _ => false,
    }
}

/// Takes one step at the start of `text`.
fn scan_text(table: &Vec<Pattern>, text: &str) -> (r: (TokenType, String, usize))
    requires
        text@.len() > 0,
    ensures
        r.0 == scan(rules(table@), text@).kind,
        r.1@ == scan(rules(table@), text@).value,
        r.2 as int == scan(rules(table@), text@).len,
{
    let mut i: usize = 0;
    assert(rules(table@).skip(0) =~= rules(table@));
    while i < table.len()
        invariant
            i <= table.len(),
            scan(rules(table@), text@) == scan(rules(table@).skip(i as int), text@),
        decreases table.len() - i,
    {
        let found = captures(&table[i].regex, text);
        proof {
            let left = rules(table@).skip(i as int);
            assert(left[0] == table[i as int].rule());
            assert(left.drop_first() =~= rules(table@).skip(i + 1));
        }
        match found {
            Some(f) => {
                if f.start == 0 && f.end > 0 {
                    match f.group {
                        Some(group) => {
                            let kind = table[i].kind;
                            if strips_delimiters(kind) {
                                return (kind, group, f.end);
                            }
                            let (matched, _) = text.split_at(f.end);
                            proof {
                                encode_utf8_decode_utf8(matched@);
                            }
                            return (kind, matched.to_owned(), f.end);
                        },
                        None => {},
                    }
                }
            },
            None => {},
        }
        i += 1;
    }
    let first = text.substring_char(0, 1);
    let len = first.as_bytes().len();
    proof {
        assert(rules(table@).skip(i as int).len() == 0);
        assert(first@ =~= text@.take(1));
    }
    (TokenType::Unknown, first.to_owned(), len)
}

/// Turns source code into a stream of [Token]s.
///
/// A lexer is made once, which compiles the grammar's patterns, and then
/// loaded with one source after the other; each load hands out a lexer of its
/// own that shares nothing with the others but a copy of the compiled table.
pub struct Lexer<S: LexerState> {
    source: String,
    filepath: Option<String>,
    offset: usize,
    line_number: usize,
    regexes: Vec<Pattern>,
    peeked_token: Option<Token>,
    marker: PhantomData<S>,
}

impl<S: LexerState> Lexer<S> {
    #[verifier::type_invariant]
    spec fn wf(self) -> bool {
        &&& on_boundary(self.source@, self.offset as int)
        &&& encode_utf8(self.source@).len() < usize::MAX
        &&& self.line_number <= self.offset + 1
        &&& self.peeked_token is Some ==> self.offset > 0
    }

    /// The pattern table that the lexer runs on.
    pub closed spec fn table(&self) -> Seq<Rule> {
        rules(self.regexes@)
    }

    /// The path that the lexer's tokens carry.
    pub closed spec fn origin(&self) -> Option<Seq<char>> {
        origin_view(self.filepath)
    }

    /// The part of the source that no token was made of yet.
    pub closed spec fn remaining(&self) -> Seq<char> {
        chars_from(self.source@, self.offset as int)
    }

    /// The line counter.
    pub closed spec fn line(&self) -> nat {
        self.line_number as nat
    }

    /// The token that was looked at and not yet taken.
    pub closed spec fn peeked(&self) -> Option<TokenView> {
        token_view(self.peeked_token)
    }

    /// The tokens that the rest of the source will yield.
    pub open spec fn pending(&self) -> Seq<TokenView> {
        lex(self.table(), self.remaining(), self.origin(), self.line())
    }

    /// All tokens that the lexer has yet to hand out, the next one first.
    pub open spec fn stream(&self) -> Seq<TokenView> {
        match self.peeked() {
            Some(token) => seq![token] + self.pending(),
            None => self.pending(),
        }
    }

    /// The lexer is `before` after a look at the next token, which was
    /// `token`: nothing has changed.
    pub open spec fn peeks(&self, before: &Self, token: Option<TokenView>) -> bool {
        &&& self.table() == before.table()
        &&& self.origin() == before.origin()
        &&& token == head(before.stream())
        &&& self.stream() == before.stream()
    }

    /// The lexer is `before` after the next token, `token`, was taken out:
    /// the stream is shorter by that token, and no token is held back.
    pub open spec fn takes(&self, before: &Self, token: Option<TokenView>) -> bool {
        &&& self.table() == before.table()
        &&& self.origin() == before.origin()
        &&& token == head(before.stream())
        &&& self.stream() == advance(before.stream())
        &&& self.peeked() is None
    }

    /// The lexer stands at the start of `source`, which it reads under the
    /// table of `base` and attributes to `origin`.
    pub open spec fn loaded_from<T: LexerState>(
        &self,
        base: &Lexer<T>,
        source: Seq<char>,
        origin: Option<Seq<char>>,
    ) -> bool {
        &&& self.table() == base.table()
        &&& self.origin() == origin
        &&& self.remaining() == source
        &&& self.line() == 1
        &&& self.peeked() is None
    }

    /// Loads a source file that was read beforehand: `source` is what the
    /// file at `filepath` holds. It must take up fewer than `usize::MAX`
    /// bytes, so that its lines can be counted.
    pub fn load_file(&self, filepath: &str, source: String) -> (r: Lexer<LoadedSource>)
        requires
            encode_utf8(source@).len() < usize::MAX,
        ensures
            r.loaded_from(self, source@, Some(filepath@)),
    {
        proof {
            lemma_whole(source@);
        }
        Lexer {
            source,
            filepath: Some(filepath.to_owned()),
            offset: 0,
            line_number: 1,
            regexes: clone_table(&self.regexes),
            peeked_token: None,
            marker: PhantomData,
        }
    }

    /// Loads source code, which must take up fewer than `usize::MAX` bytes, so
    /// that its lines can be counted.
    pub fn load_source(&self, source: String) -> (r: Lexer<LoadedSource>)
        requires
            encode_utf8(source@).len() < usize::MAX,
        ensures
            r.loaded_from(self, source@, None),
    {
        proof {
            lemma_whole(source@);
        }
        Lexer {
            source,
            filepath: None,
            offset: 0,
            line_number: 1,
            regexes: clone_table(&self.regexes),
            peeked_token: None,
            marker: PhantomData,
        }
    }
}

/// A text cut at offset zero is the whole text.
proof fn lemma_whole(text: Seq<char>)
    ensures
        on_boundary(text, 0),
        chars_from(text, 0) == text,
{
    lemma_join(Seq::<char>::empty(), text);
    assert(Seq::<char>::empty() + text =~= text);
}

impl<S: LexerState> Default for Lexer<S> {
    fn default() -> (r: Lexer<S>)
        ensures
            r.table() == Seq::<Rule>::empty(),
            r.origin() is None,
            r.remaining() == Seq::<char>::empty(),
            r.line() == 1,
            r.peeked() is None,
    {
        let source = String::new();
        proof {
            lemma_whole(source@);
        }
        Lexer {
            source,
            filepath: None,
            offset: 0,
            line_number: 1,
            regexes: Vec::new(),
            peeked_token: None,
            marker: PhantomData,
        }
    }
}

impl Lexer<MissingSource> {
    /// Creates a new [Lexer].
    ///
    /// Compiles the grammar's patterns, so avoid creating a new lexer for every
    /// source file: load each file from one lexer instead. The table holds, in
    /// the grammar's order, every pattern that the engine accepts.
    pub fn new() -> (r: Self)
        ensures
            r.table() == pattern_table(),
            r.origin() is None,
            r.remaining() == Seq::<char>::empty(),
            r.line() == 1,
            r.peeked() is None,
    {
        let source = String::new();
        proof {
            lemma_whole(source@);
        }
        Lexer {
            source,
            filepath: None,
            offset: 0,
            line_number: 1,
            regexes: Self::compile_regexes(),
            peeked_token: None,
            marker: PhantomData,
        }
    }

    fn compile_regexes() -> (r: Vec<Pattern>)
        ensures
            rules(r@) == pattern_table(),
    {
        let mut t: Vec<Pattern> = Vec::new();
        assert(rules(t@) =~= Seq::<Rule>::empty());
        add_rule(&mut t, TokenType::Comment, r"^#\s*([^\n\r]*)");
        add_rule(&mut t, TokenType::Keyword, r"^(enum)\s");
        add_rule(&mut t, TokenType::Keyword, r"^(type)\s");
        add_rule(&mut t, TokenType::Keyword, r"^(fn)\s");
        add_rule(&mut t, TokenType::TagScriptStart, r"^(<\s*script\s*>)");
        add_rule(&mut t, TokenType::TagScriptEnd, r"^(<\/\s*script\s*>)");
        add_rule(&mut t, TokenType::TagStyleStart, r"^(<\s*style\s*>)");
        add_rule(&mut t, TokenType::TagStyleEnd, r"^(<\/\s*style\s*>)");
        add_rule(&mut t, TokenType::TagTemplateStart, r"^(<\s*template\s*>)");
        add_rule(&mut t, TokenType::TagTemplateEnd, r"^(<\/\s*template\s*>)");
        add_rule(&mut t, TokenType::Newline, r"^([\n\r])");
        add_rule(&mut t, TokenType::Whitespace, r"^([\s\t]+)");
        add_rule(&mut t, TokenType::StringLiteral, "^\"(.*?)\"");
        add_rule(&mut t, TokenType::Equal, r"^(=)");
        add_rule(&mut t, TokenType::Minus, r"^(-)");
        add_rule(&mut t, TokenType::Plus, r"^(\+)");
        add_rule(&mut t, TokenType::CurlyBracketOpen, r"^(\{)");
        add_rule(&mut t, TokenType::CurlyBracketClose, r"^(\})");
        add_rule(&mut t, TokenType::BracketOpen, r"^(\()");
        add_rule(&mut t, TokenType::BracketClose, r"^(\))");
        add_rule(&mut t, TokenType::SemiColon, r"^(;)");
        add_rule(&mut t, TokenType::Pipe, r"^(\|)");
        add_rule(&mut t, TokenType::Comma, r"^(,)");
        add_rule(&mut t, TokenType::Period, r"^(\.)");
        add_rule(&mut t, TokenType::Text, r"^([\w:][\w\-:]*)");
        t
    }
}

impl Lexer<LoadedSource> {
    fn create_token(&self, token_type: TokenType, value: Option<String>) -> (r: Token)
        ensures
            r@ == (TokenView {
                kind: token_type,
                origin: self.origin(),
                line: self.line(),
                text: match value {
                    Some(v) => v@,
                    None => Seq::empty(),
                },
            }),
    {
        Token {
            token_type,
            value: match value {
                Some(v) => v,
                None => String::new(),
            },
            filepath: clone_origin(&self.filepath),
            line_number: self.line_number,
        }
    }

    /// Makes the next token out of the source, past any token looked at.
    fn read_token(&mut self) -> (r: Option<Token>)
        requires
            old(self).peeked() is None,
        ensures
            final(self).table() == old(self).table(),
            final(self).origin() == old(self).origin(),
            final(self).peeked() is None,
            token_view(r) == head(old(self).stream()),
            final(self).stream() == advance(old(self).stream()),
            r is Some ==> final(self).offset > 0,
    {
        proof {
            use_type_invariant(&*self);
        }
        let (_, text) = self.source.as_str().split_at(self.offset);
        proof {
            lemma_split(self.source@, self.offset as int);
            encode_utf8_decode_utf8(text@);
            assert(text@ == self.remaining());
        }
        if text.is_empty() {
            return None;
        }
        let (kind, value, len) = scan_text(&self.regexes, text);
        proof {
            lemma_scan_advances(self.table(), text@);
            lemma_advance(self.source@, self.offset as int, len as int);
        }
        self.offset = self.offset + len;
        if kind == TokenType::Newline {
            self.line_number = self.line_number + 1;
        }
        let token = self.create_token(kind, Some(value));
        assert(advance(old(self).stream()) =~= self.stream());
        Some(token)
    }

    /// Hands out the next token, or nothing once the stream has run dry.
    ///
    /// A stream never holds more tokens than its source has bytes, so that
    /// they can be counted in a `usize`.
    pub fn next(&mut self) -> (r: Option<Token>)
        ensures
            final(self).takes(old(self), token_view(r)),
            old(self).stream().len() < usize::MAX,
    {
        proof {
            use_type_invariant(&*self);
            lemma_lex_bounded(self.table(), self.remaining(), self.origin(), self.line());
            lemma_split(self.source@, self.offset as int);
            lemma_chars_fit(self.remaining());
        }
        if self.peeked_token.is_some() {
            let token = clone_token(&self.peeked_token);
            self.peeked_token = None;
            assert(advance(old(self).stream()) =~= self.stream());
            return token;
        }
        self.read_token()
    }

    /// Flushes whitespace and newline tokens.
    pub fn flush_whitespace(&mut self)
        ensures
            final(self).table() == old(self).table(),
            final(self).origin() == old(self).origin(),
            final(self).stream() == skip_layout(old(self).stream()),
    {
        loop
            invariant
                self.table() == old(self).table(),
                self.origin() == old(self).origin(),
                skip_layout(self.stream()) == skip_layout(old(self).stream()),
            ensures
                self.stream() == skip_layout(old(self).stream()),
            decreases self.stream().len(),
        {
            match self.peek() {
                Some(token) => {
                    if token.token_type != TokenType::Whitespace && token.token_type
                        != TokenType::Newline {
                        break ;
                    }
                },
                None => {
                    break ;
                },
            }
            self.next();
        }
    }

    /// Takes the next token and returns it if it is of the expected
    /// category; otherwise returns a diagnostic.
    pub fn expect_token(&mut self, expected_token_type: TokenType) -> (r: Result<
        Token,
        (Option<usize>, String),
    >)
        ensures
            final(self).table() == old(self).table(),
            final(self).origin() == old(self).origin(),
            final(self).peeked() is None,
            expectation_view(r) == expectation(old(self).stream(), expected_token_type),
            final(self).stream() == advance(old(self).stream()),
    {
        match self.next() {
            Some(token) => {
                if token.token_type == expected_token_type {
                    Ok(token)
                } else {
                    let mut message = "Expected ".to_owned();
                    message.append(expected_token_type.name());
                    message.append(", but got ");
                    message.append(token.token_type.name());
                    Err((Some(token.line_number), message))
                }
            },
            None => Err((None, "Unexpected end of file".to_owned())),
        }
    }
}

fn clone_token(token: &Option<Token>) -> (r: Option<Token>)
    ensures
        token_view(r) == token_view(*token),
{
    match token {
        Some(t) => Some(t.clone()),
        None => None,
    }
}

/// A stream of items which allows for peeking.
pub trait Peekable<Item> {
    /// Returns the next item in the stream.
    fn peek(&mut self) -> Option<Item>;
}

impl Peekable<Token> for Lexer<LoadedSource> {
    /// Returns the next token in the stream and leaves it there.
    fn peek(&mut self) -> (r: Option<Token>)
        ensures
            final(self).peeks(old(self), token_view(r)),
    {
        if self.peeked_token.is_some() {
            return clone_token(&self.peeked_token);
        }
        let token = self.read_token();
        let copy = clone_token(&token);
        proof {
            use_type_invariant(&*self);
        }
        self.peeked_token = token;
        assert(self.stream() =~= old(self).stream());
        copy
    }
}

} // verus!
