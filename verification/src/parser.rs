//! The tree builder: folds a token stream into a syntax tree.

use crate::lexer::{
    advance, diagnostic_view, expectation, head, is_layout, skip_layout, Diagnosis, Lexer,
    LoadedSource, Peekable, Token, TokenType, TokenView,
};
use vstd::prelude::*;
use vstd::string::StringExecFns;

verus! {

/// A node in an Abstract Syntax Tree.
#[derive(Debug, PartialEq, Eq)]
pub enum ASTNode {
    /// The root of the AST.
    Root(Vec<ASTNode>),
    /// An HTML template.
    Template(String),
    /// A style block.
    Style(String),
    /// A script block.
    Script(Vec<ASTNode>),
    /// A comment.
    Comment(String),
    /// An enum.
    Enum(String, Vec<ASTNode>),
    /// An enum value.
    EnumValue(String),
}

/// What an [`ASTNode`] stands for in contracts.
pub enum Node {
    Root(Seq<Node>),
    Template(Seq<char>),
    Style(Seq<char>),
    Script(Seq<Node>),
    Comment(Seq<char>),
    Enum(Seq<char>, Seq<Node>),
    EnumValue(Seq<char>),
}

impl ASTNode {
    /// The tree that the node stands for.
    pub open spec fn view(&self) -> Node
        decreases self,
    {
        match self {
            ASTNode::Root(blocks) => Node::Root(views(blocks@)),
            ASTNode::Template(text) => Node::Template(text@),
            ASTNode::Style(text) => Node::Style(text@),
            ASTNode::Script(statements) => Node::Script(views(statements@)),
            ASTNode::Comment(text) => Node::Comment(text@),
            ASTNode::Enum(name, values) => Node::Enum(name@, views(values@)),
            ASTNode::EnumValue(name) => Node::EnumValue(name@),
        }
    }
}

/// The trees that a list of nodes stands for, in its order.
pub open spec fn views(nodes: Seq<ASTNode>) -> Seq<Node>
    decreases nodes,
{
    if nodes.len() == 0 {
        Seq::empty()
    } else {
        views(nodes.drop_last()).push(nodes.last().view())
    }
}

/// What a parsing routine makes of a stream: a value or a diagnostic, and the
/// tokens that it leaves.
pub struct Outcome<T> {
    pub result: Result<T, Diagnosis>,
    pub rest: Seq<TokenView>,
}

/// The view of what a parsing routine returns.
pub open spec fn parsed_view(result: Result<Option<ASTNode>, (Option<usize>, String)>) -> Result<
    Option<Node>,
    Diagnosis,
> {
    match result {
        Ok(Some(node)) => Ok(Some(node@)),
        Ok(None) => Ok(None),
        Err(diagnostic) => Err(diagnostic_view(diagnostic)),
    }
}

/// The texts of a run of tokens, joined in order.
pub open spec fn concat_text(tokens: Seq<TokenView>) -> Seq<char>
    decreases tokens.len(),
{
    if tokens.len() == 0 {
        Seq::empty()
    } else {
        concat_text(tokens.drop_last()) + tokens.last().text
    }
}

/// The nesting depth behind a token of category `kind`, the depth before it
/// being `depth`.
pub open spec fn depth_after(depth: int, kind: TokenType, open: TokenType, close: TokenType) -> int {
    if kind == open {
        depth + 1
    } else if kind == close {
        depth - 1
    } else {
        depth
    }
}

/// The index in `stream` of the marker that closes a block entered at nesting
/// depth `depth`: the first token behind which the depth is zero. `None` where
/// the stream ends before that.
pub open spec fn block_close(
    stream: Seq<TokenView>,
    open: TokenType,
    close: TokenType,
    depth: int,
) -> Option<int>
    decreases stream.len(),
{
    if stream.len() == 0 {
        None
    } else {
        let inner = depth_after(depth, stream[0].kind, open, close);
        if inner <= 0 {
            Some(0)
        } else {
            match block_close(stream.drop_first(), open, close, inner) {
                Some(k) => Some(k + 1),
                None => None,
            }
        }
    }
}

/// An index counted from `by` tokens further back.
pub open spec fn shifted(index: Option<int>, by: int) -> Option<int> {
    match index {
        Some(k) => Some(k + by),
        None => None,
    }
}

/// The marker that closes a block lies inside the stream.
pub proof fn lemma_block_close_in_range(
    stream: Seq<TokenView>,
    open: TokenType,
    close: TokenType,
    depth: int,
)
    ensures
        block_close(stream, open, close, depth) matches Some(k) ==> 0 <= k < stream.len(),
    decreases stream.len(),
{
    if stream.len() > 0 {
        lemma_block_close_in_range(
            stream.drop_first(),
            open,
            close,
            depth_after(depth, stream[0].kind, open, close),
        );
    }
}

/// What reading a raw block makes of the stream behind its opening marker:
/// the text of every token before the marker that closes the block, and the
/// tokens behind that marker; nothing where no marker closes it.
pub open spec fn raw_block(stream: Seq<TokenView>, open: TokenType, close: TokenType) -> Option<
    (Seq<char>, Seq<TokenView>),
> {
    match block_close(stream, open, close, 1) {
        Some(k) => Some((concat_text(stream.take(k)), stream.skip(k + 1))),
        None => None,
    }
}

/// Reads the body of a block whose opening marker was taken already, up to
/// and including the marker that closes it. Markers of the block's own kind
/// may nest; they and all other tokens go into the text as they stand. Where
/// the stream ends inside the block, all of it is used up.
fn parse_raw_block(tokens: &mut Lexer<LoadedSource>, open: TokenType, close: TokenType) -> (r:
    Option<String>)
    requires
        old(tokens).stream().len() < usize::MAX,
    ensures
        final(tokens).table() == old(tokens).table(),
        final(tokens).origin() == old(tokens).origin(),
        match r {
            Some(text) => raw_block(old(tokens).stream(), open, close) == Some(
                (text@, final(tokens).stream()),
            ),
            None => raw_block(old(tokens).stream(), open, close) is None && final(tokens).stream()
                == Seq::<TokenView>::empty(),
        },
{
    let mut open_blocks: usize = 1;
    let mut value = String::new();
    let ghost s0 = tokens.stream();
    let ghost mut i: int = 0;
    proof {
        assert(s0.skip(0) =~= s0);
        assert(s0.take(0) =~= Seq::<TokenView>::empty());
    }
    while open_blocks > 0
        invariant
            tokens.table() == old(tokens).table(),
            tokens.origin() == old(tokens).origin(),
            s0 == old(tokens).stream(),
            s0.len() < usize::MAX,
            0 <= i <= s0.len(),
            tokens.stream() == s0.skip(i),
            open_blocks <= i + 1,
            open_blocks > 0 ==> value@ == concat_text(s0.take(i)) && block_close(s0, open, close, 1)
                == shifted(block_close(s0.skip(i), open, close, open_blocks as int), i),
            open_blocks == 0 ==> i >= 1 && value@ == concat_text(s0.take(i - 1)) && block_close(
                s0,
                open,
                close,
                1,
            ) == Some(i - 1),
        decreases s0.len() - i + (if open_blocks > 0 { 1int } else { 0int }),
    {
        let token = match tokens.next() {
            Some(token) => token,
            None => {
                assert(tokens.stream() =~= Seq::<TokenView>::empty());
                return None;
            },
        };
        if token.token_type == open {
            open_blocks = open_blocks + 1;
        } else if token.token_type == close {
            open_blocks = open_blocks - 1;
        }
        if open_blocks > 0 {
            value.append(token.value.as_str());
        }
        proof {
            assert(s0.skip(i)[0] == s0[i]);
            assert(s0.skip(i).drop_first() =~= s0.skip(i + 1));
            assert(s0.take(i + 1).drop_last() =~= s0.take(i));
            assert(s0.take(i + 1).last() == s0[i]);
            i = i + 1;
        }
    }
    Some(value)
}

/// What a template block makes of the stream behind its opening marker.
pub open spec fn template_block(stream: Seq<TokenView>) -> Outcome<Option<Node>> {
    match raw_block(stream, TokenType::TagTemplateStart, TokenType::TagTemplateEnd) {
        Some((text, rest)) => Outcome { result: Ok(Some(Node::Template(text))), rest },
        None => Outcome {
            result: Err((None, "Missing closing </template> tag."@)),
            rest: Seq::empty(),
        },
    }
}

/// What a style block makes of the stream behind its opening marker.
pub open spec fn style_block(stream: Seq<TokenView>) -> Outcome<Option<Node>> {
    match raw_block(stream, TokenType::TagStyleStart, TokenType::TagStyleEnd) {
        Some((text, rest)) => Outcome { result: Ok(Some(Node::Style(text))), rest },
        None => Outcome {
            result: Err((None, "Missing closing </style> tag."@)),
            rest: Seq::empty(),
        },
    }
}

/// Parses a template block.
fn parse_template_block(tokens: &mut Lexer<LoadedSource>) -> (r: Result<
    Option<ASTNode>,
    (Option<usize>, String),
>)
    requires
        old(tokens).stream().len() < usize::MAX,
    ensures
        final(tokens).table() == old(tokens).table(),
        final(tokens).origin() == old(tokens).origin(),
        parsed_view(r) == template_block(old(tokens).stream()).result,
        final(tokens).stream() == template_block(old(tokens).stream()).rest,
{
    match parse_raw_block(tokens, TokenType::TagTemplateStart, TokenType::TagTemplateEnd) {
        Some(value) => Ok(Some(ASTNode::Template(value))),
        None => Err((None, "Missing closing </template> tag.".to_owned())),
    }
}

/// Parses a style block.
fn parse_style_block(tokens: &mut Lexer<LoadedSource>) -> (r: Result<
    Option<ASTNode>,
    (Option<usize>, String),
>)
    requires
        old(tokens).stream().len() < usize::MAX,
    ensures
        final(tokens).table() == old(tokens).table(),
        final(tokens).origin() == old(tokens).origin(),
        parsed_view(r) == style_block(old(tokens).stream()).result,
        final(tokens).stream() == style_block(old(tokens).stream()).rest,
{
    match parse_raw_block(tokens, TokenType::TagStyleStart, TokenType::TagStyleEnd) {
        Some(value) => Ok(Some(ASTNode::Style(value))),
        None => Err((None, "Missing closing </style> tag.".to_owned())),
    }
}

/// Skipping layout never lengthens a stream.
pub proof fn lemma_skip_layout_shorter(stream: Seq<TokenView>)
    ensures
        skip_layout(stream).len() <= stream.len(),
    decreases stream.len(),
{
    if stream.len() > 0 && is_layout(stream[0].kind) {
        lemma_skip_layout_shorter(stream.drop_first());
    }
}

/// What the list of an enum's values makes of the stream behind `{` or `|`:
/// layout, a value's name, layout, and then `}`, which ends the list, or `|`,
/// behind which the list goes on. Another delimiter is an error on the line
/// of the enum's name, `name_line`; a stream that ends behind a value is one
/// on that value's line. `found` holds the values read so far.
pub open spec fn enum_values(stream: Seq<TokenView>, name_line: nat, found: Seq<Node>) -> Outcome<
    Seq<Node>,
>
    decreases stream.len(),
    via enum_values_decreases
{
    let at_value = skip_layout(stream);
    match expectation(at_value, TokenType::Text) {
        Err(diagnosis) => Outcome { result: Err(diagnosis), rest: advance(at_value) },
        Ok(value) => {
            let found = found.push(Node::EnumValue(value.text));
            let at_delimiter = skip_layout(advance(at_value));
            if at_delimiter.len() == 0 {
                Outcome {
                    result: Err((Some(value.line), "Expected `}` or `|`"@)),
                    rest: at_delimiter,
                }
            } else if at_delimiter[0].kind == TokenType::CurlyBracketClose {
                Outcome { result: Ok(found), rest: at_delimiter.drop_first() }
            } else if at_delimiter[0].kind == TokenType::Pipe {
                enum_values(at_delimiter.drop_first(), name_line, found)
            } else {
                Outcome {
                    result: Err((Some(name_line), "Syntax error"@)),
                    rest: at_delimiter.drop_first(),
                }
            }
        },
    }
}

#[via_fn]
proof fn enum_values_decreases(stream: Seq<TokenView>, name_line: nat, found: Seq<Node>) {
    lemma_skip_layout_shorter(stream);
    lemma_skip_layout_shorter(advance(skip_layout(stream)));
}

/// The list of an enum's values leaves no more tokens than it was given.
pub proof fn lemma_enum_values_rest(stream: Seq<TokenView>, name_line: nat, found: Seq<Node>)
    ensures
        enum_values(stream, name_line, found).rest.len() <= stream.len(),
    decreases stream.len(),
{
    lemma_skip_layout_shorter(stream);
    lemma_skip_layout_shorter(advance(skip_layout(stream)));
    let at_value = skip_layout(stream);
    if expectation(at_value, TokenType::Text) is Ok {
        let at_delimiter = skip_layout(advance(at_value));
        if at_delimiter.len() > 0 && at_delimiter[0].kind == TokenType::Pipe {
            lemma_enum_values_rest(
                at_delimiter.drop_first(),
                name_line,
                found.push(Node::EnumValue(at_value[0].text)),
            );
        }
    }
}

/// What an enum declaration makes of a stream: the keyword, the enum's name,
/// `=`, `{` and the list of values, with layout between them.
pub open spec fn enum_decl(stream: Seq<TokenView>) -> Outcome<Option<Node>> {
    let keyword = expectation(stream, TokenType::Keyword);
    let at_name = skip_layout(advance(stream));
    let name = expectation(at_name, TokenType::Text);
    let at_equal = skip_layout(advance(at_name));
    let equal = expectation(at_equal, TokenType::Equal);
    let at_open = skip_layout(advance(at_equal));
    let open = expectation(at_open, TokenType::CurlyBracketOpen);
    if keyword is Err {
        Outcome { result: Err(keyword->Err_0), rest: advance(stream) }
    } else if name is Err {
        Outcome { result: Err(name->Err_0), rest: advance(at_name) }
    } else if equal is Err {
        Outcome { result: Err(equal->Err_0), rest: advance(at_equal) }
    } else if open is Err {
        Outcome { result: Err(open->Err_0), rest: advance(at_open) }
    } else {
        let values = enum_values(advance(at_open), name->Ok_0.line, Seq::empty());
        match values.result {
            Ok(list) => Outcome {
                result: Ok(Some(Node::Enum(name->Ok_0.text, list))),
                rest: values.rest,
            },
            Err(diagnosis) => Outcome { result: Err(diagnosis), rest: values.rest },
        }
    }
}

/// An enum declaration uses up at least one token.
pub proof fn lemma_enum_decl_rest(stream: Seq<TokenView>)
    requires
        stream.len() > 0,
    ensures
        enum_decl(stream).rest.len() < stream.len(),
{
    let at_name = skip_layout(advance(stream));
    let at_equal = skip_layout(advance(at_name));
    let at_open = skip_layout(advance(at_equal));
    lemma_skip_layout_shorter(advance(stream));
    lemma_skip_layout_shorter(advance(at_name));
    lemma_skip_layout_shorter(advance(at_equal));
    if expectation(at_name, TokenType::Text) is Ok {
        lemma_enum_values_rest(advance(at_open), at_name[0].line, Seq::empty());
    }
}

/// The list of nodes grows by one view when the list of nodes does.
proof fn lemma_views_push(nodes: Seq<ASTNode>, node: ASTNode)
    ensures
        views(nodes.push(node)) == views(nodes).push(node@),
{
    assert(nodes.push(node).drop_last() =~= nodes);
}

/// Parses an enum declaration.
fn parse_enum(tokens: &mut Lexer<LoadedSource>) -> (r: Result<
    Option<ASTNode>,
    (Option<usize>, String),
>)
    ensures
        final(tokens).table() == old(tokens).table(),
        final(tokens).origin() == old(tokens).origin(),
        parsed_view(r) == enum_decl(old(tokens).stream()).result,
        final(tokens).stream() == enum_decl(old(tokens).stream()).rest,
{
    match tokens.expect_token(TokenType::Keyword) {
        Ok(_) => {},
        Err(diagnostic) => {
            return Err(diagnostic);
        },
    }
    tokens.flush_whitespace();
    let name_token = match tokens.expect_token(TokenType::Text) {
        Ok(token) => token,
        Err(diagnostic) => {
            return Err(diagnostic);
        },
    };
    tokens.flush_whitespace();
    match tokens.expect_token(TokenType::Equal) {
        Ok(_) => {},
        Err(diagnostic) => {
            return Err(diagnostic);
        },
    }
    tokens.flush_whitespace();
    match tokens.expect_token(TokenType::CurlyBracketOpen) {
        Ok(_) => {},
        Err(diagnostic) => {
            return Err(diagnostic);
        },
    }
    let mut values: Vec<ASTNode> = Vec::new();
    let ghost start = tokens.stream();
    let ghost line = name_token.line_number as nat;
    assert(views(values@) =~= Seq::<Node>::empty());
    loop
        invariant_except_break
            enum_values(start, line, Seq::empty()) == enum_values(
                tokens.stream(),
                line,
                views(values@),
            ),
        invariant
            tokens.table() == old(tokens).table(),
            tokens.origin() == old(tokens).origin(),
            line == name_token.line_number,
            enum_decl(old(tokens).stream()).rest == enum_values(
                start,
                line,
                Seq::empty(),
            ).rest,
            enum_decl(old(tokens).stream()).result == (match enum_values(
                start,
                line,
                Seq::empty(),
            ).result {
                Ok(list) => Ok(Some(Node::Enum(name_token.value@, list))),
                Err(diagnosis) => Err(diagnosis),
            }),
        ensures
            tokens.table() == old(tokens).table(),
            tokens.origin() == old(tokens).origin(),
            enum_values(start, line, Seq::empty()).result == Ok::<Seq<Node>, Diagnosis>(
                views(values@),
            ),
            enum_values(start, line, Seq::empty()).rest == tokens.stream(),
        decreases tokens.stream().len(),
    {
        proof {
            lemma_skip_layout_shorter(tokens.stream());
            lemma_skip_layout_shorter(advance(skip_layout(tokens.stream())));
        }
        tokens.flush_whitespace();
        let enum_value_token = match tokens.expect_token(TokenType::Text) {
            Ok(token) => token,
            Err(diagnostic) => {
                return Err(diagnostic);
            },
        };
        let value_line = enum_value_token.line_number;
        proof {
            lemma_views_push(values@, ASTNode::EnumValue(enum_value_token.value));
        }
        values.push(ASTNode::EnumValue(enum_value_token.value));
        tokens.flush_whitespace();
        let delimiter_token = match tokens.next() {
            Some(token) => token,
            None => {
                return Err((Some(value_line), "Expected `}` or `|`".to_owned()));
            },
        };
        match delimiter_token.token_type {
            TokenType::CurlyBracketClose => {
                break ;
            },
            TokenType::Pipe => {},
            _ => {
                return Err((Some(name_token.line_number), "Syntax error".to_owned()));
            },
        }
    }
    Ok(Some(ASTNode::Enum(name_token.value, values)))
}

/// What a comment makes of a stream: a node with the comment's text.
pub open spec fn comment(stream: Seq<TokenView>) -> Outcome<Option<Node>> {
    Outcome {
        result: match expectation(stream, TokenType::Comment) {
            Ok(token) => Ok(Some(Node::Comment(token.text))),
            Err(diagnosis) => Err(diagnosis),
        },
        rest: advance(stream),
    }
}

/// Parses a comment.
fn parse_comment(tokens: &mut Lexer<LoadedSource>) -> (r: Result<
    Option<ASTNode>,
    (Option<usize>, String),
>)
    ensures
        final(tokens).table() == old(tokens).table(),
        final(tokens).origin() == old(tokens).origin(),
        parsed_view(r) == comment(old(tokens).stream()).result,
        final(tokens).stream() == comment(old(tokens).stream()).rest,
{
    match tokens.expect_token(TokenType::Comment) {
        Ok(token) => Ok(Some(ASTNode::Comment(token.value))),
        Err(diagnostic) => Err(diagnostic),
    }
}

/// What one statement makes of a stream that is not empty. A comment gives a
/// node, the keyword `enum` an enum declaration. Any other keyword is turned
/// down where it stands, on its own line. A token of any other category is
/// passed over and gives no node.
pub open spec fn statement(stream: Seq<TokenView>) -> Outcome<Option<Node>>
    recommends
        stream.len() > 0,
{
    if stream[0].kind == TokenType::Comment {
        comment(stream)
    } else if stream[0].kind == TokenType::Keyword {
        if stream[0].text == "enum"@ {
            enum_decl(stream)
        } else {
            Outcome { result: Err((Some(stream[0].line), "Not implemented"@)), rest: stream }
        }
    } else {
        Outcome { result: Ok(None), rest: stream.drop_first() }
    }
}

/// A statement that is accepted uses up at least one token.
pub proof fn lemma_statement_rest(stream: Seq<TokenView>)
    requires
        stream.len() > 0,
    ensures
        statement(stream).result is Ok ==> statement(stream).rest.len() < stream.len(),
{
    lemma_enum_decl_rest(stream);
}

/// Parses one statement of a script block.
fn parse_statement(tokens: &mut Lexer<LoadedSource>) -> (r: Result<
    Option<ASTNode>,
    (Option<usize>, String),
>)
    requires
        old(tokens).stream().len() > 0,
    ensures
        final(tokens).table() == old(tokens).table(),
        final(tokens).origin() == old(tokens).origin(),
        parsed_view(r) == statement(old(tokens).stream()).result,
        final(tokens).stream() == statement(old(tokens).stream()).rest,
{
    let token = match tokens.peek() {
        Some(token) => token,
        None => vstd::pervasive::unreached(),
    };
    match token.token_type {
        TokenType::Comment => parse_comment(tokens),
        TokenType::Keyword => {
            if token.value == "enum".to_owned() {
                parse_enum(tokens)
            } else {
                Err((Some(token.line_number), "Not implemented".to_owned()))
            }
        },
        _ => {
            tokens.next();
            Ok(None)
        },
    }
}

/// What the body of a script block makes of the stream behind its opening
/// marker: the nodes of its statements in order, up to the marker that closes
/// it; layout between statements counts for nothing. `found` holds the nodes
/// read so far.
pub open spec fn script_body(stream: Seq<TokenView>, found: Seq<Node>) -> Outcome<Option<Node>>
    decreases stream.len(),
    via script_body_decreases
{
    if stream.len() == 0 {
        Outcome { result: Err((None, "Missing closing </script> tag."@)), rest: stream }
    } else if stream[0].kind == TokenType::TagScriptEnd {
        Outcome { result: Ok(Some(Node::Script(found))), rest: stream.drop_first() }
    } else if is_layout(stream[0].kind) {
        script_body(stream.drop_first(), found)
    } else {
        let one = statement(stream);
        match one.result {
            Ok(Some(node)) => script_body(one.rest, found.push(node)),
            Ok(None) => script_body(one.rest, found),
            Err(diagnosis) => Outcome { result: Err(diagnosis), rest: one.rest },
        }
    }
}

#[via_fn]
proof fn script_body_decreases(stream: Seq<TokenView>, found: Seq<Node>) {
    if stream.len() > 0 {
        lemma_statement_rest(stream);
    }
}

/// The body of a script block leaves no more tokens than it was given, and
/// fewer where it is accepted.
pub proof fn lemma_script_body_rest(stream: Seq<TokenView>, found: Seq<Node>)
    ensures
        script_body(stream, found).rest.len() <= stream.len(),
        script_body(stream, found).result is Ok ==> script_body(stream, found).rest.len()
            < stream.len(),
    decreases stream.len(),
{
    if stream.len() == 0 {
    } else if stream[0].kind == TokenType::TagScriptEnd {
    } else if is_layout(stream[0].kind) {
        lemma_script_body_rest(stream.drop_first(), found);
    } else {
        let one = statement(stream);
        lemma_statement_rest(stream);
        match one.result {
            Ok(Some(node)) => lemma_script_body_rest(one.rest, found.push(node)),
            Ok(None) => lemma_script_body_rest(one.rest, found),
            Err(_) => {
                lemma_enum_decl_rest(stream);
            },
        }
    }
}

/// Parses a script block.
fn parse_script_block(tokens: &mut Lexer<LoadedSource>) -> (r: Result<
    Option<ASTNode>,
    (Option<usize>, String),
>)
    ensures
        final(tokens).table() == old(tokens).table(),
        final(tokens).origin() == old(tokens).origin(),
        parsed_view(r) == script_body(old(tokens).stream(), Seq::empty()).result,
        final(tokens).stream() == script_body(old(tokens).stream(), Seq::empty()).rest,
{
    let mut statements: Vec<ASTNode> = Vec::new();
    assert(views(statements@) =~= Seq::<Node>::empty());
    loop
        invariant_except_break
            script_body(old(tokens).stream(), Seq::empty()) == script_body(
                tokens.stream(),
                views(statements@),
            ),
        invariant
            tokens.table() == old(tokens).table(),
            tokens.origin() == old(tokens).origin(),
        ensures
            script_body(old(tokens).stream(), Seq::empty()).result == Ok::<Option<Node>, Diagnosis>(
                Some(Node::Script(views(statements@))),
            ),
            script_body(old(tokens).stream(), Seq::empty()).rest == tokens.stream(),
        decreases tokens.stream().len(),
    {
        let token = match tokens.peek() {
            Some(token) => token,
            None => {
                return Err((None, "Missing closing </script> tag.".to_owned()));
            },
        };
        match token.token_type {
            TokenType::TagScriptEnd => {
                tokens.next();
                break ;
            },
            TokenType::Whitespace | TokenType::Newline => {
                tokens.next();
            },
            _ => {
                proof {
                    lemma_statement_rest(tokens.stream());
                }
                match parse_statement(tokens) {
                    Ok(Some(statement)) => {
                        proof {
                            lemma_views_push(statements@, statement);
                        }
                        statements.push(statement);
                    },
                    Ok(None) => {},
                    Err(diagnostic) => {
                        return Err(diagnostic);
                    },
                }
            },
        }
    }
    Ok(Some(ASTNode::Script(statements)))
}

/// What one top-level block makes of a stream: layout, then the opening
/// marker of a template, style or script block and that block's body. Any
/// other token is an error on its line. A stream that holds nothing but
/// layout has no block to give, which is an error without a line; a document
/// ends there and asks for no block.
pub open spec fn html_block(stream: Seq<TokenView>) -> Outcome<Option<Node>> {
    let at_marker = skip_layout(stream);
    if at_marker.len() == 0 {
        Outcome { result: Err((None, "Unexpected end of file"@)), rest: at_marker }
    } else if at_marker[0].kind == TokenType::TagTemplateStart {
        template_block(at_marker.drop_first())
    } else if at_marker[0].kind == TokenType::TagStyleStart {
        style_block(at_marker.drop_first())
    } else if at_marker[0].kind == TokenType::TagScriptStart {
        script_body(at_marker.drop_first(), Seq::empty())
    } else {
        Outcome {
            result: Err(
                (Some(at_marker[0].line), "Expected a <template>, <style> or <script> block"@),
            ),
            rest: at_marker.drop_first(),
        }
    }
}

/// A top-level block that is accepted uses up at least one token.
pub proof fn lemma_html_block_rest(stream: Seq<TokenView>)
    ensures
        html_block(stream).result is Ok ==> html_block(stream).rest.len() < stream.len(),
{
    lemma_skip_layout_shorter(stream);
    let at_marker = skip_layout(stream);
    if at_marker.len() > 0 {
        let body = at_marker.drop_first();
        lemma_block_close_in_range(body, TokenType::TagTemplateStart, TokenType::TagTemplateEnd, 1);
        lemma_block_close_in_range(body, TokenType::TagStyleStart, TokenType::TagStyleEnd, 1);
        lemma_script_body_rest(body, Seq::empty());
    }
}

/// Parses one top-level block.
fn parse_html_block(tokens: &mut Lexer<LoadedSource>) -> (r: Result<
    Option<ASTNode>,
    (Option<usize>, String),
>)
    ensures
        final(tokens).table() == old(tokens).table(),
        final(tokens).origin() == old(tokens).origin(),
        parsed_view(r) == html_block(old(tokens).stream()).result,
        final(tokens).stream() == html_block(old(tokens).stream()).rest,
{
    tokens.flush_whitespace();
    let next_token = match tokens.next() {
        Some(token) => token,
        None => {
            return Err((None, "Unexpected end of file".to_owned()));
        },
    };
    match next_token.token_type {
        TokenType::TagTemplateStart => parse_template_block(tokens),
        TokenType::TagStyleStart => parse_style_block(tokens),
        TokenType::TagScriptStart => parse_script_block(tokens),
        _ => Err(
            (
                Some(next_token.line_number),
                "Expected a <template>, <style> or <script> block".to_owned(),
            ),
        ),
    }
}

/// Skipping layout twice is skipping it once.
pub proof fn lemma_skip_layout_idempotent(stream: Seq<TokenView>)
    ensures
        skip_layout(skip_layout(stream)) == skip_layout(stream),
    decreases stream.len(),
{
    if stream.len() > 0 && is_layout(stream[0].kind) {
        lemma_skip_layout_idempotent(stream.drop_first());
    }
}

/// What a whole document makes of a stream: its top-level blocks in order
/// under one root, or the diagnostic of the first block that fails. Layout
/// before, between and behind the blocks counts for nothing: the document
/// ends where nothing but layout is left. `found` holds the blocks read so
/// far.
pub open spec fn document(stream: Seq<TokenView>, found: Seq<Node>) -> Outcome<Node>
    decreases stream.len(),
    via document_decreases
{
    let at_block = skip_layout(stream);
    if at_block.len() == 0 {
        Outcome { result: Ok(Node::Root(found)), rest: Seq::empty() }
    } else {
        let block = html_block(at_block);
        match block.result {
            Ok(Some(node)) => document(block.rest, found.push(node)),
            Ok(None) => document(block.rest, found),
            Err(diagnosis) => Outcome { result: Err(diagnosis), rest: block.rest },
        }
    }
}

#[via_fn]
proof fn document_decreases(stream: Seq<TokenView>, found: Seq<Node>) {
    lemma_skip_layout_shorter(stream);
    lemma_html_block_rest(skip_layout(stream));
}

/// Layout at the start of a stream makes no difference to the document.
pub proof fn lemma_document_skips_layout(stream: Seq<TokenView>, found: Seq<Node>)
    ensures
        document(stream, found) == document(skip_layout(stream), found),
{
    lemma_skip_layout_idempotent(stream);
}

/// The view of what [`parse`] returns.
pub open spec fn tree_view(result: Result<ASTNode, (Option<usize>, String)>) -> Result<
    Node,
    Diagnosis,
> {
    match result {
        Ok(node) => Ok(node@),
        Err(diagnostic) => Err(diagnostic_view(diagnostic)),
    }
}

/// Takes tokens and restructures them into an Abstract Syntax Tree.
///
/// Returns the tree of the whole stream, or the diagnostic of the first
/// construct that the grammar turns down; there is no partial tree. Layout
/// around the blocks is passed over, also behind the last of them.
pub fn parse(tokens: &mut Lexer<LoadedSource>) -> (r: Result<ASTNode, (Option<usize>, String)>)
    ensures
        final(tokens).table() == old(tokens).table(),
        final(tokens).origin() == old(tokens).origin(),
        tree_view(r) == document(old(tokens).stream(), Seq::empty()).result,
        final(tokens).stream() == document(old(tokens).stream(), Seq::empty()).rest,
{
    let mut html_blocks: Vec<ASTNode> = Vec::new();
    assert(views(html_blocks@) =~= Seq::<Node>::empty());
    loop
        invariant_except_break
            document(old(tokens).stream(), Seq::empty()) == document(
                tokens.stream(),
                views(html_blocks@),
            ),
        invariant
            tokens.table() == old(tokens).table(),
            tokens.origin() == old(tokens).origin(),
        ensures
            document(old(tokens).stream(), Seq::empty()).result == Ok::<Node, Diagnosis>(
                Node::Root(views(html_blocks@)),
            ),
            document(old(tokens).stream(), Seq::empty()).rest == tokens.stream(),
        decreases tokens.stream().len(),
    {
        proof {
            lemma_document_skips_layout(tokens.stream(), views(html_blocks@));
            lemma_skip_layout_shorter(tokens.stream());
        }
        tokens.flush_whitespace();
        if tokens.peek().is_none() {
            assert(tokens.stream() =~= Seq::<TokenView>::empty());
            break ;
        }
        proof {
            lemma_skip_layout_idempotent(tokens.stream());
            lemma_html_block_rest(tokens.stream());
        }
        match parse_html_block(tokens) {
            Ok(Some(html_block)) => {
                proof {
                    lemma_views_push(html_blocks@, html_block);
                }
                html_blocks.push(html_block);
            },
            Ok(None) => {},
            Err(diagnostic) => {
                return Err(diagnostic);
            },
        }
    }
    Ok(ASTNode::Root(html_blocks))
}

} // verus!
