//! The parser: from source text to a program, or to the first place where
//! the text breaks the grammar.
//!
//! ```text
//! program     := instruction*
//! instruction := primitive | '~' primitive | '-' | '+' | ',' | '.' | loop
//! primitive   := '#' | '*' | '<' | '>'
//! loop        := '[' instruction* ']'
//! ```
//!
//! White space and comments, `{` to the first `}`, may stand before and
//! after every instruction and bracket, and nowhere else.

use vstd::prelude::*;
use vstd::string::*;
use crate::instr::{lemma_loop_view, program_view, Ast, Instr, Primitive};
use crate::lexer::{lex, lex_spec, Lexed, Token, OPEN_BRACE, TILDE};

verus! {

/// What the parser was looking for where it found something else.
#[derive(Clone, Copy, Debug, PartialEq, Eq, Structural)]
pub enum Expected {
    /// Outside every loop: an instruction, or the end of the text.
    InstructionOrEnd,
    /// Inside a loop: an instruction, or the `]` that closes the loop.
    InstructionOrClose,
    /// Behind a `~`: one of `#`, `*`, `<`, `>`.
    Primitive,
    /// Inside a comment: the `}` that ends it.
    CommentEnd,
}

/// A stretch of the text, from the offset of its first byte to the offset
/// behind its last.
#[derive(Clone, Copy, Debug, PartialEq, Eq, Structural)]
pub struct Span {
    pub start: usize,
    pub end: usize,
}

/// A place where the text breaks the grammar.
#[derive(Clone, Copy, Debug, PartialEq, Eq, Structural)]
pub struct ParseError {
    /// What was found: a character, or nothing where the text ends too soon.
    pub span: Span,
    /// What was looked for.
    pub expected: Expected,
}

/// The model of a [`ParseError`].
pub ghost struct Violation {
    pub start: int,
    pub end: int,
    pub expected: Expected,
}

impl View for ParseError {
    type V = Violation;

    open spec fn view(&self) -> Violation {
        Violation {
            start: self.span.start as int,
            end: self.span.end as int,
            expected: self.expected,
        }
    }
}

/// The text of the message for each expectation.
pub open spec fn expectation_text(expected: Expected) -> &'static str {
    match expected {
        Expected::InstructionOrEnd => "expected an instruction or the end of the text",
        Expected::InstructionOrClose => "expected an instruction or `]`",
        Expected::Primitive => "expected one of `#`, `*`, `<`, `>` after `~`",
        Expected::CommentEnd => "expected `}` to end the comment",
    }
}

impl ParseError {
    /// A message that says what was expected at the span.
    pub fn message(&self) -> (text: String)
        ensures
            text@ == expectation_text(self.expected)@,
    {
        match self.expected {
            Expected::InstructionOrEnd => "expected an instruction or the end of the text"
                .to_owned(),
            Expected::InstructionOrClose => "expected an instruction or `]`".to_owned(),
            Expected::Primitive => "expected one of `#`, `*`, `<`, `>` after `~`".to_owned(),
            Expected::CommentEnd => "expected `}` to end the comment".to_owned(),
        }
    }
}

/// The instruction that a token is by itself. The two brackets are none,
/// and stand for nothing here.
pub open spec fn instr_spec(token: Token) -> Ast {
    match token {
        Token::Stack(Primitive::Push) => Ast::Push,
        Token::Stack(Primitive::Pop) => Ast::Pop,
        Token::Stack(Primitive::Bring) => Ast::Bring,
        Token::Stack(Primitive::Send) => Ast::Send,
        Token::Deck(op) => Ast::StackOp(op),
        Token::Decr => Ast::Decr,
        Token::Incr => Ast::Incr,
        Token::In => Ast::In,
        Token::Out => Ast::Out,
        Token::Open | Token::Close => Ast::Push,
    }
}

/// The model of a parsed instruction sequence: its instructions, the index
/// of the token at which it ended, and whether the tokens ran out inside a
/// loop. It ends at a `]` that belongs to none of its own loops, or at the
/// number of tokens. Where the tokens ran out inside a loop it has no
/// instructions.
pub ghost struct Block {
    pub body: Seq<Ast>,
    pub end: int,
    pub unclosed: bool,
}

/// `rest`, with more instructions before it.
pub open spec fn block_after(body: Seq<Ast>, rest: Block) -> Block {
    if rest.unclosed {
        rest
    } else {
        Block { body: body + rest.body, ..rest }
    }
}

/// The block that is cut short because the tokens ran out inside a loop.
pub open spec fn unclosed_block(tokens: Seq<Token>) -> Block {
    Block { body: Seq::empty(), end: tokens.len() as int, unclosed: true }
}

/// Parses the instruction sequence that starts at token `i`.
pub open spec fn parse_block(tokens: Seq<Token>, i: int) -> Block
    decreases tokens.len() - i,
{
    if i < 0 || i >= tokens.len() {
        Block { body: Seq::empty(), end: tokens.len() as int, unclosed: false }
    } else if tokens[i] == Token::Close {
        Block { body: Seq::empty(), end: i, unclosed: false }
    } else if tokens[i] == Token::Open {
        let inner = parse_block(tokens, i + 1);
        if i < inner.end < tokens.len() {
            block_after(seq![Ast::Loop(inner.body)], parse_block(tokens, inner.end + 1))
        } else {
            unclosed_block(tokens)
        }
    } else {
        block_after(seq![instr_spec(tokens[i])], parse_block(tokens, i + 1))
    }
}

/// The number of bytes of the character that starts at `i`, by its first
/// byte, and no more than the text has left.
pub open spec fn char_len(s: Seq<u8>, i: int) -> int {
    let by_first: int = if s[i] < 0xC0 {
        1
    } else if s[i] < 0xE0 {
        2
    } else if s[i] < 0xF0 {
        3
    } else if s[i] < 0xF8 {
        4
    } else {
        1
    };
    if by_first <= s.len() - i {
        by_first
    } else {
        s.len() - i
    }
}

/// What is wrong where lexing stopped before the end of the text.
pub open spec fn lexical_violation(s: Seq<u8>, stop: int, in_loop: bool) -> Violation {
    if s[stop] == OPEN_BRACE {
        Violation { start: s.len() as int, end: s.len() as int, expected: Expected::CommentEnd }
    } else if s[stop] == TILDE {
        if stop + 1 < s.len() {
            Violation {
                start: stop + 1,
                end: stop + 1 + char_len(s, stop + 1),
                expected: Expected::Primitive,
            }
        } else {
            Violation { start: s.len() as int, end: s.len() as int, expected: Expected::Primitive }
        }
    } else {
        Violation {
            start: stop,
            end: stop + char_len(s, stop),
            expected: if in_loop {
                Expected::InstructionOrClose
            } else {
                Expected::InstructionOrEnd
            },
        }
    }
}

/// What a lexed text parses to: its program, or the first violation in the
/// order of the text.
///
/// - A `]` outside every loop is one, as any other character that starts no
///   instruction there.
/// - Then comes what the lexer stopped at.
/// - A text that ends inside a loop is one at its end.
pub open spec fn parse_lexed(s: Seq<u8>, lexed: Lexed) -> Result<Seq<Ast>, Violation> {
    let block = parse_block(lexed.tokens, 0);
    if block.end < lexed.tokens.len() {
        Err(
            Violation {
                start: lexed.starts[block.end],
                end: lexed.starts[block.end] + 1,
                expected: Expected::InstructionOrEnd,
            },
        )
    } else if lexed.stop < s.len() {
        Err(lexical_violation(s, lexed.stop, block.unclosed))
    } else if block.unclosed {
        Err(
            Violation {
                start: s.len() as int,
                end: s.len() as int,
                expected: Expected::InstructionOrClose,
            },
        )
    } else {
        Ok(block.body)
    }
}

/// What a text parses to.
pub open spec fn parse_spec(s: Seq<u8>) -> Result<Seq<Ast>, Violation> {
    parse_lexed(s, lex_spec(s, 0))
}

/// A parsed instruction sequence.
struct Parsed {
    body: Vec<Instr>,
    end: usize,
    unclosed: bool,
}

impl View for Parsed {
    type V = Block;

    closed spec fn view(&self) -> Block {
        Block { body: program_view(self.body@), end: self.end as int, unclosed: self.unclosed }
    }
}

/// The instruction that a token other than a bracket is by itself.
fn instr_of(token: Token) -> (instr: Instr)
    ensures
        instr.deep_view() == instr_spec(token),
{
    match token {
        Token::Stack(Primitive::Push) => Instr::Push,
        Token::Stack(Primitive::Pop) => Instr::Pop,
        Token::Stack(Primitive::Bring) => Instr::Bring,
        Token::Stack(Primitive::Send) => Instr::Send,
        Token::Deck(op) => Instr::StackOp(op),
        Token::Decr => Instr::Decr,
        Token::Incr => Instr::Incr,
        Token::In => Instr::In,
        Token::Out => Instr::Out,
        Token::Open | Token::Close => Instr::Push,
    }
}

/// Parses the instruction sequence that starts at token `start`.
fn parse_from(tokens: &Vec<Token>, start: usize) -> (parsed: Parsed)
    requires
        start <= tokens@.len(),
    ensures
        parsed@ == parse_block(tokens@, start as int),
        start <= parsed.end <= tokens@.len(),
    decreases tokens@.len() - start,
{
    let n = tokens.len();
    let mut body: Vec<Instr> = Vec::new();
    let mut i: usize = start;
    let ghost whole = parse_block(tokens@, start as int);
    proof {
        let rest = parse_block(tokens@, start as int);
        assert(program_view(body@) + rest.body =~= rest.body);
    }
    while i < n
        invariant
            n == tokens@.len(),
            start <= i <= n,
            whole == parse_block(tokens@, start as int),
            whole == block_after(program_view(body@), parse_block(tokens@, i as int)),
        decreases n - i,
    {
        let ghost had = program_view(body@);
        let token = tokens[i];
        let next: usize;
        match token {
            Token::Close => {
                proof {
                    assert(had + Seq::<Ast>::empty() =~= had);
                }
                return Parsed { body, end: i, unclosed: false };
            },
            Token::Open => {
                let inner = parse_from(tokens, i + 1);
                if inner.end >= n {
                    let none: Vec<Instr> = Vec::new();
                    proof {
                        assert(program_view(none@) =~= Seq::<Ast>::empty());
                    }
                    return Parsed { body: none, end: n, unclosed: true };
                }
                next = inner.end + 1;
                let instr = Instr::Loop(inner.body);
                proof {
                    lemma_loop_view(instr);
                }
                body.push(instr);
            },
            _ => {
                next = i + 1;
                body.push(instr_of(token));
            },
        }
        proof {
            let rest = parse_block(tokens@, next as int);
            let head = body@.last().deep_view();
            assert(program_view(body@) =~= had + seq![head]);
            assert((had + seq![head]) + rest.body =~= had + (seq![head] + rest.body));
        }
        i = next;
    }
    proof {
        assert(program_view(body@) + Seq::<Ast>::empty() =~= program_view(body@));
    }
    Parsed { body, end: n, unclosed: false }
}

/// The width of the character that starts at `i`.
fn char_width(text: &[u8], i: usize) -> (width: usize)
    requires
        i < text@.len(),
    ensures
        width == char_len(text@, i as int),
        i + width <= text@.len(),
{
    let first = text[i];
    let by_first: usize = if first < 0xC0 {
        1
    } else if first < 0xE0 {
        2
    } else if first < 0xF0 {
        3
    } else if first < 0xF8 {
        4
    } else {
        1
    };
    let left = text.len() - i;
    if by_first <= left {
        by_first
    } else {
        left
    }
}

/// The violation where lexing stopped before the end of the text.
fn lexical_error(text: &[u8], stop: usize, in_loop: bool) -> (error: ParseError)
    requires
        stop < text@.len(),
    ensures
        error@ == lexical_violation(text@, stop as int, in_loop),
{
    let n = text.len();
    if text[stop] == OPEN_BRACE {
        ParseError { span: Span { start: n, end: n }, expected: Expected::CommentEnd }
    } else if text[stop] == TILDE {
        if n - stop > 1 {
            let width = char_width(text, stop + 1);
            ParseError {
                span: Span { start: stop + 1, end: stop + 1 + width },
                expected: Expected::Primitive,
            }
        } else {
            ParseError { span: Span { start: n, end: n }, expected: Expected::Primitive }
        }
    } else {
        let width = char_width(text, stop);
        ParseError {
            span: Span { start: stop, end: stop + width },
            expected: if in_loop {
                Expected::InstructionOrClose
            } else {
                Expected::InstructionOrEnd
            },
        }
    }
}

/// Whether `result` is what `outcome` describes: the program with that
/// model, or the one violation with that model.
pub open spec fn parse_result_is(
    result: Result<Vec<Instr>, Vec<ParseError>>,
    outcome: Result<Seq<Ast>, Violation>,
) -> bool {
    match outcome {
        Ok(program) => result matches Ok(found) && program_view(found@) == program,
        Err(violation) => result matches Err(errors) && errors@.len() == 1 && errors@[0]@
            == violation,
    }
}

/// Parses the bytes of a source text: see [`parse_spec`].
///
/// The result is the program, or the first violation of the grammar in the
/// text, alone.
pub fn parse_bytes(text: &[u8]) -> (result: Result<Vec<Instr>, Vec<ParseError>>)
    ensures
        parse_result_is(result, parse_spec(text@)),
{
    let n = text.len();
    let lexed = lex(text);
    let parsed = parse_from(&lexed.tokens, 0);
    let error = if parsed.end < lexed.tokens.len() {
        let start = lexed.starts[parsed.end];
        ParseError { span: Span { start, end: start + 1 }, expected: Expected::InstructionOrEnd }
    } else if lexed.stop < n {
        lexical_error(text, lexed.stop, parsed.unclosed)
    } else if parsed.unclosed {
        ParseError { span: Span { start: n, end: n }, expected: Expected::InstructionOrClose }
    } else {
        return Ok(parsed.body);
    };
    let mut errors: Vec<ParseError> = Vec::new();
    errors.push(error);
    Err(errors)
}

/// Parses a source text, by its bytes in UTF-8: see [`parse_spec`].
pub fn parse(text: &str) -> (result: Result<Vec<Instr>, Vec<ParseError>>)
    ensures
        parse_result_is(result, parse_spec(text.spec_bytes())),
{
    parse_bytes(text.as_bytes())
}

} // verus!
