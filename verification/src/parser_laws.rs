//! What holds of the parser on every text.

use vstd::prelude::*;
use crate::instr::{program_view, Ast, Instr};
use crate::instr::Primitive;
use crate::lexer::{
    lemma_lexeme_is_bounded, lemma_stop_is_behind, lex_spec, lexeme_len, Token,
};
use crate::parser::{
    instr_spec, parse_block, parse_result_is, parse_spec, Block, ParseError, Violation,
};

verus! {

/// Parsing is a function of the text: two results for one text are the same
/// program, or the same violation.
pub proof fn lemma_parse_is_deterministic(
    text: Seq<u8>,
    first: Result<Vec<Instr>, Vec<ParseError>>,
    second: Result<Vec<Instr>, Vec<ParseError>>,
)
    requires
        parse_result_is(first, parse_spec(text)),
        parse_result_is(second, parse_spec(text)),
    ensures
        first is Ok <==> second is Ok,
        first is Ok ==> program_view(first->Ok_0@) == program_view(second->Ok_0@),
        first is Err ==> first->Err_0@.len() == 1 && second->Err_0@.len() == 1
            && first->Err_0@[0] == second->Err_0@[0],
{
}

/// The tokens that an instruction is written with.
pub open spec fn render_instr(instr: Ast) -> Seq<Token>
    decreases instr, 0int,
{
    match instr {
        Ast::Push => seq![Token::Stack(Primitive::Push)],
        Ast::Pop => seq![Token::Stack(Primitive::Pop)],
        Ast::Bring => seq![Token::Stack(Primitive::Bring)],
        Ast::Send => seq![Token::Stack(Primitive::Send)],
        Ast::Decr => seq![Token::Decr],
        Ast::Incr => seq![Token::Incr],
        Ast::In => seq![Token::In],
        Ast::Out => seq![Token::Out],
        Ast::Loop(body) => seq![Token::Open] + render(body) + seq![Token::Close],
        Ast::StackOp(op) => seq![Token::Deck(op)],
    }
}

/// The tokens that a program is written with: those of its instructions, one
/// after the other.
pub open spec fn render(program: Seq<Ast>) -> Seq<Token>
    decreases program, 1int,
{
    if program.len() == 0 {
        Seq::empty()
    } else {
        render_instr(program[0]) + render(program.subrange(1, program.len() as int))
    }
}

/// The rendering of a program that starts with `head` is the rendering of
/// `head`, then that of the rest.
proof fn lemma_render_cons(head: Ast, rest: Seq<Ast>)
    ensures
        render(seq![head] + rest) == render_instr(head) + render(rest),
{
    let all = seq![head] + rest;
    assert(all.subrange(1, all.len() as int) =~= rest);
}

/// What parsing from token `i` gives, unless the tokens run out inside a
/// loop, renders to the tokens from `i` to where the parsing ended, and that
/// is at a `]` or at the end of the tokens.
proof fn lemma_block_renders(tokens: Seq<Token>, i: int)
    requires
        0 <= i <= tokens.len(),
    ensures
        ({
            let block = parse_block(tokens, i);
            &&& i <= block.end <= tokens.len()
            &&& block.unclosed ==> block.end == tokens.len()
            &&& !block.unclosed ==> render(block.body) == tokens.subrange(i, block.end)
            &&& !block.unclosed && block.end < tokens.len() ==> tokens[block.end] == Token::Close
        }),
    decreases tokens.len() - i,
{
    let block = parse_block(tokens, i);
    if i >= tokens.len() || tokens[i] == Token::Close {
        assert(render(block.body) =~= tokens.subrange(i, block.end));
    } else if tokens[i] == Token::Open {
        let inner = parse_block(tokens, i + 1);
        lemma_block_renders(tokens, i + 1);
        if i < inner.end < tokens.len() {
            let rest = parse_block(tokens, inner.end + 1);
            lemma_block_renders(tokens, inner.end + 1);
            if !inner.unclosed && !rest.unclosed {
                let head = Ast::Loop(inner.body);
                lemma_render_cons(head, rest.body);
                assert(render(block.body) =~= tokens.subrange(i, block.end));
            }
        }
    } else {
        let rest = parse_block(tokens, i + 1);
        lemma_block_renders(tokens, i + 1);
        if !rest.unclosed {
            let head = instr_spec(tokens[i]);
            lemma_render_cons(head, rest.body);
            assert(render_instr(head) =~= seq![tokens[i]]);
            assert(render(block.body) =~= tokens.subrange(i, block.end));
        }
    }
}

/// Where the tokens from `i` on are the rendering of `program`, followed by
/// a `]` or by nothing, parsing from `i` gives `program` and ends behind its
/// rendering.
proof fn lemma_rendering_parses(tokens: Seq<Token>, i: int, program: Seq<Ast>)
    requires
        0 <= i,
        i + render(program).len() <= tokens.len(),
        tokens.subrange(i, i + render(program).len()) == render(program),
        i + render(program).len() == tokens.len() || tokens[i + render(program).len()]
            == Token::Close,
    ensures
        parse_block(tokens, i) == (Block {
            body: program,
            end: i + render(program).len(),
            unclosed: false,
        }),
    decreases program, 1int,
{
    let found = parse_block(tokens, i);
    if program.len() == 0 {
        assert(found.body =~= program);
    } else {
        let head = program[0];
        let tail = program.subrange(1, program.len() as int);
        let first = render_instr(head);
        let here = tokens.subrange(i, i + render(program).len());
        assert(program =~= seq![head] + tail);
        lemma_render_instr_shape(head);
        assert(tokens[i] == here[0]);
        let behind = i + first.len();
        assert(tokens.subrange(behind, behind + render(tail).len()) =~= render(tail)) by {
            assert forall|k: int| 0 <= k < render(tail).len() implies tokens[behind + k]
                == render(tail)[k] by {
                assert(tokens[behind + k] == here[first.len() + k]);
            }
        }
        lemma_rendering_parses(tokens, behind, tail);
        match head {
            Ast::Loop(body) => {
                assert(tokens.subrange(i + 1, i + 1 + render(body).len()) =~= render(body)) by {
                    assert forall|k: int| 0 <= k < render(body).len() implies tokens[i + 1 + k]
                        == render(body)[k] by {
                        assert(tokens[i + 1 + k] == here[1 + k]);
                        assert(first[1 + k] == render(body)[k]);
                    }
                }
                let inside = render(body).len() as int;
                assert(tokens[i + 1 + inside] == here[1 + inside]);
                assert(first[1 + inside] == Token::Close);
                lemma_rendering_parses(tokens, i + 1, body);
            },
            _ => {
                assert(instr_spec(tokens[i]) == head);
            },
        }
        assert(found.body =~= program);
    }
}

/// The rendering of an instruction starts with `[` for a loop and is the one
/// token of the instruction for any other. It never starts with `]`.
proof fn lemma_render_instr_shape(instr: Ast)
    ensures
        render_instr(instr).len() >= 1,
        instr is Loop <==> render_instr(instr)[0] == Token::Open,
        render_instr(instr)[0] != Token::Close,
        !(instr is Loop) ==> render_instr(instr).len() == 1 && instr_spec(render_instr(instr)[0])
            == instr,
{
}

/// Parsing is the inverse of rendering: a text parses to a program exactly
/// when all of it is lexemes and its tokens are the rendering of that
/// program.
pub proof fn lemma_parse_inverts_render(text: Seq<u8>, program: Seq<Ast>)
    ensures
        parse_spec(text) == Ok::<Seq<Ast>, Violation>(program) <==> lex_spec(
            text,
            0,
        ).stop >= text.len() && render(program) == lex_spec(text, 0).tokens,
{
    let lexed = lex_spec(text, 0);
    let tokens = lexed.tokens;
    lemma_block_renders(tokens, 0);
    if lexed.stop >= text.len() && render(program) == tokens {
        assert(tokens.subrange(0, tokens.len() as int) =~= tokens);
        lemma_rendering_parses(tokens, 0, program);
    }
    if parse_spec(text) == Ok::<Seq<Ast>, Violation>(program) {
        assert(tokens.subrange(0, tokens.len() as int) =~= tokens);
    }
}

/// Lexing from `i` gives as many offsets as tokens, and each offset lies in
/// the text, at or behind `i`.
proof fn lemma_starts_in_text(text: Seq<u8>, i: int)
    requires
        0 <= i,
    ensures
        lex_spec(text, i).tokens.len() == lex_spec(text, i).starts.len(),
        forall|k: int|
            0 <= k < lex_spec(text, i).starts.len() ==> i <= #[trigger] lex_spec(text, i).starts[k]
                < text.len(),
    decreases text.len() - i,
{
    let n = lexeme_len(text, i);
    if n > 0 {
        lemma_lexeme_is_bounded(text, i);
        lemma_starts_in_text(text, i + n);
    }
}

/// A violation lies in the text: its span starts and ends at offsets of the
/// text, and does not end before it starts.
pub proof fn lemma_violation_in_text(text: Seq<u8>)
    ensures
        parse_spec(text) matches Err(violation) ==> 0 <= violation.start <= violation.end
            <= text.len(),
{
    lemma_starts_in_text(text, 0);
    lemma_stop_is_behind(text, 0);
    let lexed = lex_spec(text, 0);
    lemma_block_renders(lexed.tokens, 0);
}

} // verus!
