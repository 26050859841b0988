//! The lexical layer of the parser: from the bytes of a source text to its
//! tokens.
//!
//! A text is a run of lexemes. A lexeme is a white space character, a
//! comment from `{` to the first `}`, or a token. The two bytes of `~#`,
//! `~*`, `~<` and `~>` make one token: nothing may stand between them.

use vstd::prelude::*;
use crate::instr::Primitive;

verus! {

/// The byte `#`.
pub const HASH: u8 = 0x23;

/// The byte `*`.
pub const STAR: u8 = 0x2A;

/// The byte `<`.
pub const LESS: u8 = 0x3C;

/// The byte `>`.
pub const GREATER: u8 = 0x3E;

/// The byte `-`.
pub const MINUS: u8 = 0x2D;

/// The byte `+`.
pub const PLUS: u8 = 0x2B;

/// The byte `,`.
pub const COMMA: u8 = 0x2C;

/// The byte `.`.
pub const DOT: u8 = 0x2E;

/// The byte `~`.
pub const TILDE: u8 = 0x7E;

/// The byte `[`.
pub const OPEN_BRACKET: u8 = 0x5B;

/// The byte `]`.
pub const CLOSE_BRACKET: u8 = 0x5D;

/// The byte `{`.
pub const OPEN_BRACE: u8 = 0x7B;

/// The byte `}`.
pub const CLOSE_BRACE: u8 = 0x7D;

/// A token of the language.
#[derive(Clone, Copy, Debug, PartialEq, Eq, Structural)]
pub enum Token {
    /// `#`, `*`, `<` or `>`: a primitive for the current stack.
    Stack(Primitive),
    /// `~#`, `~*`, `~<` or `~>`: a primitive for the deck.
    Deck(Primitive),
    /// `-`
    Decr,
    /// `+`
    Incr,
    /// `,`
    In,
    /// `.`
    Out,
    /// `[`
    Open,
    /// `]`
    Close,
}

/// The primitive that a byte stands for, if it is one of `#`, `*`, `<`, `>`.
pub open spec fn primitive_spec(byte: u8) -> Option<Primitive> {
    if byte == HASH {
        Some(Primitive::Push)
    } else if byte == STAR {
        Some(Primitive::Pop)
    } else if byte == LESS {
        Some(Primitive::Bring)
    } else if byte == GREATER {
        Some(Primitive::Send)
    } else {
        None
    }
}

/// The token that a byte is by itself, if it is one.
pub open spec fn single_spec(byte: u8) -> Option<Token> {
    if primitive_spec(byte) is Some {
        Some(Token::Stack(primitive_spec(byte)->0))
    } else if byte == MINUS {
        Some(Token::Decr)
    } else if byte == PLUS {
        Some(Token::Incr)
    } else if byte == COMMA {
        Some(Token::In)
    } else if byte == DOT {
        Some(Token::Out)
    } else if byte == OPEN_BRACKET {
        Some(Token::Open)
    } else if byte == CLOSE_BRACKET {
        Some(Token::Close)
    } else {
        None
    }
}

/// The number of bytes of the white space character that starts at `i`, or
/// 0 if none does. White space is what Unicode calls so, in UTF-8: the
/// bytes 9 to 13 and 32, and the encodings of U+0085, U+00A0, U+1680,
/// U+2000 to U+200A, U+2028, U+2029, U+202F, U+205F and U+3000.
pub open spec fn space_len(s: Seq<u8>, i: int) -> int {
    if !(0 <= i < s.len()) {
        0
    } else if 9 <= s[i] <= 13 || s[i] == 32 {
        1
    } else if s[i] == 0xC2 && i + 1 < s.len() && (s[i + 1] == 0x85 || s[i + 1] == 0xA0) {
        2
    } else if i + 2 < s.len() && (s[i] == 0xE1 && s[i + 1] == 0x9A && s[i + 2] == 0x80 || s[i]
        == 0xE2 && s[i + 1] == 0x80 && (0x80 <= s[i + 2] <= 0x8A || s[i + 2] == 0xA8 || s[i + 2]
        == 0xA9 || s[i + 2] == 0xAF) || s[i] == 0xE2 && s[i + 1] == 0x81 && s[i + 2] == 0x9F
        || s[i] == 0xE3 && s[i + 1] == 0x80 && s[i + 2] == 0x80) {
        3
    } else {
        0
    }
}

/// The position of the first `}` at or after `i`, or the length of the text
/// if there is none.
pub open spec fn comment_close(s: Seq<u8>, i: int) -> int
    decreases s.len() - i,
{
    if i < 0 || i >= s.len() {
        s.len() as int
    } else if s[i] == CLOSE_BRACE {
        i
    } else {
        comment_close(s, i + 1)
    }
}

/// The number of bytes of the lexeme that starts at `i`, or 0 if none does:
/// at the end of the text, at a `{` that no `}` follows, at a `~` that no
/// primitive follows, and at any byte that starts neither white space nor a
/// token.
pub open spec fn lexeme_len(s: Seq<u8>, i: int) -> int {
    if !(0 <= i < s.len()) {
        0
    } else if space_len(s, i) > 0 {
        space_len(s, i)
    } else if s[i] == OPEN_BRACE {
        if comment_close(s, i + 1) < s.len() {
            comment_close(s, i + 1) + 1 - i
        } else {
            0
        }
    } else if s[i] == TILDE {
        if i + 1 < s.len() && primitive_spec(s[i + 1]) is Some {
            2
        } else {
            0
        }
    } else if single_spec(s[i]) is Some {
        1
    } else {
        0
    }
}

/// The token that the lexeme at `i` is, if it is one: white space and
/// comments are none.
pub open spec fn token_at(s: Seq<u8>, i: int) -> Option<Token> {
    if !(0 <= i < s.len()) || lexeme_len(s, i) == 0 {
        None
    } else if s[i] == TILDE {
        Some(Token::Deck(primitive_spec(s[i + 1])->0))
    } else {
        single_spec(s[i])
    }
}

/// The model of a lexed text: its tokens, the offset at which each starts,
/// and where lexing stopped. That is the length of the text where all of it
/// is lexemes, else the offset of the first thing that is none.
pub ghost struct Lexed {
    pub tokens: Seq<Token>,
    pub starts: Seq<int>,
    pub stop: int,
}

/// `lexed`, with more tokens before it.
pub open spec fn lexed_after(tokens: Seq<Token>, starts: Seq<int>, lexed: Lexed) -> Lexed {
    Lexed { tokens: tokens + lexed.tokens, starts: starts + lexed.starts, stop: lexed.stop }
}

/// The tokens before `token`, if the lexeme is one, followed by `lexed`.
pub open spec fn lexed_with(token: Option<Token>, start: int, lexed: Lexed) -> Lexed {
    match token {
        Some(t) => lexed_after(seq![t], seq![start], lexed),
        None => lexed,
    }
}

/// Lexes the text from offset `i` on.
pub open spec fn lex_spec(s: Seq<u8>, i: int) -> Lexed
    decreases s.len() - i,
{
    if lexeme_len(s, i) <= 0 {
        Lexed { tokens: Seq::empty(), starts: Seq::empty(), stop: i }
    } else {
        lexed_with(token_at(s, i), i, lex_spec(s, i + lexeme_len(s, i)))
    }
}

/// A lexed text.
#[derive(Debug)]
pub struct Tokens {
    /// The tokens, in the order of the text.
    pub tokens: Vec<Token>,
    /// For each token, the offset of its first byte.
    pub starts: Vec<usize>,
    /// The offset at which lexing stopped.
    pub stop: usize,
}

impl View for Tokens {
    type V = Lexed;

    open spec fn view(&self) -> Lexed {
        Lexed {
            tokens: self.tokens@,
            starts: self.starts@.map_values(|i: usize| i as int),
            stop: self.stop as int,
        }
    }
}

/// The primitive that a byte stands for.
pub fn primitive_of(byte: u8) -> (op: Option<Primitive>)
    ensures
        op == primitive_spec(byte),
{
    if byte == HASH {
        Some(Primitive::Push)
    } else if byte == STAR {
        Some(Primitive::Pop)
    } else if byte == LESS {
        Some(Primitive::Bring)
    } else if byte == GREATER {
        Some(Primitive::Send)
    } else {
        None
    }
}

/// The token that a byte is by itself.
pub fn single_token(byte: u8) -> (token: Option<Token>)
    ensures
        token == single_spec(byte),
{
    if let Some(op) = primitive_of(byte) {
        Some(Token::Stack(op))
    } else if byte == MINUS {
        Some(Token::Decr)
    } else if byte == PLUS {
        Some(Token::Incr)
    } else if byte == COMMA {
        Some(Token::In)
    } else if byte == DOT {
        Some(Token::Out)
    } else if byte == OPEN_BRACKET {
        Some(Token::Open)
    } else if byte == CLOSE_BRACKET {
        Some(Token::Close)
    } else {
        None
    }
}

/// The width of the white space character at `i`.
fn space_width(text: &[u8], i: usize) -> (width: usize)
    requires
        i < text@.len(),
    ensures
        width == space_len(text@, i as int),
{
    let n = text.len();
    let first = text[i];
    if (9 <= first && first <= 13) || first == 32 {
        1
    } else if first == 0xC2 {
        if n - i > 1 && (text[i + 1] == 0x85 || text[i + 1] == 0xA0) {
            2
        } else {
            0
        }
    } else if n - i > 2 {
        let second = text[i + 1];
        let third = text[i + 2];
        if first == 0xE1 && second == 0x9A && third == 0x80 {
            3
        } else if first == 0xE2 && second == 0x80 && ((0x80 <= third && third <= 0x8A) || third
            == 0xA8 || third == 0xA9 || third == 0xAF) {
            3
        } else if first == 0xE2 && second == 0x81 && third == 0x9F {
            3
        } else if first == 0xE3 && second == 0x80 && third == 0x80 {
            3
        } else {
            0
        }
    } else {
        0
    }
}

/// The offset of the first `}` at or after `from`.
fn find_close(text: &[u8], from: usize) -> (at: usize)
    requires
        from <= text@.len(),
    ensures
        at == comment_close(text@, from as int),
        from <= at <= text@.len(),
{
    let n = text.len();
    let mut at: usize = from;
    while at < n && text[at] != CLOSE_BRACE
        invariant
            n == text@.len(),
            from <= at <= n,
            comment_close(text@, from as int) == comment_close(text@, at as int),
        decreases n - at,
    {
        at = at + 1;
    }
    at
}

/// Splits a text into its tokens: see [`lex_spec`].
pub fn lex(text: &[u8]) -> (lexed: Tokens)
    ensures
        lexed@ == lex_spec(text@, 0),
        lexed.tokens@.len() == lexed.starts@.len(),
        0 <= lexed.stop <= text@.len(),
        forall|k: int| 0 <= k < lexed.starts@.len() ==> #[trigger] lexed.starts@[k] < text@.len(),
{
    let n = text.len();
    let mut tokens: Vec<Token> = Vec::new();
    let mut starts: Vec<usize> = Vec::new();
    let mut i: usize = 0;
    let ghost whole = lex_spec(text@, 0);
    proof {
        let rest = lex_spec(text@, 0);
        assert(lexed_after(Seq::empty(), Seq::empty(), rest).tokens =~= rest.tokens);
        assert(lexed_after(Seq::empty(), Seq::empty(), rest).starts =~= rest.starts);
        assert(starts@.map_values(|i: usize| i as int) =~= Seq::<int>::empty());
    }
    while i < n
        invariant
            n == text@.len(),
            0 <= i <= n,
            tokens@.len() == starts@.len(),
            forall|k: int| 0 <= k < starts@.len() ==> #[trigger] starts@[k] < n,
            whole == lex_spec(text@, 0),
            whole == lexed_after(
                tokens@,
                starts@.map_values(|i: usize| i as int),
                lex_spec(text@, i as int),
            ),
        decreases n - i,
    {
        let ghost had = tokens@;
        let ghost had_starts = starts@.map_values(|i: usize| i as int);
        let byte = text[i];
        let width = space_width(text, i);
        let mut found: Option<Token> = None;
        let mut len: usize = 0;
        if width > 0 {
            len = width;
        } else if byte == OPEN_BRACE {
            let close = find_close(text, i + 1);
            if close < n {
                len = close + 1 - i;
            }
        } else if byte == TILDE {
            if n - i > 1 {
                if let Some(op) = primitive_of(text[i + 1]) {
                    found = Some(Token::Deck(op));
                    len = 2;
                }
            }
        } else {
            found = single_token(byte);
            if found.is_some() {
                len = 1;
            }
        }
        assert(len == lexeme_len(text@, i as int));
        if len == 0 {
            proof {
                assert(tokens@ + Seq::<Token>::empty() =~= tokens@);
                assert(had_starts + Seq::<int>::empty() =~= had_starts);
            }
            return Tokens { tokens, starts, stop: i };
        }
        assert(found == token_at(text@, i as int));
        if let Some(token) = found {
            tokens.push(token);
            starts.push(i);
        }
        proof {
            let rest = lex_spec(text@, i + len);
            let now_starts = starts@.map_values(|i: usize| i as int);
            if found is Some {
                assert(now_starts =~= had_starts + seq![i as int]);
                assert(tokens@ =~= had + seq![found->0]);
                assert((had + seq![found->0]) + rest.tokens =~= had + (seq![found->0]
                    + rest.tokens));
                assert((had_starts + seq![i as int]) + rest.starts =~= had_starts + (seq![
                    i as int,
                ] + rest.starts));
            }
        }
        i = i + len;
    }
    proof {
        assert(tokens@ + Seq::<Token>::empty() =~= tokens@);
        let now_starts = starts@.map_values(|i: usize| i as int);
        assert(now_starts + Seq::<int>::empty() =~= now_starts);
    }
    Tokens { tokens, starts, stop: i }
}

/// The first `}` from `i` on lies at or behind `i`.
pub proof fn lemma_close_is_behind(text: Seq<u8>, i: int)
    requires
        0 <= i <= text.len(),
    ensures
        i <= comment_close(text, i) <= text.len(),
    decreases text.len() - i,
{
    if i < text.len() && text[i] != CLOSE_BRACE {
        lemma_close_is_behind(text, i + 1);
    }
}

/// A lexeme ends within the text.
pub proof fn lemma_lexeme_is_bounded(text: Seq<u8>, i: int)
    requires
        0 <= i,
    ensures
        i + lexeme_len(text, i) <= text.len() || lexeme_len(text, i) == 0,
        lexeme_len(text, i) >= 0,
{
    if i < text.len() && space_len(text, i) == 0 && text[i] == OPEN_BRACE {
        lemma_close_is_behind(text, i + 1);
    }
}

/// Lexing never stops before the place it starts from.
pub proof fn lemma_stop_is_behind(text: Seq<u8>, from: int)
    requires
        0 <= from <= text.len(),
    ensures
        from <= lex_spec(text, from).stop <= text.len(),
    decreases text.len() - from,
{
    if lexeme_len(text, from) > 0 {
        lemma_lexeme_is_bounded(text, from);
        lemma_stop_is_behind(text, from + lexeme_len(text, from));
    }
}

} // verus!
