//! White space and comments change nothing: put in between two lexemes of a
//! text, they leave its tokens, and so its program, as they were.

use vstd::prelude::*;
use crate::lexer::{
    comment_close, lemma_close_is_behind, lemma_lexeme_is_bounded, lemma_stop_is_behind, lex_spec,
    lexeme_len, space_len, token_at, Lexed, CLOSE_BRACE, OPEN_BRACE,
};
use crate::parser::parse_spec;

verus! {

/// Whether `at` is a place between two lexemes of the text, counted from the
/// lexeme that starts at `from`: the places where white space may stand. The
/// start and the end of the text are such places; the inside of a comment, or
/// of a white space character of several bytes, and the place between a `~`
/// and its primitive are not.
pub open spec fn between_lexemes(text: Seq<u8>, from: int, at: int) -> bool
    decreases at - from,
{
    from == at || (lexeme_len(text, from) > 0 && from + lexeme_len(text, from) <= at
        && between_lexemes(text, from + lexeme_len(text, from), at))
}

/// Whether a text is blank: made of white space and comments alone.
pub open spec fn is_blank(blank: Seq<u8>) -> bool {
    lex_spec(blank, 0).tokens.len() == 0 && lex_spec(blank, 0).stop == blank.len()
}

/// The text with `blank` put in at offset `at`.
pub open spec fn with_blank(text: Seq<u8>, at: int, blank: Seq<u8>) -> Seq<u8> {
    text.subrange(0, at) + blank + text.subrange(at, text.len() as int)
}

/// The comment with the text `body`: `{`, `body`, `}`.
pub open spec fn comment_of(body: Seq<u8>) -> Seq<u8> {
    seq![OPEN_BRACE] + body + seq![CLOSE_BRACE]
}

/// Whether `body` can be the text of a comment: it holds no `}`.
pub open spec fn comment_text(body: Seq<u8>) -> bool {
    forall|j: int| 0 <= j < body.len() ==> body[j] != CLOSE_BRACE
}

/// A text without `}` from `i` up to `end`, where one stands, has its first
/// `}` from `i` on at `end`.
proof fn lemma_close_found(s: Seq<u8>, i: int, end: int)
    requires
        0 <= i <= end < s.len(),
        forall|j: int| i <= j < end ==> s[j] != CLOSE_BRACE,
        s[end] == CLOSE_BRACE,
    ensures
        comment_close(s, i) == end,
    decreases end - i,
{
    if i < end {
        lemma_close_found(s, i + 1, end);
    }
}

/// Where `b` holds, `shift` further on, what `a` holds from `i` up to its
/// first `}`, that one included, the first `}` of `b` from there on lies
/// `shift` further on too.
proof fn lemma_close_in_window(a: Seq<u8>, b: Seq<u8>, shift: int, i: int)
    requires
        0 <= i,
        0 <= shift,
        comment_close(a, i) < a.len(),
        comment_close(a, i) + shift < b.len(),
        forall|j: int| i <= j <= comment_close(a, i) ==> a[j] == b[j + shift],
    ensures
        comment_close(b, i + shift) == comment_close(a, i) + shift,
    decreases a.len() - i,
{
    lemma_close_is_behind(a, i);
    assert(a[i] == b[i + shift]);
    if a[i] != CLOSE_BRACE {
        lemma_close_in_window(a, b, shift, i + 1);
    }
}

/// Where `b` holds, `shift` further on, the bytes of the lexeme that `a` has
/// at `i`, it has that lexeme there: a lexeme is told by its own bytes.
proof fn lemma_lexeme_in_window(a: Seq<u8>, b: Seq<u8>, shift: int, i: int)
    requires
        0 <= i,
        0 <= shift,
        lexeme_len(a, i) > 0,
        i + lexeme_len(a, i) + shift <= b.len(),
        forall|j: int| i <= j < i + lexeme_len(a, i) ==> a[j] == b[j + shift],
    ensures
        lexeme_len(b, i + shift) == lexeme_len(a, i),
        token_at(b, i + shift) == token_at(a, i),
{
    let n = lexeme_len(a, i);
    assert(a[i] == b[i + shift]);
    if n >= 2 {
        assert(a[i + 1] == b[i + 1 + shift]);
    }
    if n >= 3 {
        assert(a[i + 2] == b[i + 2 + shift]);
    }
    if space_len(a, i) == 0 && a[i] == OPEN_BRACE {
        lemma_close_is_behind(a, i + 1);
        lemma_close_in_window(a, b, shift, i + 1);
    }
}

/// Where `b` is `a` with `shift` bytes put in at or before `i`, the first
/// `}` from there on lies `shift` further in `b`.
proof fn lemma_close_shifted(a: Seq<u8>, b: Seq<u8>, shift: int, i: int)
    requires
        0 <= i,
        0 <= shift,
        b.len() == a.len() + shift,
        forall|j: int| i <= j < a.len() ==> a[j] == b[j + shift],
    ensures
        comment_close(b, i + shift) == comment_close(a, i) + shift,
    decreases a.len() - i,
{
    if i < a.len() && a[i] != CLOSE_BRACE {
        lemma_close_shifted(a, b, shift, i + 1);
    }
}

/// What stands at `i + shift` in `b` is what stands at `i` in `a`, where `b`
/// is `a` with `shift` bytes put in at or before `i`.
proof fn lemma_lexeme_shifted(a: Seq<u8>, b: Seq<u8>, shift: int, i: int)
    requires
        0 <= i,
        0 <= shift,
        b.len() == a.len() + shift,
        forall|j: int| i <= j < a.len() ==> a[j] == b[j + shift],
    ensures
        lexeme_len(b, i + shift) == lexeme_len(a, i),
        token_at(b, i + shift) == token_at(a, i),
{
    if i < a.len() {
        assert(a[i] == b[i + shift]);
        if i + 1 < a.len() {
            assert(a[i + 1] == b[i + 1 + shift]);
        }
        if i + 2 < a.len() {
            assert(a[i + 2] == b[i + 2 + shift]);
        }
        lemma_close_shifted(a, b, shift, i + 1);
    }
}

/// `lexed`, with every offset in it moved up by `shift`.
pub open spec fn lexed_shifted(lexed: Lexed, shift: int) -> Lexed {
    Lexed {
        tokens: lexed.tokens,
        starts: lexed.starts.map_values(|start: int| start + shift),
        stop: lexed.stop + shift,
    }
}

/// Lexing `b` from `i + shift` gives what lexing `a` from `i` gives, moved
/// up by `shift`, where `b` is `a` with `shift` bytes put in at or before
/// `i`.
proof fn lemma_lex_shifted(a: Seq<u8>, b: Seq<u8>, shift: int, i: int)
    requires
        0 <= i,
        0 <= shift,
        b.len() == a.len() + shift,
        forall|j: int| i <= j < a.len() ==> a[j] == b[j + shift],
    ensures
        lex_spec(b, i + shift) == lexed_shifted(lex_spec(a, i), shift),
    decreases a.len() - i,
{
    lemma_lexeme_shifted(a, b, shift, i);
    let n = lexeme_len(a, i);
    let moved = lexed_shifted(lex_spec(a, i), shift);
    if n > 0 {
        lemma_lex_shifted(a, b, shift, i + n);
        assert(lex_spec(b, i + shift).tokens =~= moved.tokens);
    }
    assert(lex_spec(b, i + shift).starts =~= moved.starts);
}

/// Lexing runs through a blank: where `longer` holds `blank` at `at`, and
/// `blank` from `j` on is lexemes that are no tokens, lexing `longer` from
/// there gives what lexing it from behind the blank gives.
proof fn lemma_lex_through_blank(longer: Seq<u8>, at: int, blank: Seq<u8>, j: int)
    requires
        0 <= at,
        0 <= j <= blank.len(),
        at + blank.len() <= longer.len(),
        forall|t: int| 0 <= t < blank.len() ==> blank[t] == longer[t + at],
        lex_spec(blank, j).tokens.len() == 0,
        lex_spec(blank, j).stop == blank.len(),
    ensures
        lex_spec(longer, at + j) == lex_spec(longer, at + blank.len()),
    decreases blank.len() - j,
{
    if j < blank.len() {
        let n = lexeme_len(blank, j);
        lemma_lexeme_is_bounded(blank, j);
        lemma_lexeme_in_window(blank, longer, at, j);
        assert(lex_spec(longer, at + j) == lex_spec(longer, at + j + n));
        lemma_lex_through_blank(longer, at, blank, j + n);
    }
}

/// What lexing from `from` gives for the text with a blank put in at `at`, a
/// place between lexemes that lies at or behind `from`: the tokens that the
/// text itself gives, and a stop that is moved up by the length of the blank.
proof fn lemma_lex_with_blank(text: Seq<u8>, from: int, at: int, blank: Seq<u8>)
    requires
        0 <= from <= at <= text.len(),
        between_lexemes(text, from, at),
        is_blank(blank),
    ensures
        lex_spec(with_blank(text, at, blank), from).tokens == lex_spec(text, from).tokens,
        lex_spec(with_blank(text, at, blank), from).stop == lex_spec(text, from).stop
            + blank.len(),
        lex_spec(text, from).stop >= at,
    decreases at - from,
{
    let longer = with_blank(text, at, blank);
    let shift = blank.len() as int;
    assert(longer.len() == text.len() + shift);
    if from == at {
        assert forall|t: int| 0 <= t < blank.len() implies blank[t] == longer[t + at] by {}
        lemma_lex_through_blank(longer, at, blank, 0);
        assert forall|j: int| at <= j < text.len() implies text[j] == longer[j + shift] by {}
        lemma_lex_shifted(text, longer, shift, at);
        lemma_stop_is_behind(text, at);
    } else {
        let n = lexeme_len(text, from);
        assert forall|j: int| from <= j < from + n implies text[j] == longer[j + 0] by {}
        lemma_lexeme_in_window(text, longer, 0, from);
        lemma_lex_with_blank(text, from + n, at, blank);
        assert(lex_spec(longer, from).tokens =~= lex_spec(text, from).tokens);
    }
}

/// Blanks change nothing: put in at a place between two lexemes of a text,
/// white space and comments leave the tokens of the text as they were, and
/// so the program that the text parses to. A text that does not parse still
/// does not parse with the blank in it.
pub proof fn lemma_blank_transparency(text: Seq<u8>, at: int, blank: Seq<u8>)
    requires
        0 <= at <= text.len(),
        between_lexemes(text, 0, at),
        is_blank(blank),
    ensures
        lex_spec(with_blank(text, at, blank), 0).tokens == lex_spec(text, 0).tokens,
        parse_spec(text) is Ok ==> parse_spec(with_blank(text, at, blank)) == parse_spec(text),
        parse_spec(text) is Err ==> parse_spec(with_blank(text, at, blank)) is Err,
{
    lemma_lex_with_blank(text, 0, at, blank);
    lemma_stop_is_behind(text, 0);
}

/// A comment whose text holds no `}` is blank.
pub proof fn lemma_comment_is_blank(body: Seq<u8>)
    requires
        comment_text(body),
    ensures
        is_blank(comment_of(body)),
{
    let comment = comment_of(body);
    assert(comment[0] == OPEN_BRACE);
    assert forall|j: int| 1 <= j < 1 + body.len() implies comment[j] != CLOSE_BRACE by {
        assert(comment[j] == body[j - 1]);
    }
    lemma_close_found(comment, 1, 1 + body.len() as int);
    assert(lexeme_len(comment, 0) == comment.len());
    assert(token_at(comment, 0) is None);
    let behind = lex_spec(comment, comment.len() as int);
    assert(behind.stop == comment.len() && behind.tokens.len() == 0);
    assert(lex_spec(comment, 0) == behind);
}

/// A white space character of one byte is blank.
pub proof fn lemma_space_is_blank(byte: u8)
    requires
        9 <= byte <= 13 || byte == 32,
    ensures
        is_blank(seq![byte]),
{
    let space = seq![byte];
    assert(lexeme_len(space, 0) == 1);
    assert(token_at(space, 0) is None);
    let behind = lex_spec(space, 1);
    assert(behind.stop == 1 && behind.tokens.len() == 0);
    assert(lex_spec(space, 0) == behind);
}

/// One blank after another is blank.
pub proof fn lemma_blanks_join(first: Seq<u8>, second: Seq<u8>)
    requires
        is_blank(first),
        is_blank(second),
    ensures
        is_blank(first + second),
{
    lemma_lex_with_blank(second, 0, 0, first);
    assert(with_blank(second, 0, first) =~= first + second);
}

/// A comment changes nothing: put in at a place between two lexemes of a
/// text, a comment without `}` in it leaves the text with the program that
/// it had.
pub proof fn lemma_comment_transparency(text: Seq<u8>, at: int, body: Seq<u8>)
    requires
        0 <= at <= text.len(),
        between_lexemes(text, 0, at),
        comment_text(body),
    ensures
        lex_spec(with_blank(text, at, comment_of(body)), 0).tokens == lex_spec(text, 0).tokens,
        parse_spec(text) is Ok ==> parse_spec(with_blank(text, at, comment_of(body)))
            == parse_spec(text),
        parse_spec(text) is Err ==> parse_spec(with_blank(text, at, comment_of(body))) is Err,
{
    lemma_comment_is_blank(body);
    lemma_blank_transparency(text, at, comment_of(body));
}

} // verus!
