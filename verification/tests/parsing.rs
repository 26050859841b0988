use kardz::instr::{Instr, Primitive};
use kardz::lexer::{lex, Token};
use kardz::parser::{parse, parse_bytes, Expected, ParseError, Span};

fn violation(start: usize, end: usize, expected: Expected) -> Vec<ParseError> {
    vec![ParseError { span: Span { start, end }, expected }]
}

#[test]
fn the_empty_text_is_the_empty_program() {
    assert_eq!(parse(""), Ok(vec![]));
}

#[test]
fn each_character_maps_to_its_instruction() {
    assert_eq!(
        parse("#*<>-+,."),
        Ok(vec![
            Instr::Push,
            Instr::Pop,
            Instr::Bring,
            Instr::Send,
            Instr::Decr,
            Instr::Incr,
            Instr::In,
            Instr::Out,
        ])
    );
}

#[test]
fn a_tilde_routes_a_primitive_to_the_deck() {
    assert_eq!(
        parse("~#~*~<~>"),
        Ok(vec![
            Instr::StackOp(Primitive::Push),
            Instr::StackOp(Primitive::Pop),
            Instr::StackOp(Primitive::Bring),
            Instr::StackOp(Primitive::Send),
        ])
    );
}

#[test]
fn loops_nest() {
    assert_eq!(
        parse("+[-[>]#[]]."),
        Ok(vec![
            Instr::Incr,
            Instr::Loop(vec![
                Instr::Decr,
                Instr::Loop(vec![Instr::Send]),
                Instr::Push,
                Instr::Loop(vec![]),
            ]),
            Instr::Out,
        ])
    );
}

#[test]
fn white_space_is_skipped_everywhere_between_tokens() {
    assert_eq!(
        parse(" \t+\r\n[ - ]\u{b}\u{c} ~# \n"),
        Ok(vec![
            Instr::Incr,
            Instr::Loop(vec![Instr::Decr]),
            Instr::StackOp(Primitive::Push),
        ])
    );
    assert_eq!(parse("   \n"), Ok(vec![]));
    assert_eq!(parse("[ ]"), Ok(vec![Instr::Loop(vec![])]));
}

#[test]
fn unicode_white_space_is_white_space() {
    let spaces = [
        '\u{85}', '\u{a0}', '\u{1680}', '\u{2000}', '\u{2005}', '\u{200a}', '\u{2028}',
        '\u{2029}', '\u{202f}', '\u{205f}', '\u{3000}',
    ];
    for space in spaces {
        assert!(space.is_whitespace());
        let text = format!("+{}-", space);
        assert_eq!(parse(&text), Ok(vec![Instr::Incr, Instr::Decr]), "{:?}", space);
    }
}

#[test]
fn characters_near_white_space_are_not_white_space() {
    // U+200B, zero width space, is no white space; U+0084 and U+00A1 neither.
    for other in ['\u{200b}', '\u{84}', '\u{a1}', '\u{2027}', '\u{3001}'] {
        assert!(!other.is_whitespace());
        let text = format!("+{}-", other);
        let width = other.len_utf8();
        assert_eq!(
            parse(&text),
            Err(violation(1, 1 + width, Expected::InstructionOrEnd)),
            "{:?}",
            other
        );
    }
}

#[test]
fn comments_are_dropped() {
    assert_eq!(parse("{only a comment}"), Ok(vec![]));
    assert_eq!(
        parse("{a}+{b}[{c}-{d}]{e}"),
        Ok(vec![Instr::Incr, Instr::Loop(vec![Instr::Decr])])
    );
    assert_eq!(parse("+{ - [ ~ x \u{e9} }+"), Ok(vec![Instr::Incr, Instr::Incr]));
    assert_eq!(parse("{}"), Ok(vec![]));
}

#[test]
fn a_comment_ends_at_the_first_closing_brace() {
    assert_eq!(parse("{ a { b }+"), Ok(vec![Instr::Incr]));
    assert_eq!(parse("{a}}"), Err(violation(3, 4, Expected::InstructionOrEnd)));
}

#[test]
fn a_comment_leaves_the_program_as_it_was() {
    let plain = parse("+[-~#]").unwrap();
    for text in ["{c}+[-~#]", "+{c}[-~#]", "+[{c}-~#]", "+[-{c}~#]", "+[-~#{c}]", "+[-~#]{c}"] {
        assert_eq!(parse(text).as_ref(), Ok(&plain), "{}", text);
    }
}

#[test]
fn nothing_may_stand_between_a_tilde_and_its_primitive() {
    assert_eq!(parse("~ #"), Err(violation(1, 2, Expected::Primitive)));
    assert_eq!(parse("~{c}#"), Err(violation(1, 2, Expected::Primitive)));
    assert_eq!(parse("~+"), Err(violation(1, 2, Expected::Primitive)));
    assert_eq!(parse("~~#"), Err(violation(1, 2, Expected::Primitive)));
    assert_eq!(parse("+~"), Err(violation(2, 2, Expected::Primitive)));
    assert_eq!(parse("~\u{e9}"), Err(violation(1, 3, Expected::Primitive)));
}

#[test]
fn a_stray_character_is_a_violation() {
    assert_eq!(parse("x"), Err(violation(0, 1, Expected::InstructionOrEnd)));
    assert_eq!(parse("+ x"), Err(violation(2, 3, Expected::InstructionOrEnd)));
    assert_eq!(parse("[x]"), Err(violation(1, 2, Expected::InstructionOrClose)));
    assert_eq!(parse("[[]x"), Err(violation(3, 4, Expected::InstructionOrClose)));
    assert_eq!(parse("[]x"), Err(violation(2, 3, Expected::InstructionOrEnd)));
    assert_eq!(parse("}"), Err(violation(0, 1, Expected::InstructionOrEnd)));
    assert_eq!(parse("\u{e9}"), Err(violation(0, 2, Expected::InstructionOrEnd)));
    assert_eq!(parse("\u{20ac}"), Err(violation(0, 3, Expected::InstructionOrEnd)));
    assert_eq!(parse("\u{1f0a1}"), Err(violation(0, 4, Expected::InstructionOrEnd)));
}

#[test]
fn a_span_never_leaves_the_text() {
    // A first byte that announces more bytes than the text has.
    assert_eq!(parse_bytes(&[0xF0, 0x9F]), Err(violation(0, 2, Expected::InstructionOrEnd)));
    assert_eq!(parse_bytes(&[0x2B, 0xE2]), Err(violation(1, 2, Expected::InstructionOrEnd)));
    assert_eq!(parse_bytes(&[0xFF, 0x2B]), Err(violation(0, 1, Expected::InstructionOrEnd)));
    assert_eq!(parse_bytes(&[0x80]), Err(violation(0, 1, Expected::InstructionOrEnd)));
}

#[test]
fn a_closing_bracket_outside_a_loop_is_a_violation() {
    assert_eq!(parse("]"), Err(violation(0, 1, Expected::InstructionOrEnd)));
    assert_eq!(parse("+[-]]"), Err(violation(4, 5, Expected::InstructionOrEnd)));
    assert_eq!(parse("{c} ]"), Err(violation(4, 5, Expected::InstructionOrEnd)));
}

#[test]
fn a_loop_left_open_is_a_violation_at_the_end() {
    assert_eq!(parse("["), Err(violation(1, 1, Expected::InstructionOrClose)));
    assert_eq!(parse("+[-[+] "), Err(violation(7, 7, Expected::InstructionOrClose)));
    assert_eq!(parse("[[]"), Err(violation(3, 3, Expected::InstructionOrClose)));
}

#[test]
fn a_comment_left_open_is_a_violation_at_the_end() {
    assert_eq!(parse("{abc"), Err(violation(4, 4, Expected::CommentEnd)));
    assert_eq!(parse("+[{"), Err(violation(3, 3, Expected::CommentEnd)));
}

#[test]
fn the_first_violation_in_the_text_is_reported() {
    assert_eq!(parse("] x"), Err(violation(0, 1, Expected::InstructionOrEnd)));
    assert_eq!(parse("x ]"), Err(violation(0, 1, Expected::InstructionOrEnd)));
    assert_eq!(parse("[ x"), Err(violation(2, 3, Expected::InstructionOrClose)));
    assert_eq!(parse("+ ] {"), Err(violation(2, 3, Expected::InstructionOrEnd)));
    assert_eq!(parse("[ ~"), Err(violation(3, 3, Expected::Primitive)));
    assert_eq!(parse("[] ] ["), Err(violation(3, 4, Expected::InstructionOrEnd)));
}

#[test]
fn parsing_twice_gives_the_same_result() {
    for text in ["", "+[-]", "~#[,.]{c}", "[", "x", "~", "{"] {
        assert_eq!(parse(text), parse(text));
        assert_eq!(parse(text), parse_bytes(text.as_bytes()));
    }
}

#[test]
fn each_expectation_has_its_message() {
    let at = |expected| ParseError { span: Span { start: 0, end: 0 }, expected };
    assert_eq!(
        at(Expected::InstructionOrEnd).message(),
        "expected an instruction or the end of the text"
    );
    assert_eq!(at(Expected::InstructionOrClose).message(), "expected an instruction or `]`");
    assert_eq!(
        at(Expected::Primitive).message(),
        "expected one of `#`, `*`, `<`, `>` after `~`"
    );
    assert_eq!(at(Expected::CommentEnd).message(), "expected `}` to end the comment");
}

#[test]
fn lexing_gives_tokens_with_their_offsets() {
    let lexed = lex(" +{c}~#[ ]".as_bytes());
    assert_eq!(
        lexed.tokens,
        vec![Token::Incr, Token::Deck(Primitive::Push), Token::Open, Token::Close]
    );
    assert_eq!(lexed.starts, vec![1, 5, 7, 9]);
    assert_eq!(lexed.stop, 10);
}

#[test]
fn lexing_stops_at_what_is_no_lexeme() {
    let lexed = lex("+]x+".as_bytes());
    assert_eq!(lexed.tokens, vec![Token::Incr, Token::Close]);
    assert_eq!(lexed.starts, vec![0, 1]);
    assert_eq!(lexed.stop, 2);
}

#[test]
fn a_clone_of_a_program_is_equal_to_it() {
    let program = parse("+[-[>~#]{c}#[]].,").unwrap();
    assert_eq!(program.clone(), program);
    let inner = Instr::Loop(vec![Instr::Loop(vec![Instr::In]), Instr::StackOp(Primitive::Send)]);
    assert_eq!(inner.clone(), inner);
}

#[test]
fn blanks_between_lexemes_leave_the_program_as_it_was() {
    let text = "+[-~#]";
    let plain = parse(text).unwrap();
    // Every offset but 4, which lies between the `~` and its primitive.
    for at in [0, 1, 2, 3, 5, 6] {
        for blank in [" ", "\n{c} ", "\u{3000}", "{}{ [ }\t"] {
            let longer = format!("{}{}{}", &text[..at], blank, &text[at..]);
            assert_eq!(parse(&longer).as_ref(), Ok(&plain), "{:?}", longer);
        }
    }
    assert_eq!(parse("+[-~ #]"), Err(violation(4, 5, Expected::Primitive)));
}
