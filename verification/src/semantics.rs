//! What a program means, told by the shape of the program: an instruction
//! sequence runs its instructions in order, and a loop runs its body once
//! and then again while the top card is not zero.
//!
//! A loop need not end, so the meaning is told with a budget: each pass of a
//! loop's body takes one unit of `fuel`, the passes of the loops inside it
//! included, and a loop that is left without fuel is a [`End::Timeout`].

use vstd::prelude::*;
use crate::deck::{top_card, with_top_card, RuntimeFault};
use crate::instr::Ast;
use crate::machine::{char_code, instr_effect};

verus! {

/// How a piece of a program ended.
pub ghost enum End {
    /// It ran through.
    Done,
    /// It failed.
    Fault(RuntimeFault),
    /// The fuel ran out in a loop.
    Timeout,
}

/// What running a piece of a program comes to: the deck it leaves, the
/// characters it wrote, how many characters of the input it took, and how it
/// ended.
pub ghost struct Effect {
    pub deck: Seq<Seq<u8>>,
    pub output: Seq<u8>,
    pub consumed: int,
    pub end: End,
}

/// The effect of doing nothing to `deck`.
pub open spec fn no_effect(deck: Seq<Seq<u8>>) -> Effect {
    Effect { deck, output: Seq::empty(), consumed: 0, end: End::Done }
}

/// The effect of `first` and then `second`.
pub open spec fn effect_then(first: Effect, second: Effect) -> Effect {
    Effect {
        deck: second.deck,
        output: first.output + second.output,
        consumed: first.consumed + second.consumed,
        end: second.end,
    }
}

/// The effect of a `,`: the next character of the input goes into the top
/// card, and it is a fault if there is none.
pub open spec fn read_effect(deck: Seq<Seq<u8>>, input: Seq<char>) -> Effect {
    if input.len() > 0 {
        Effect {
            deck: with_top_card(deck, char_code(input[0])),
            output: Seq::empty(),
            consumed: 1,
            end: End::Done,
        }
    } else {
        Effect { deck, output: Seq::empty(), consumed: 0, end: End::Fault(RuntimeFault::InputFailure) }
    }
}

/// The effect of an instruction that changes the deck and nothing else, or
/// fails and leaves the deck as it was.
pub open spec fn deck_only_effect(instr: Ast, deck: Seq<Seq<u8>>) -> Effect {
    match instr_effect(instr, deck) {
        Ok(after) => no_effect(after),
        Err(fault) => Effect { deck, output: Seq::empty(), consumed: 0, end: End::Fault(fault) },
    }
}

/// The effect of one instruction.
pub open spec fn eval_instr(instr: Ast, deck: Seq<Seq<u8>>, input: Seq<char>, fuel: nat) -> Effect
    decreases fuel, instr, 0int,
{
    match instr {
        Ast::Loop(body) => eval_loop(body, deck, input, fuel),
        Ast::In => read_effect(deck, input),
        Ast::Out => Effect { deck, output: seq![top_card(deck)], consumed: 0, end: End::Done },
        _ => deck_only_effect(instr, deck),
    }
}

/// The effect of the instructions of `body` from index `pc` on, in order. A
/// fault or a timeout ends it at once.
pub open spec fn eval_from(
    body: Seq<Ast>,
    pc: int,
    deck: Seq<Seq<u8>>,
    input: Seq<char>,
    fuel: nat,
) -> Effect
    decreases fuel, body, body.len() - pc,
{
    if pc < 0 || pc >= body.len() {
        no_effect(deck)
    } else {
        let first = eval_instr(body[pc], deck, input, fuel);
        if first.end is Done {
            effect_then(
                first,
                eval_from(body, pc + 1, first.deck, input.skip(first.consumed), fuel),
            )
        } else {
            first
        }
    }
}

/// The effect of a loop: one pass of its body, and, if that ran through and
/// left a top card that is not zero, the loop again.
pub open spec fn eval_loop(body: Seq<Ast>, deck: Seq<Seq<u8>>, input: Seq<char>, fuel: nat) -> Effect
    decreases fuel, body, body.len() + 1,
{
    if fuel == 0 {
        Effect { deck, output: Seq::empty(), consumed: 0, end: End::Timeout }
    } else {
        let pass = eval_from(body, 0, deck, input, (fuel - 1) as nat);
        if pass.end is Done && top_card(pass.deck) != 0 {
            effect_then(
                pass,
                eval_loop(body, pass.deck, input.skip(pass.consumed), (fuel - 1) as nat),
            )
        } else {
            pass
        }
    }
}

/// The effect of a whole program.
pub open spec fn eval(program: Seq<Ast>, deck: Seq<Seq<u8>>, input: Seq<char>, fuel: nat) -> Effect {
    eval_from(program, 0, deck, input, fuel)
}

} // verus!
