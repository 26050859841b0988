//! What holds of the machine on every program and deck.

use vstd::prelude::*;
use crate::deck::{
    decr_card, incr_card, lemma_effects_keep_validity, top_card, valid_deck, with_top_card,
    RuntimeFault,
};
use crate::instr::{Ast, Primitive};
use crate::machine::{
    body_at, char_code, current_instr, run_spec, start_state, step_spec, valid_state, Action,
    Event, State, Stop,
};

verus! {

/// The cards wrap around: one above 255 is 0, one below 0 is 255, and
/// raising and lowering undo each other on every card.
pub proof fn lemma_cards_wrap(card: u8)
    ensures
        incr_card(255) == 0,
        decr_card(0) == 255,
        decr_card(incr_card(card)) == card,
        incr_card(decr_card(card)) == card,
        card < 255 ==> incr_card(card) == card + 1,
        card > 0 ==> decr_card(card) == card - 1,
{
}

/// Replacing the top card of a valid deck leaves it valid, with as many
/// stacks and as many cards in each.
pub proof fn lemma_top_card_keeps_validity(deck: Seq<Seq<u8>>, card: u8)
    requires
        valid_deck(deck),
    ensures
        valid_deck(with_top_card(deck, card)),
        top_card(with_top_card(deck, card)) == card,
{
    let after = with_top_card(deck, card);
    assert forall|i: int| 0 <= i < after.len() implies (#[trigger] after[i]).len() >= 1 by {
        if i < after.len() - 1 {
            assert(after[i] == deck[i]);
        }
    }
}

/// A transition leaves a valid state valid: the deck never loses its last
/// stack, no stack its last card, and the position stays in the program.
pub proof fn lemma_step_keeps_validity(s: State, event: Event)
    requires
        valid_state(s),
    ensures
        valid_state(step_spec(s, event).0),
{
    let next = step_spec(s, event).0;
    let body = body_at(s.program, s.loops)->0;
    match current_instr(s) {
        Some(Ast::Loop(inner)) => {
            assert(next.loops.drop_last() =~= s.loops);
        },
        Some(Ast::In) => {
            if let Event::Char(c) = event {
                lemma_top_card_keeps_validity(s.deck, char_code(c));
            }
        },
        Some(Ast::Out) => {},
        Some(Ast::Decr) => {
            lemma_top_card_keeps_validity(s.deck, decr_card(top_card(s.deck)));
        },
        Some(Ast::Incr) => {
            lemma_top_card_keeps_validity(s.deck, incr_card(top_card(s.deck)));
        },
        Some(Ast::Push) => {
            lemma_effects_keep_validity(Primitive::Push, s.deck);
        },
        Some(Ast::Pop) => {
            lemma_effects_keep_validity(Primitive::Pop, s.deck);
        },
        Some(Ast::Bring) => {
            lemma_effects_keep_validity(Primitive::Bring, s.deck);
        },
        Some(Ast::Send) => {
            lemma_effects_keep_validity(Primitive::Send, s.deck);
        },
        Some(Ast::StackOp(op)) => {
            lemma_effects_keep_validity(op, s.deck);
        },
        None => {},
    }
}

/// A fault leaves the state as it was, and so do halting and asking for a
/// character.
pub proof fn lemma_fault_changes_nothing(s: State, event: Event)
    ensures
        step_spec(s, event).1 is Fault || step_spec(s, event).1 is Halt || step_spec(s, event).1
            is Read ==> step_spec(s, event).0 == s,
{
}

/// The faults of a valid state, each with the one situation it comes from:
/// an underflow at a `*` on a stack of one card, no active stack at a `~*`
/// on a deck of one stack, an input failure at a `,` when the channel is
/// closed.
pub proof fn lemma_faults(s: State, event: Event)
    requires
        valid_state(s),
    ensures
        step_spec(s, event).1 == Action::Fault(RuntimeFault::StackUnderflow) <==> current_instr(s)
            == Some(Ast::Pop) && s.deck.last().len() == 1,
        step_spec(s, event).1 == Action::Fault(RuntimeFault::NoActiveStack) <==> current_instr(s)
            == Some(Ast::StackOp(Primitive::Pop)) && s.deck.len() == 1,
        step_spec(s, event).1 == Action::Fault(RuntimeFault::InputFailure) <==> current_instr(s)
            == Some(Ast::In) && event == Event::Closed,
{
}

/// How many more cards a program pushes than it pops: 1 for each `#`, -1 for
/// each `*`.
pub open spec fn net_pushes(program: Seq<Ast>) -> int
    decreases program.len(),
{
    if program.len() == 0 {
        0
    } else {
        net_pushes(program.drop_last()) + match program.last() {
            Ast::Push => 1int,
            Ast::Pop => -1int,
            _ => 0int,
        }
    }
}

/// Whether a program is made of `#` and `*` alone.
pub open spec fn only_push_and_pop(program: Seq<Ast>) -> bool {
    forall|i: int| 0 <= i < program.len() ==> program[i] == Ast::Push || program[i] == Ast::Pop
}

/// What is left to push when the first `pc` instructions are done.
proof fn lemma_net_pushes_split(program: Seq<Ast>, pc: int)
    requires
        0 <= pc < program.len(),
    ensures
        net_pushes(program.subrange(pc, program.len() as int)) == net_pushes(
            program.subrange(pc + 1, program.len() as int),
        ) + match program[pc] {
            Ast::Push => 1int,
            Ast::Pop => -1int,
            _ => 0int,
        },
    decreases program.len() - pc,
{
    let from_pc = program.subrange(pc, program.len() as int);
    let behind = program.subrange(pc + 1, program.len() as int);
    if pc + 1 == program.len() {
        assert(from_pc.drop_last() =~= behind);
    } else {
        lemma_net_pushes_split(program.drop_last(), pc);
        assert(from_pc.drop_last() =~= program.drop_last().subrange(
            pc,
            program.len() - 1,
        ));
        assert(behind.drop_last() =~= program.drop_last().subrange(
            pc + 1,
            program.len() - 1,
        ));
    }
}

/// The balance of a run from the middle of a program of `#` and `*`.
proof fn lemma_balance_from(s: State, event: Event, input: Seq<char>, limit: nat)
    requires
        valid_state(s),
        only_push_and_pop(s.program),
        s.loops.len() == 0,
        run_spec(s, event, input, limit).stop == Stop::Halted,
    ensures
        ({
            let end = run_spec(s, event, input, limit).state.deck;
            &&& end.len() == s.deck.len()
            &&& end.drop_last() == s.deck.drop_last()
            &&& end.last().len() == s.deck.last().len() + net_pushes(
                s.program.subrange(s.pc, s.program.len() as int),
            )
        }),
    decreases limit,
{
    assert(s.loops =~= Seq::<int>::empty());
    if limit > 0 {
        let (next, action) = step_spec(s, event);
        if s.pc < s.program.len() {
            lemma_net_pushes_split(s.program, s.pc);
            lemma_step_keeps_validity(s, event);
            if action == Action::Continue {
                lemma_balance_from(next, Event::Tick, input, (limit - 1) as nat);
                assert(next.deck.drop_last() =~= s.deck.drop_last());
            }
        } else {
            assert(s.program.subrange(s.pc, s.program.len() as int) =~= Seq::<Ast>::empty());
        }
    }
}

/// Stack balance: when a program of `#` and `*` alone runs to its end, the
/// current stack has as many cards more as the program has more `#` than
/// `*`, and the stacks below it are as they were.
pub proof fn lemma_stack_balance(
    program: Seq<Ast>,
    deck: Seq<Seq<u8>>,
    input: Seq<char>,
    limit: nat,
)
    requires
        valid_deck(deck),
        only_push_and_pop(program),
        run_spec(start_state(program, deck), Event::Tick, input, limit).stop == Stop::Halted,
    ensures
        ({
            let end = run_spec(start_state(program, deck), Event::Tick, input, limit).state.deck;
            &&& end.len() == deck.len()
            &&& end.drop_last() == deck.drop_last()
            &&& end.last().len() == deck.last().len() + net_pushes(program)
        }),
{
    lemma_balance_from(start_state(program, deck), Event::Tick, input, limit);
    assert(program.subrange(0, program.len() as int) =~= program);
}

} // verus!
