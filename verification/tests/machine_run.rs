use kardz::deck::{Deck, RuntimeFault};
use kardz::instr::{Instr, Primitive};
use kardz::machine::{Action, Event, Machine, Stop};

fn deck_of(stacks: Vec<Vec<u8>>) -> Deck {
    Deck::from_stacks(stacks).expect("a valid deck")
}

#[test]
fn incr_then_loop_of_decr_runs_the_body_once() {
    let program = vec![Instr::Incr, Instr::Loop(vec![Instr::Decr])];
    let mut machine = Machine::new(program, Deck::new());
    // Incr, enter the loop, Decr, leave the loop, halt.
    assert_eq!(machine.step(Event::Tick), Action::Continue);
    assert_eq!(machine.deck().stacks(), &vec![vec![1u8]]);
    assert_eq!(machine.step(Event::Tick), Action::Continue);
    assert_eq!(machine.current(), Some(&Instr::Decr));
    assert_eq!(machine.step(Event::Tick), Action::Continue);
    assert_eq!(machine.deck().stacks(), &vec![vec![0u8]]);
    assert_eq!(machine.current(), None);
    assert_eq!(machine.step(Event::Tick), Action::Continue);
    assert_eq!(machine.step(Event::Tick), Action::Halt);
    assert_eq!(machine.deck().top(), 0);
}

#[test]
fn pop_on_the_initial_deck_is_an_underflow() {
    let mut machine = Machine::new(vec![Instr::Pop], Deck::new());
    let outcome = machine.run(&[], 100);
    assert_eq!(outcome.stop, Stop::Faulted(RuntimeFault::StackUnderflow));
    assert_eq!(machine.deck().stacks(), &vec![vec![0u8]]);
    assert_eq!(machine.current(), Some(&Instr::Pop));
}

#[test]
fn input_is_echoed_to_output() {
    let mut machine = Machine::new(vec![Instr::In, Instr::Out], Deck::new());
    let outcome = machine.run(&['X'], 100);
    assert_eq!(outcome.stop, Stop::Halted);
    assert_eq!(outcome.output, vec![b'X']);
    assert_eq!(outcome.consumed, 1);
}

#[test]
fn deck_pop_on_a_single_stack_is_a_fault() {
    let mut machine = Machine::new(vec![Instr::StackOp(Primitive::Pop)], deck_of(vec![vec![4, 5]]));
    let outcome = machine.run(&[], 100);
    assert_eq!(outcome.stop, Stop::Faulted(RuntimeFault::NoActiveStack));
    assert_eq!(machine.into_deck().stacks(), &vec![vec![4u8, 5]]);
}

fn run_on(program: Vec<Instr>, deck: Deck, input: &[char]) -> (Stop, Vec<u8>, Vec<Vec<u8>>) {
    let mut machine = Machine::new(program, deck);
    let outcome = machine.run(input, 10_000);
    (outcome.stop, outcome.output, machine.deck().stacks().clone())
}

#[test]
fn bring_moves_the_bottom_card_to_the_top() {
    let (stop, _, stacks) = run_on(vec![Instr::Bring], deck_of(vec![vec![1, 2, 3]]), &[]);
    assert_eq!(stop, Stop::Halted);
    assert_eq!(stacks, vec![vec![2, 3, 1]]);
}

#[test]
fn send_moves_the_top_card_to_the_bottom() {
    let (stop, _, stacks) = run_on(vec![Instr::Send], deck_of(vec![vec![1, 2, 3]]), &[]);
    assert_eq!(stop, Stop::Halted);
    assert_eq!(stacks, vec![vec![3, 1, 2]]);
}

#[test]
fn bring_and_send_undo_each_other() {
    for stack in [vec![7u8], vec![1, 2], vec![1, 2, 3], vec![9, 8, 7, 6, 5]] {
        let (_, _, stacks) =
            run_on(vec![Instr::Bring, Instr::Send], deck_of(vec![stack.clone()]), &[]);
        assert_eq!(stacks, vec![stack.clone()]);
        let (_, _, stacks) =
            run_on(vec![Instr::Send, Instr::Bring], deck_of(vec![stack.clone()]), &[]);
        assert_eq!(stacks, vec![stack]);
    }
}

#[test]
fn incr_wraps_from_255_to_0() {
    let (stop, _, stacks) = run_on(vec![Instr::Incr], deck_of(vec![vec![255]]), &[]);
    assert_eq!(stop, Stop::Halted);
    assert_eq!(stacks, vec![vec![0]]);
}

#[test]
fn decr_wraps_from_0_to_255() {
    let (stop, _, stacks) = run_on(vec![Instr::Decr], Deck::new(), &[]);
    assert_eq!(stop, Stop::Halted);
    assert_eq!(stacks, vec![vec![255]]);
}

#[test]
fn incr_and_decr_change_the_top_card_only() {
    let (_, _, stacks) =
        run_on(vec![Instr::Incr, Instr::Incr], deck_of(vec![vec![5], vec![1, 2]]), &[]);
    assert_eq!(stacks, vec![vec![5], vec![1, 4]]);
    let (_, _, stacks) = run_on(vec![Instr::Decr], deck_of(vec![vec![5], vec![1, 2]]), &[]);
    assert_eq!(stacks, vec![vec![5], vec![1, 1]]);
}

#[test]
fn pushes_and_pops_balance() {
    let program = vec![Instr::Push, Instr::Push, Instr::Pop, Instr::Push, Instr::Pop, Instr::Push];
    let (stop, _, stacks) = run_on(program, deck_of(vec![vec![4, 5]]), &[]);
    assert_eq!(stop, Stop::Halted);
    // Four pushes, two pops.
    assert_eq!(stacks[0].len(), 2 + 4 - 2);
    assert_eq!(stacks, vec![vec![4, 5, 0, 0]]);
}

#[test]
fn pop_removes_the_top_card_while_another_is_left() {
    let (stop, _, stacks) = run_on(vec![Instr::Pop], deck_of(vec![vec![1, 2]]), &[]);
    assert_eq!(stop, Stop::Halted);
    assert_eq!(stacks, vec![vec![1]]);
}

#[test]
fn a_fault_stops_the_run_where_it_happens() {
    let program = vec![Instr::Push, Instr::Pop, Instr::Pop, Instr::Incr];
    let (stop, _, stacks) = run_on(program, Deck::new(), &[]);
    assert_eq!(stop, Stop::Faulted(RuntimeFault::StackUnderflow));
    assert_eq!(stacks, vec![vec![0]]);
}

#[test]
fn deck_primitives_work_on_whole_stacks() {
    let deck = || deck_of(vec![vec![1], vec![2, 2], vec![3, 3, 3]]);
    let (_, _, stacks) = run_on(vec![Instr::StackOp(Primitive::Push)], deck(), &[]);
    assert_eq!(stacks, vec![vec![1], vec![2, 2], vec![3, 3, 3], vec![0]]);
    let (_, _, stacks) = run_on(vec![Instr::StackOp(Primitive::Pop)], deck(), &[]);
    assert_eq!(stacks, vec![vec![1], vec![2, 2]]);
    let (_, _, stacks) = run_on(vec![Instr::StackOp(Primitive::Bring)], deck(), &[]);
    assert_eq!(stacks, vec![vec![2, 2], vec![3, 3, 3], vec![1]]);
    let (_, _, stacks) = run_on(vec![Instr::StackOp(Primitive::Send)], deck(), &[]);
    assert_eq!(stacks, vec![vec![3, 3, 3], vec![1], vec![2, 2]]);
}

#[test]
fn a_closed_input_is_a_fault() {
    let (stop, output, stacks) = run_on(vec![Instr::In, Instr::Out], Deck::new(), &[]);
    assert_eq!(stop, Stop::Faulted(RuntimeFault::InputFailure));
    assert_eq!(output, Vec::<u8>::new());
    assert_eq!(stacks, vec![vec![0]]);
}

#[test]
fn a_character_is_stored_by_the_low_byte_of_its_code() {
    // U+20AC has the code 0x20AC.
    let (_, output, stacks) = run_on(vec![Instr::In, Instr::Out], Deck::new(), &['\u{20ac}']);
    assert_eq!(stacks, vec![vec![0xAC]]);
    assert_eq!(output, vec![0xAC]);
}

#[test]
fn a_loop_runs_its_body_even_on_a_zero_card() {
    // The top card is 0 on entry, and the body runs all the same. It pushes
    // a zero card, so the check after the first pass ends the loop.
    let (stop, _, stacks) = run_on(vec![Instr::Loop(vec![Instr::Push])], Deck::new(), &[]);
    assert_eq!(stop, Stop::Halted);
    assert_eq!(stacks, vec![vec![0, 0]]);
}

#[test]
fn a_loop_repeats_while_the_top_card_is_not_zero() {
    // Counts the top card down from 3 and writes it after each decrement.
    let program = vec![Instr::Loop(vec![Instr::Decr, Instr::Out])];
    let (stop, output, stacks) = run_on(program, deck_of(vec![vec![3]]), &[]);
    assert_eq!(stop, Stop::Halted);
    assert_eq!(output, vec![2, 1, 0]);
    assert_eq!(stacks, vec![vec![0]]);
}

#[test]
fn nested_loops_run_to_their_end() {
    // Outer card 2, inner card 3: the inner loop writes 3 characters on each
    // of the 2 passes of the outer one.
    let program = vec![
        Instr::Loop(vec![
            Instr::Push,
            Instr::Incr,
            Instr::Incr,
            Instr::Incr,
            Instr::Loop(vec![Instr::Decr, Instr::Out]),
            Instr::Pop,
            Instr::Decr,
        ]),
        Instr::Out,
    ];
    let (stop, output, stacks) = run_on(program, deck_of(vec![vec![2]]), &[]);
    assert_eq!(stop, Stop::Halted);
    assert_eq!(output, vec![2, 1, 0, 2, 1, 0, 0]);
    assert_eq!(stacks, vec![vec![0]]);
}

#[test]
fn an_endless_loop_uses_up_the_transitions() {
    let program = vec![Instr::Incr, Instr::Loop(vec![Instr::Out])];
    let mut machine = Machine::new(program, Deck::new());
    let outcome = machine.run(&[], 1 + 1 + 3 * 2);
    assert_eq!(outcome.stop, Stop::OutOfSteps);
    assert_eq!(outcome.output, vec![1, 1, 1]);
    let outcome = machine.run(&[], 4);
    assert_eq!(outcome.stop, Stop::OutOfSteps);
    assert_eq!(outcome.output, vec![1, 1]);
}

#[test]
fn the_machine_asks_before_it_reads() {
    let mut machine = Machine::new(vec![Instr::In], Deck::new());
    assert_eq!(machine.step(Event::Tick), Action::Read);
    assert_eq!(machine.step(Event::Tick), Action::Read);
    assert_eq!(machine.step(Event::Char('a')), Action::Continue);
    assert_eq!(machine.deck().top(), b'a');
    assert_eq!(machine.step(Event::Tick), Action::Halt);
    assert_eq!(machine.step(Event::Tick), Action::Halt);
}

#[test]
fn a_character_that_was_not_asked_for_is_dropped() {
    let mut machine = Machine::new(vec![Instr::Incr, Instr::Out], Deck::new());
    assert_eq!(machine.step(Event::Char('a')), Action::Continue);
    assert_eq!(machine.step(Event::Closed), Action::Write(1));
    assert_eq!(machine.step(Event::Char('b')), Action::Halt);
    assert_eq!(machine.deck().stacks(), &vec![vec![1u8]]);
}

#[test]
fn a_deck_needs_a_stack_and_every_stack_a_card() {
    assert_eq!(Deck::from_stacks(vec![]), None);
    assert_eq!(Deck::from_stacks(vec![vec![]]), None);
    assert_eq!(Deck::from_stacks(vec![vec![1], vec![]]), None);
    assert_eq!(Deck::from_stacks(vec![vec![], vec![1]]), None);
    assert_eq!(Deck::from_stacks(vec![vec![0]]), Some(Deck::new()));
    assert_eq!(Deck::new().stacks(), &vec![vec![0u8]]);
}

#[test]
fn deck_methods_do_what_the_instructions_do() {
    let mut deck = deck_of(vec![vec![1], vec![2, 3]]);
    assert_eq!(deck.apply_current(Primitive::Push), Ok(()));
    assert_eq!(deck.stacks(), &vec![vec![1u8], vec![2, 3, 0]]);
    deck.set_top(255);
    deck.incr();
    assert_eq!(deck.top(), 0);
    deck.decr();
    assert_eq!(deck.top(), 255);
    assert_eq!(deck.apply_deck(Primitive::Send), Ok(()));
    assert_eq!(deck.stacks(), &vec![vec![2u8, 3, 255], vec![1]]);
    assert_eq!(deck.apply_current(Primitive::Pop), Err(RuntimeFault::StackUnderflow));
    assert_eq!(deck.apply_deck(Primitive::Pop), Ok(()));
    assert_eq!(deck.apply_deck(Primitive::Pop), Err(RuntimeFault::NoActiveStack));
    assert_eq!(deck.stacks(), &vec![vec![2u8, 3, 255]]);
}

#[test]
fn execute_leaves_the_deck_that_the_run_left() {
    let program = vec![Instr::In, Instr::Push, Instr::In, Instr::Out, Instr::StackOp(Primitive::Push)];
    let mut deck = deck_of(vec![vec![9]]);
    let outcome = kardz::machine::execute(program, &mut deck, &['a', 'b', 'c'], 1_000);
    assert_eq!(outcome.stop, Stop::Halted);
    assert_eq!(outcome.output, vec![b'b']);
    assert_eq!(outcome.consumed, 2);
    assert_eq!(deck.stacks(), &vec![vec![b'a', b'b'], vec![0]]);
}

#[test]
fn execute_stops_at_a_fault_with_the_deck_as_it_was_then() {
    let program = vec![Instr::Incr, Instr::Out, Instr::StackOp(Primitive::Pop), Instr::Out];
    let mut deck = Deck::new();
    let outcome = kardz::machine::execute(program, &mut deck, &[], 1_000);
    assert_eq!(outcome.stop, Stop::Faulted(RuntimeFault::NoActiveStack));
    assert_eq!(outcome.output, vec![1]);
    assert_eq!(deck.stacks(), &vec![vec![1u8]]);
}
