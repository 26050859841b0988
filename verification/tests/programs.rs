use kardz::deck::{Deck, RuntimeFault};
use kardz::instr::Instr;
use kardz::machine::{execute, Action, Event, Machine, Stop};
use kardz::parser::parse;

fn program(text: &str) -> Vec<Instr> {
    parse(text).expect("a program")
}

#[test]
fn plus_and_a_loop_of_minus_runs_the_minus_once() {
    let mut machine = Machine::new(program("+[-]"), Deck::new());
    let mut decrements = 0;
    loop {
        let at_decr = machine.current() == Some(&Instr::Decr);
        match machine.step(Event::Tick) {
            Action::Halt => break,
            Action::Continue => {
                if at_decr {
                    decrements += 1;
                }
            }
            other => panic!("unexpected action {:?}", other),
        }
    }
    assert_eq!(decrements, 1);
    assert_eq!(machine.deck().top(), 0);
    assert_eq!(machine.deck().stacks(), &vec![vec![0u8]]);
}

#[test]
fn a_star_on_the_initial_deck_underflows() {
    let mut deck = Deck::new();
    let outcome = execute(program("*"), &mut deck, &[], 100);
    assert_eq!(outcome.stop, Stop::Faulted(RuntimeFault::StackUnderflow));
    assert_eq!(deck, Deck::new());
}

#[test]
fn comma_and_dot_echo_a_character() {
    let mut deck = Deck::new();
    let outcome = execute(program(",."), &mut deck, &['X'], 100);
    assert_eq!(outcome.stop, Stop::Halted);
    assert_eq!(outcome.output, vec![b'X']);
}

#[test]
fn a_tilde_star_on_the_initial_deck_finds_no_active_stack() {
    let mut deck = Deck::new();
    let outcome = execute(program("~*"), &mut deck, &[], 100);
    assert_eq!(outcome.stop, Stop::Faulted(RuntimeFault::NoActiveStack));
    assert_eq!(deck, Deck::new());
}

#[test]
fn a_comma_without_input_fails() {
    let mut deck = Deck::new();
    let outcome = execute(program("+,."), &mut deck, &[], 100);
    assert_eq!(outcome.stop, Stop::Faulted(RuntimeFault::InputFailure));
    assert_eq!(outcome.output, Vec::<u8>::new());
    assert_eq!(deck.stacks(), &vec![vec![1u8]]);
}

#[test]
fn eight_times_eight_and_one_is_an_a() {
    // The counter lies on top at the end of each pass; the sum below it.
    let text = "#++++++++ { sum 0, counter 8 }
                [ < ++++++++ { sum up by 8 } < - ]
                * + .";
    let mut deck = Deck::new();
    let outcome = execute(program(text), &mut deck, &[], 10_000);
    assert_eq!(outcome.stop, Stop::Halted);
    assert_eq!(outcome.output, vec![b'A']);
    assert_eq!(deck.stacks(), &vec![vec![65u8]]);
}

#[test]
fn an_echo_loop_ends_at_a_null_character() {
    let mut deck = Deck::new();
    let outcome = execute(program("[,.]"), &mut deck, &['h', 'i', '\0', 'x'], 10_000);
    assert_eq!(outcome.stop, Stop::Halted);
    assert_eq!(outcome.output, vec![b'h', b'i', 0]);
    assert_eq!(outcome.consumed, 3);
}

#[test]
fn stacks_keep_their_cards_while_another_is_current() {
    // Count to 2, open a stack and count to 3, close it again.
    let mut deck = Deck::new();
    let outcome = execute(program("++ ~# +++ . ~* ."), &mut deck, &[], 1_000);
    assert_eq!(outcome.stop, Stop::Halted);
    assert_eq!(outcome.output, vec![3, 2]);
    assert_eq!(deck.stacks(), &vec![vec![2u8]]);
}

#[test]
fn the_deck_rotates_as_a_stack_does() {
    let mut deck = Deck::new();
    let outcome = execute(program("+ ~# ++ ~# +++ ~< . ~> ~> ."), &mut deck, &[], 1_000);
    assert_eq!(outcome.stop, Stop::Halted);
    // [1] [2] [3] -> bring -> [2] [3] [1] -> send, send -> [3] [1] [2]
    assert_eq!(outcome.output, vec![1, 2]);
    assert_eq!(deck.stacks(), &vec![vec![3u8], vec![1], vec![2]]);
}

#[test]
fn a_text_that_does_not_parse_gives_no_program() {
    assert!(parse("+[-").is_err());
    assert!(parse("+]").is_err());
    assert!(parse("hello").is_err());
}
