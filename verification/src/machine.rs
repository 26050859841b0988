//! The evaluator, as a machine that makes one transition at a time.
//!
//! The machine never reads or writes a character itself. Each transition
//! answers with an [`Action`] that says what the caller is to do, and takes
//! an [`Event`] that says what came of the last action.

use vstd::prelude::*;
use crate::deck::{
    current_effect, deck_effect, decr_card, incr_card, top_card, valid_deck, with_top_card, Deck,
    RuntimeFault,
};
use crate::instr::{lemma_loop_view, program_view, Ast, Instr, Primitive};

verus! {

/// What the caller hands to a transition.
#[derive(Clone, Copy, Debug, PartialEq, Eq)]
pub enum Event {
    /// Nothing was asked of the caller, or what was asked is done.
    Tick,
    /// The character that was read for an `In`.
    Char(char),
    /// The input channel is closed or unreadable.
    Closed,
}

/// What a transition asks of the caller.
#[derive(Clone, Copy, Debug, PartialEq, Eq, Structural)]
pub enum Action {
    /// Nothing; hand back [`Event::Tick`].
    Continue,
    /// Read one character and hand it back as [`Event::Char`], or
    /// [`Event::Closed`] when there is none to be had.
    Read,
    /// Write the character with this code, then hand back [`Event::Tick`].
    Write(u8),
    /// The program has run to its end.
    Halt,
    /// The program has failed. The machine stays at the failing instruction.
    Fault(RuntimeFault),
}

/// The model of a machine: the program, where in it execution stands, and
/// the deck.
///
/// `loops` leads from the program to the instruction sequence being run: it
/// holds the index of each enclosing loop in the sequence that holds it,
/// outermost first. `pc` is the index of the next instruction in that
/// sequence, or its length when the sequence has been run through.
pub ghost struct State {
    pub program: Seq<Ast>,
    pub loops: Seq<int>,
    pub pc: int,
    pub deck: Seq<Seq<u8>>,
}

/// The instruction sequence that `loops` leads to: the program itself when
/// `loops` is empty, else the body of the loop found at the last index in the
/// sequence that the indices before it lead to.
pub open spec fn body_at(program: Seq<Ast>, loops: Seq<int>) -> Option<Seq<Ast>>
    decreases loops.len(),
{
    if loops.len() == 0 {
        Some(program)
    } else {
        match body_at(program, loops.drop_last()) {
            Some(outer) => {
                let i = loops.last();
                if 0 <= i < outer.len() {
                    match outer[i] {
                        Ast::Loop(inner) => Some(inner),
                        _ => None,
                    }
                } else {
                    None
                }
            },
            None => None,
        }
    }
}

/// A state is valid when its position lies in its program and its deck is
/// valid.
pub open spec fn valid_state(s: State) -> bool {
    &&& valid_deck(s.deck)
    &&& body_at(s.program, s.loops) matches Some(body) && 0 <= s.pc <= body.len()
}

/// The state in which `program` starts on `deck`.
pub open spec fn start_state(program: Seq<Ast>, deck: Seq<Seq<u8>>) -> State {
    State { program, loops: Seq::empty(), pc: 0, deck }
}

/// The instruction that a state is about to run, if its sequence has one
/// left.
pub open spec fn current_instr(s: State) -> Option<Ast> {
    match body_at(s.program, s.loops) {
        Some(body) => if 0 <= s.pc < body.len() {
            Some(body[s.pc])
        } else {
            None
        },
        None => None,
    }
}

/// The card that a character is stored as: its code, cut to one byte.
pub open spec fn char_code(c: char) -> u8 {
    ((c as u32) % 256) as u8
}

/// What an instruction that is neither a loop nor input or output does to
/// the deck. For the other three the deck is returned as it is.
pub open spec fn instr_effect(instr: Ast, deck: Seq<Seq<u8>>) -> Result<
    Seq<Seq<u8>>,
    RuntimeFault,
> {
    match instr {
        Ast::Push => current_effect(Primitive::Push, deck),
        Ast::Pop => current_effect(Primitive::Pop, deck),
        Ast::Bring => current_effect(Primitive::Bring, deck),
        Ast::Send => current_effect(Primitive::Send, deck),
        Ast::Decr => Ok(with_top_card(deck, decr_card(top_card(deck)))),
        Ast::Incr => Ok(with_top_card(deck, incr_card(top_card(deck)))),
        Ast::StackOp(op) => deck_effect(op, deck),
        Ast::In | Ast::Out | Ast::Loop(_) => Ok(deck),
    }
}

/// One transition.
///
/// - At a loop, execution enters the body, whatever the top card is.
/// - At the end of a loop's body, the top card decides: non-zero, the body
///   starts again; zero, execution goes on behind the loop.
/// - At the end of the program, the machine halts and stays there.
/// - At an `In`, a tick asks for a character, a character is stored in the
///   top card, and a closed channel is a fault.
/// - At an `Out`, the top card is handed out to be written.
/// - Any other instruction changes the deck, or is a fault that leaves the
///   state as it was.
///
/// An event that brings a character, or the news that there is none, is
/// dropped where the instruction is not an `In`.
pub open spec fn step_spec(s: State, event: Event) -> (State, Action) {
    match current_instr(s) {
        Some(Ast::Loop(_)) => (State { loops: s.loops.push(s.pc), pc: 0, ..s }, Action::Continue),
        Some(Ast::In) => match event {
            Event::Tick => (s, Action::Read),
            Event::Char(c) => (
                State { deck: with_top_card(s.deck, char_code(c)), pc: s.pc + 1, ..s },
                Action::Continue,
            ),
            Event::Closed => (s, Action::Fault(RuntimeFault::InputFailure)),
        },
        Some(Ast::Out) => (State { pc: s.pc + 1, ..s }, Action::Write(top_card(s.deck))),
        Some(instr) => match instr_effect(instr, s.deck) {
            Ok(deck) => (State { deck, pc: s.pc + 1, ..s }, Action::Continue),
            Err(fault) => (s, Action::Fault(fault)),
        },
        None => if s.loops.len() == 0 {
            (s, Action::Halt)
        } else if top_card(s.deck) != 0 {
            (State { pc: 0, ..s }, Action::Continue)
        } else {
            (State { loops: s.loops.drop_last(), pc: s.loops.last() + 1, ..s }, Action::Continue)
        },
    }
}

/// How a run came to its end.
#[derive(Clone, Copy, Debug, PartialEq, Eq, Structural)]
pub enum Stop {
    /// The program ran to its end.
    Halted,
    /// The program failed.
    Faulted(RuntimeFault),
    /// The transitions that were allowed are used up.
    OutOfSteps,
}

/// The model of a run: the state it ended in, the characters it wrote, how
/// many characters of the input it took, and how it ended.
pub ghost struct Run {
    pub state: State,
    pub output: Seq<u8>,
    pub consumed: int,
    pub stop: Stop,
}

/// `run`, with `output` written and `consumed` characters taken before it.
pub open spec fn run_after(output: Seq<u8>, consumed: int, run: Run) -> Run {
    Run { output: output + run.output, consumed: consumed + run.consumed, ..run }
}

/// How many characters a read takes from `input`: one, if there is one.
pub open spec fn taken(input: Seq<char>) -> int {
    if input.len() > 0 {
        1
    } else {
        0
    }
}

/// The event that answers a read on `input`.
pub open spec fn answer(input: Seq<char>) -> Event {
    if input.len() > 0 {
        Event::Char(input[0])
    } else {
        Event::Closed
    }
}

/// Drives a state for at most `limit` transitions, the first of them with
/// `event`, on an input held in memory.
///
/// Every action is answered as its documentation asks: a `Read` with the
/// next character of `input`, or with `Closed` when none is left; a `Write`
/// by adding the character to the output.
pub open spec fn run_spec(s: State, event: Event, input: Seq<char>, limit: nat) -> Run
    decreases limit,
{
    if limit == 0 {
        Run { state: s, output: Seq::empty(), consumed: 0, stop: Stop::OutOfSteps }
    } else {
        let (next, action) = step_spec(s, event);
        match action {
            Action::Continue => run_spec(next, Event::Tick, input, (limit - 1) as nat),
            Action::Read => run_after(
                Seq::empty(),
                taken(input),
                run_spec(next, answer(input), input.skip(taken(input)), (limit - 1) as nat),
            ),
            Action::Write(card) => run_after(
                seq![card],
                0,
                run_spec(next, Event::Tick, input, (limit - 1) as nat),
            ),
            Action::Halt => Run {
                state: next,
                output: Seq::empty(),
                consumed: 0,
                stop: Stop::Halted,
            },
            Action::Fault(fault) => Run {
                state: next,
                output: Seq::empty(),
                consumed: 0,
                stop: Stop::Faulted(fault),
            },
        }
    }
}

/// What a run on an input held in memory leaves behind, besides the
/// machine's own state.
#[derive(Debug)]
pub struct Outcome {
    /// How the run ended.
    pub stop: Stop,
    /// The codes of the characters that were written, in order.
    pub output: Vec<u8>,
    /// How many characters of the input were taken.
    pub consumed: usize,
}

/// The indices of a path, as mathematical integers.
pub open spec fn path_view(loops: Seq<usize>) -> Seq<int> {
    loops.map_values(|i: usize| i as int)
}

/// The instruction sequence that `loops` leads to in `program`.
fn body_of<'a>(program: &'a Vec<Instr>, loops: &Vec<usize>) -> (body: &'a Vec<Instr>)
    requires
        body_at(program_view(program@), path_view(loops@)) is Some,
    ensures
        body_at(program_view(program@), path_view(loops@)) == Some(program_view(body@)),
{
    let ghost all = path_view(loops@);
    let ghost root = program_view(program@);
    let mut body: &'a Vec<Instr> = program;
    let mut depth: usize = 0;
    proof {
        lemma_body_at_prefix(root, all, 0);
        assert(all.take(0) =~= Seq::<int>::empty());
    }
    while depth < loops.len()
        invariant
            all == path_view(loops@),
            root == program_view(program@),
            body_at(root, all) is Some,
            0 <= depth <= loops.len(),
            body_at(root, all.take(depth as int)) == Some(program_view(body@)),
        decreases loops.len() - depth,
    {
        let i = loops[depth];
        proof {
            lemma_body_at_prefix(root, all, depth + 1);
            assert(all.take(depth + 1).drop_last() =~= all.take(depth as int));
            assert(all.take(depth + 1).last() == i as int);
        }
        match &body[i] {
            Instr::Loop(inner) => {
                proof {
                    lemma_loop_view(body@[i as int]);
                }
                body = inner;
            },
            _ => {
                assert(false);
            },
        }
        depth += 1;
    }
    proof {
        assert(all.take(depth as int) =~= all);
    }
    body
}

/// Where a path leads somewhere, each of its prefixes does.
pub proof fn lemma_body_at_prefix(program: Seq<Ast>, loops: Seq<int>, n: int)
    requires
        body_at(program, loops) is Some,
        0 <= n <= loops.len(),
    ensures
        body_at(program, loops.take(n)) is Some,
    decreases loops.len(),
{
    if n == loops.len() {
        assert(loops.take(n) =~= loops);
    } else {
        lemma_body_at_prefix(program, loops.drop_last(), n);
        assert(loops.drop_last().take(n) =~= loops.take(n));
    }
}

/// The instruction sequence that a path leads to in a stored program is
/// stored too, so its length is one that the machine can count.
proof fn lemma_body_is_stored(program: Vec<Instr>, loops: Seq<int>) -> (body: Vec<Instr>)
    requires
        body_at(program_view(program@), loops) is Some,
    ensures
        body_at(program_view(program@), loops) == Some(program_view(body@)),
    decreases loops.len(),
{
    if loops.len() == 0 {
        program
    } else {
        let outer = lemma_body_is_stored(program, loops.drop_last());
        let i = loops.last();
        lemma_loop_view(outer@[i]);
        outer@[i]->Loop_0
    }
}

/// The evaluator: a program, a position in it, and the deck it works on.
#[derive(Debug)]
pub struct Machine {
    program: Vec<Instr>,
    loops: Vec<usize>,
    pc: usize,
    deck: Deck,
}

impl View for Machine {
    type V = State;

    closed spec fn view(&self) -> State {
        State {
            program: program_view(self.program@),
            loops: path_view(self.loops@),
            pc: self.pc as int,
            deck: self.deck@,
        }
    }
}

impl Machine {
    /// The invariant of the type: the state is valid.
    pub open spec fn wf(&self) -> bool {
        valid_state(self@)
    }

    /// A machine about to run `program` from its first instruction on `deck`.
    pub fn new(program: Vec<Instr>, deck: Deck) -> (machine: Machine)
        requires
            deck.wf(),
        ensures
            machine.wf(),
            machine@ == start_state(program_view(program@), deck@),
    {
        let machine = Machine { program, loops: Vec::new(), pc: 0, deck };
        assert(machine@.loops =~= Seq::<int>::empty());
        machine
    }

    /// The deck as it stands.
    pub fn deck(&self) -> (deck: &Deck)
        ensures
            deck@ == self@.deck,
            self.wf() ==> deck.wf(),
    {
        &self.deck
    }

    /// Gives up the machine for its deck.
    pub fn into_deck(self) -> (deck: Deck)
        ensures
            deck@ == self@.deck,
            self.wf() ==> deck.wf(),
    {
        self.deck
    }

    /// The instruction that the machine is about to run: `None` at the end of
    /// the program or of a loop's body. After a fault it is the instruction
    /// that failed.
    pub fn current(&self) -> (instr: Option<&Instr>)
        requires
            self.wf(),
        ensures
            match current_instr(self@) {
                Some(ast) => instr matches Some(i) && i.deep_view() == ast,
                None => instr is None,
            },
    {
        let body = body_of(&self.program, &self.loops);
        if self.pc < body.len() {
            Some(&body[self.pc])
        } else {
            None
        }
    }

    /// Makes one transition: see [`step_spec`].
    pub fn step(&mut self, event: Event) -> (action: Action)
        requires
            old(self).wf(),
        ensures
            final(self).wf(),
            (final(self)@, action) == step_spec(old(self)@, event),
    {
        let body = body_of(&self.program, &self.loops);
        let ghost before = self@;
        if self.pc < body.len() {
            match &body[self.pc] {
                Instr::Loop(inner) => {
                    proof {
                        lemma_loop_view(body@[self.pc as int]);
                    }
                    self.loops.push(self.pc);
                    self.pc = 0;
                    proof {
                        assert(self@.loops =~= before.loops.push(before.pc));
                        assert(self@.loops.drop_last() =~= before.loops);
                    }
                    Action::Continue
                },
                Instr::In => match event {
                    Event::Tick => Action::Read,
                    Event::Char(c) => {
                        let code: u32 = c as u32;
                        self.deck.set_top((code % 256) as u8);
                        self.pc = self.pc + 1;
                        Action::Continue
                    },
                    Event::Closed => Action::Fault(RuntimeFault::InputFailure),
                },
                Instr::Out => {
                    let card = self.deck.top();
                    self.pc = self.pc + 1;
                    Action::Write(card)
                },
                Instr::Push => self.finish(Primitive::Push),
                Instr::Pop => self.finish(Primitive::Pop),
                Instr::Bring => self.finish(Primitive::Bring),
                Instr::Send => self.finish(Primitive::Send),
                Instr::Decr => {
                    self.deck.decr();
                    self.pc = self.pc + 1;
                    Action::Continue
                },
                Instr::Incr => {
                    self.deck.incr();
                    self.pc = self.pc + 1;
                    Action::Continue
                },
                Instr::StackOp(op) => match self.deck.apply_deck(*op) {
                    Ok(()) => {
                        self.pc = self.pc + 1;
                        Action::Continue
                    },
                    Err(fault) => Action::Fault(fault),
                },
            }
        } else if self.loops.len() == 0 {
            Action::Halt
        } else if self.deck.top() != 0 {
            self.pc = 0;
            Action::Continue
        } else {
            let n = self.loops.len();
            let outer = self.loops[n - 1];
            self.loops.pop();
            proof {
                assert(self@.loops =~= before.loops.drop_last());
                let outer_body = lemma_body_is_stored(self.program, self@.loops);
                assert(outer_body@.len() == outer_body.len());
            }
            self.pc = outer + 1;
            Action::Continue
        }
    }

    /// Runs the machine for at most `limit` transitions on an input held in
    /// memory: see [`run_spec`].
    pub fn run(&mut self, input: &[char], limit: u64) -> (outcome: Outcome)
        requires
            old(self).wf(),
        ensures
            final(self).wf(),
            (Run {
                state: final(self)@,
                output: outcome.output@,
                consumed: outcome.consumed as int,
                stop: outcome.stop,
            }) == run_spec(old(self)@, Event::Tick, input@, limit as nat),
    {
        let ghost total = run_spec(self@, Event::Tick, input@, limit as nat);
        let mut output: Vec<u8> = Vec::new();
        let mut consumed: usize = 0;
        let mut event = Event::Tick;
        let mut left: u64 = limit;
        proof {
            let rest = run_spec(self@, event, input@.skip(0), left as nat);
            assert(input@.skip(0) =~= input@);
            assert(run_after(output@, 0, rest).output =~= rest.output);
        }
        while left > 0
            invariant
                self.wf(),
                0 <= consumed <= input@.len(),
                total == run_spec(old(self)@, Event::Tick, input@, limit as nat),
                total == run_after(
                    output@,
                    consumed as int,
                    run_spec(self@, event, input@.skip(consumed as int), left as nat),
                ),
            decreases left,
        {
            let ghost before = self@;
            let ghost written = output@;
            let ghost rest = input@.skip(consumed as int);
            let action = self.step(event);
            left = left - 1;
            match action {
                Action::Continue => {
                    event = Event::Tick;
                },
                Action::Read => {
                    let ghost tail = run_spec(
                        self@,
                        answer(rest),
                        rest.skip(taken(rest)),
                        left as nat,
                    );
                    if consumed < input.len() {
                        event = Event::Char(input[consumed]);
                        consumed = consumed + 1;
                    } else {
                        event = Event::Closed;
                    }
                    proof {
                        assert(rest.skip(taken(rest)) =~= input@.skip(consumed as int));
                        assert(written + (Seq::<u8>::empty() + tail.output) =~= written
                            + tail.output);
                    }
                },
                Action::Write(card) => {
                    output.push(card);
                    event = Event::Tick;
                    proof {
                        let tail = run_spec(self@, event, rest, left as nat);
                        assert(output@ =~= written + seq![card]);
                        assert(written + (seq![card] + tail.output) =~= (written + seq![card])
                            + tail.output);
                    }
                },
                Action::Halt => {
                    assert(total.output =~= output@);
                    return Outcome { stop: Stop::Halted, output, consumed };
                },
                Action::Fault(fault) => {
                    assert(total.output =~= output@);
                    return Outcome { stop: Stop::Faulted(fault), output, consumed };
                },
            }
        }
        assert(total.output =~= output@);
        Outcome { stop: Stop::OutOfSteps, output, consumed }
    }

    /// Applies a primitive to the current stack and, unless that is a fault,
    /// moves on to the next instruction.
    fn finish(&mut self, op: Primitive) -> (action: Action)
        requires
            valid_deck(old(self)@.deck),
            old(self).pc < usize::MAX,
        ensures
            match current_effect(op, old(self)@.deck) {
                Ok(deck) => action == Action::Continue && final(self)@ == (State {
                    deck,
                    pc: old(self)@.pc + 1,
                    ..old(self)@
                }),
                Err(fault) => action == Action::Fault(fault) && final(self)@ == old(self)@,
            },
    {
        match self.deck.apply_current(op) {
            Ok(()) => {
                self.pc = self.pc + 1;
                Action::Continue
            },
            Err(fault) => Action::Fault(fault),
        }
    }
}

/// Runs `program` on `deck` for at most `limit` transitions, on an input
/// held in memory: a run of the machine from the start of the program, which
/// leaves in `deck` what the run left.
pub fn execute(program: Vec<Instr>, deck: &mut Deck, input: &[char], limit: u64) -> (outcome:
    Outcome)
    requires
        old(deck).wf(),
    ensures
        final(deck).wf(),
        ({
            let run = run_spec(
                start_state(program_view(program@), old(deck)@),
                Event::Tick,
                input@,
                limit as nat,
            );
            &&& final(deck)@ == run.state.deck
            &&& outcome.output@ == run.output
            &&& outcome.consumed == run.consumed
            &&& outcome.stop == run.stop
        }),
{
    let mut working = Deck::new();
    core::mem::swap(deck, &mut working);
    let mut machine = Machine::new(program, working);
    let outcome = machine.run(input, limit);
    let mut left = machine.into_deck();
    core::mem::swap(deck, &mut left);
    outcome
}

} // verus!
