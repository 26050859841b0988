//! The machine does what the program means: its transitions, one after the
//! other, come to the effect that [`crate::semantics`] gives the program.

use vstd::prelude::*;
use crate::deck::{top_card, valid_deck, RuntimeFault};
use crate::instr::Ast;
use crate::machine::{
    answer, body_at, current_instr, run_after, run_spec, start_state, step_spec, taken,
    valid_state, Action, Event, Run, State, Stop,
};
use crate::machine_laws::lemma_step_keeps_validity;
use crate::semantics::{
    effect_then, eval, eval_from, eval_instr, eval_loop, no_effect, Effect, End,
};

verus! {

/// Whether a run ended in `fault` with what `effect` says.
pub open spec fn faulted(run: Run, effect: Effect, fault: RuntimeFault) -> bool {
    &&& run.stop == Stop::Faulted(fault)
    &&& run.output == effect.output
    &&& run.consumed == effect.consumed
    &&& run.state.deck == effect.deck
}

/// Whether the machine, started in `s` with a tick, comes to `effect`:
///
/// - where the effect is done, after `n` transitions the machine stands in
///   `target`, about to get a tick, with the output written and the input
///   taken that the effect says;
/// - where it is a fault, every run of more than `n` transitions ends in
///   that fault, with the deck, the output and the input of the effect;
/// - where it is a timeout, no run of up to `fuel` transitions comes to an
///   end.
pub open spec fn follows(
    s: State,
    input: Seq<char>,
    effect: Effect,
    target: State,
    n: nat,
    fuel: nat,
) -> bool {
    &&& valid_deck(effect.deck)
    &&& 0 <= effect.consumed <= input.len()
    &&& match effect.end {
        End::Done => forall|m: nat|
            run_spec(s, Event::Tick, input, (n + m) as nat) == run_after(
                effect.output,
                effect.consumed,
                #[trigger] run_spec(target, Event::Tick, input.skip(effect.consumed), m),
            ),
        End::Fault(fault) => forall|m: nat|
            m > n ==> faulted(#[trigger] run_spec(s, Event::Tick, input, m), effect, fault),
        End::Timeout => forall|m: nat|
            m <= fuel ==> (#[trigger] run_spec(s, Event::Tick, input, m)).stop
                == Stop::OutOfSteps,
    }
}

/// A run that is out of steps after `n` transitions is out of steps after
/// any number below `n`.
proof fn lemma_out_of_steps_before(s: State, event: Event, input: Seq<char>, n: nat, m: nat)
    requires
        run_spec(s, event, input, n).stop == Stop::OutOfSteps,
        m <= n,
    ensures
        run_spec(s, event, input, m).stop == Stop::OutOfSteps,
    decreases m,
{
    if m > 0 {
        let (next, action) = step_spec(s, event);
        match action {
            Action::Continue => {
                lemma_out_of_steps_before(next, Event::Tick, input, (n - 1) as nat, (m - 1) as nat);
            },
            Action::Read => {
                lemma_out_of_steps_before(
                    next,
                    answer(input),
                    input.skip(taken(input)),
                    (n - 1) as nat,
                    (m - 1) as nat,
                );
            },
            Action::Write(_) => {
                lemma_out_of_steps_before(next, Event::Tick, input, (n - 1) as nat, (m - 1) as nat);
            },
            _ => {},
        }
    }
}

/// The machine comes to no effect in no transition.
proof fn lemma_follows_nothing(s: State, input: Seq<char>, fuel: nat)
    requires
        valid_deck(s.deck),
    ensures
        follows(s, input, no_effect(s.deck), s, 0, fuel),
{
    assert(input.skip(0) =~= input);
    assert forall|m: nat|
        run_spec(s, Event::Tick, input, (0 + m) as nat) == run_after(
            Seq::empty(),
            0,
            #[trigger] run_spec(s, Event::Tick, input.skip(0), m),
        ) by {
        let run = run_spec(s, Event::Tick, input, m);
        assert(Seq::<u8>::empty() + run.output =~= run.output);
    }
}

/// Where a tick takes the machine from `before` to `s` and asks nothing, the
/// machine comes from `before` to what it comes to from `s`, one transition
/// later.
proof fn lemma_follows_step(
    before: State,
    s: State,
    input: Seq<char>,
    effect: Effect,
    target: State,
    n: nat,
    fuel: nat,
)
    requires
        step_spec(before, Event::Tick) == (s, Action::Continue),
        follows(s, input, effect, target, n, fuel),
    ensures
        follows(before, input, effect, target, n + 1, fuel + 1),
{
    match effect.end {
        End::Done => {
            assert forall|m: nat|
                run_spec(before, Event::Tick, input, (n + 1 + m) as nat) == run_after(
                    effect.output,
                    effect.consumed,
                    #[trigger] run_spec(target, Event::Tick, input.skip(effect.consumed), m),
                ) by {
                assert(run_spec(before, Event::Tick, input, (n + 1 + m) as nat) == run_spec(
                    s,
                    Event::Tick,
                    input,
                    (n + m) as nat,
                ));
            }
        },
        End::Fault(fault) => {
            assert forall|m: nat| m > n + 1 implies faulted(
                #[trigger] run_spec(before, Event::Tick, input, m),
                effect,
                fault,
            ) by {
                assert(run_spec(before, Event::Tick, input, m) == run_spec(
                    s,
                    Event::Tick,
                    input,
                    (m - 1) as nat,
                ));
            }
        },
        End::Timeout => {
            assert forall|m: nat| m <= fuel + 1 implies (#[trigger] run_spec(
                before,
                Event::Tick,
                input,
                m,
            )).stop == Stop::OutOfSteps by {
                if m > 0 {
                    assert(run_spec(before, Event::Tick, input, m) == run_spec(
                        s,
                        Event::Tick,
                        input,
                        (m - 1) as nat,
                    ));
                }
            }
        },
    }
}

/// Where the machine comes from `s` to a first effect that is done, and
/// from there to a second, it comes from `s` to the one and then the other.
proof fn lemma_follows_then(
    s: State,
    input: Seq<char>,
    first: Effect,
    mid: State,
    n1: nat,
    fuel1: nat,
    second: Effect,
    target: State,
    n2: nat,
    fuel2: nat,
    fuel: nat,
)
    requires
        first.end is Done,
        follows(s, input, first, mid, n1, fuel1),
        follows(mid, input.skip(first.consumed), second, target, n2, fuel2),
        fuel <= fuel2 + n1,
    ensures
        follows(s, input, effect_then(first, second), target, n1 + n2, fuel),
{
    let both = effect_then(first, second);
    let rest = input.skip(first.consumed);
    assert(rest.skip(second.consumed) =~= input.skip(both.consumed));
    match second.end {
        End::Done => {
            assert forall|m: nat|
                run_spec(s, Event::Tick, input, (n1 + n2 + m) as nat) == run_after(
                    both.output,
                    both.consumed,
                    #[trigger] run_spec(target, Event::Tick, input.skip(both.consumed), m),
                ) by {
                let last = run_spec(target, Event::Tick, rest.skip(second.consumed), m);
                let middle = run_spec(mid, Event::Tick, rest, (n2 + m) as nat);
                assert(middle == run_after(second.output, second.consumed, last));
                assert(run_spec(s, Event::Tick, input, (n1 + (n2 + m)) as nat) == run_after(
                    first.output,
                    first.consumed,
                    middle,
                ));
                assert(first.output + (second.output + last.output) =~= (first.output
                    + second.output) + last.output);
            }
        },
        End::Fault(fault) => {
            assert forall|m: nat| m > n1 + n2 implies faulted(
                #[trigger] run_spec(s, Event::Tick, input, m),
                both,
                fault,
            ) by {
                let middle = run_spec(mid, Event::Tick, rest, (m - n1) as nat);
                assert(faulted(middle, second, fault));
                assert(run_spec(s, Event::Tick, input, (n1 + (m - n1)) as nat) == run_after(
                    first.output,
                    first.consumed,
                    middle,
                ));
            }
        },
        End::Timeout => {
            assert forall|m: nat| m <= fuel implies (#[trigger] run_spec(
                s,
                Event::Tick,
                input,
                m,
            )).stop == Stop::OutOfSteps by {
                if m >= n1 {
                    let middle = run_spec(mid, Event::Tick, rest, (m - n1) as nat);
                    assert(middle.stop == Stop::OutOfSteps);
                    assert(run_spec(s, Event::Tick, input, (n1 + (m - n1)) as nat) == run_after(
                        first.output,
                        first.consumed,
                        middle,
                    ));
                } else {
                    let middle = run_spec(mid, Event::Tick, rest, 0);
                    assert(run_spec(s, Event::Tick, input, (n1 + 0) as nat) == run_after(
                        first.output,
                        first.consumed,
                        middle,
                    ));
                    lemma_out_of_steps_before(s, Event::Tick, input, n1, m);
                }
            }
        },
    }
}

/// The state behind the instruction that `s` is about to run, with `deck`.
pub open spec fn state_behind(s: State, deck: Seq<Seq<u8>>) -> State {
    State { pc: s.pc + 1, deck, ..s }
}

/// The state at the end of the instruction sequence that `s` is in, with
/// `deck`.
pub open spec fn state_at_end(s: State, deck: Seq<Seq<u8>>) -> State {
    State { pc: body_at(s.program, s.loops)->0.len() as int, deck, ..s }
}

/// The state behind the loop whose body `s` is in, with `deck`.
pub open spec fn state_behind_loop(s: State, deck: Seq<Seq<u8>>) -> State {
    State { loops: s.loops.drop_last(), pc: s.loops.last() + 1, deck, ..s }
}

/// The machine comes to the effect of the instruction it is about to run, and
/// stands behind it then.
proof fn lemma_follows_instr(s: State, input: Seq<char>, fuel: nat) -> (n: nat)
    requires
        valid_state(s),
        current_instr(s) is Some,
    ensures
        ({
            let effect = eval_instr(current_instr(s)->0, s.deck, input, fuel);
            follows(s, input, effect, state_behind(s, effect.deck), n, fuel)
        }),
    decreases fuel, current_instr(s)->0, 0int,
{
    let instr = current_instr(s)->0;
    let effect = eval_instr(instr, s.deck, input, fuel);
    let target = state_behind(s, effect.deck);
    let (next, action) = step_spec(s, Event::Tick);
    lemma_step_keeps_validity(s, Event::Tick);
    match instr {
        Ast::Loop(body) => {
            assert(next.loops.drop_last() =~= s.loops);
            assert(body_at(next.program, next.loops) == Some(body));
            let n = lemma_follows_loop(s, next, input, fuel);
            assert(state_behind_loop(next, effect.deck) == target);
            n
        },
        Ast::In => {
            if input.len() > 0 {
                let c = input[0];
                lemma_step_keeps_validity(s, Event::Char(c));
                assert forall|m: nat|
                    run_spec(s, Event::Tick, input, (2 + m) as nat) == run_after(
                        effect.output,
                        effect.consumed,
                        #[trigger] run_spec(target, Event::Tick, input.skip(effect.consumed), m),
                    ) by {
                    let asked = run_spec(s, Event::Char(c), input.skip(1), (1 + m) as nat);
                    assert(run_spec(s, Event::Tick, input, (2 + m) as nat) == run_after(
                        Seq::empty(),
                        1,
                        asked,
                    ));
                    assert(asked == run_spec(target, Event::Tick, input.skip(1), m));
                }
                2
            } else {
                assert(input.skip(0) =~= input);
                assert forall|m: nat| m > 1 implies faulted(
                    #[trigger] run_spec(s, Event::Tick, input, m),
                    effect,
                    RuntimeFault::InputFailure,
                ) by {
                    let asked = run_spec(s, Event::Closed, input.skip(0), (m - 1) as nat);
                    assert(run_spec(s, Event::Tick, input, m) == run_after(
                        Seq::empty(),
                        0,
                        asked,
                    ));
                    assert(asked.stop == Stop::Faulted(RuntimeFault::InputFailure));
                    assert(Seq::<u8>::empty() + asked.output =~= effect.output);
                }
                1
            }
        },
        Ast::Out => {
            assert(input.skip(0) =~= input);
            assert forall|m: nat|
                run_spec(s, Event::Tick, input, (1 + m) as nat) == run_after(
                    effect.output,
                    effect.consumed,
                    #[trigger] run_spec(target, Event::Tick, input.skip(effect.consumed), m),
                ) by {}
            1
        },
        _ => {
            assert(input.skip(0) =~= input);
            if effect.end is Done {
                assert(next == target);
                lemma_follows_nothing(target, input, fuel);
                lemma_follows_step(s, target, input, no_effect(effect.deck), target, 0, fuel);
                1
            } else {
                let fault = effect.end->Fault_0;
                assert forall|m: nat| m > 0 implies faulted(
                    #[trigger] run_spec(s, Event::Tick, input, m),
                    effect,
                    fault,
                ) by {}
                0
            }
        },
    }
}

/// The machine comes to the effect of the rest of the instruction sequence it
/// is in, and stands at its end then.
proof fn lemma_follows_from(s: State, input: Seq<char>, fuel: nat) -> (n: nat)
    requires
        valid_state(s),
    ensures
        ({
            let body = body_at(s.program, s.loops)->0;
            let effect = eval_from(body, s.pc, s.deck, input, fuel);
            follows(s, input, effect, state_at_end(s, effect.deck), n, fuel)
        }),
    decreases fuel, body_at(s.program, s.loops)->0, body_at(s.program, s.loops)->0.len() - s.pc,
{
    let body = body_at(s.program, s.loops)->0;
    if s.pc >= body.len() {
        lemma_follows_nothing(s, input, fuel);
        0
    } else {
        let first = eval_instr(body[s.pc], s.deck, input, fuel);
        let n1 = lemma_follows_instr(s, input, fuel);
        if first.end is Done {
            let mid = state_behind(s, first.deck);
            let rest = input.skip(first.consumed);
            let n2 = lemma_follows_from(mid, rest, fuel);
            let second = eval_from(body, s.pc + 1, first.deck, rest, fuel);
            lemma_follows_then(
                s,
                input,
                first,
                mid,
                n1,
                fuel,
                second,
                state_at_end(s, second.deck),
                n2,
                fuel,
                fuel,
            );
            n1 + n2
        } else {
            n1
        }
    }
}

/// Where a tick takes the machine from `before` to the start of a loop's
/// body, the machine comes from `before` to the effect of the loop, and stands
/// behind the loop then.
proof fn lemma_follows_loop(before: State, s: State, input: Seq<char>, fuel: nat) -> (n: nat)
    requires
        valid_state(s),
        s.pc == 0,
        s.loops.len() > 0,
        step_spec(before, Event::Tick) == (s, Action::Continue),
    ensures
        ({
            let body = body_at(s.program, s.loops)->0;
            let effect = eval_loop(body, s.deck, input, fuel);
            follows(before, input, effect, state_behind_loop(s, effect.deck), n, fuel)
        }),
    decreases fuel, body_at(s.program, s.loops)->0, body_at(s.program, s.loops)->0.len() + 1,
{
    let body = body_at(s.program, s.loops)->0;
    let effect = eval_loop(body, s.deck, input, fuel);
    let target = state_behind_loop(s, effect.deck);
    if fuel == 0 {
        0
    } else {
        let less = (fuel - 1) as nat;
        let pass = eval_from(body, 0, s.deck, input, less);
        let end = state_at_end(s, pass.deck);
        let n_pass = lemma_follows_from(s, input, less);
        lemma_follows_step(before, s, input, pass, end, n_pass, less);
        if pass.end is Done {
            let rest = input.skip(pass.consumed);
            if top_card(pass.deck) != 0 {
                let again = State { pc: 0, ..end };
                let n_loop = lemma_follows_loop(end, again, rest, less);
                let more = eval_loop(body, pass.deck, rest, less);
                lemma_follows_then(
                    before,
                    input,
                    pass,
                    end,
                    n_pass + 1,
                    fuel,
                    more,
                    target,
                    n_loop,
                    less,
                    fuel,
                );
                n_pass + 1 + n_loop
            } else {
                let behind = state_behind_loop(s, pass.deck);
                lemma_follows_nothing(behind, rest, fuel);
                lemma_follows_step(end, behind, rest, no_effect(pass.deck), behind, 0, fuel);
                lemma_follows_then(
                    before,
                    input,
                    pass,
                    end,
                    n_pass + 1,
                    fuel,
                    no_effect(pass.deck),
                    behind,
                    1,
                    fuel + 1,
                    fuel,
                );
                assert(effect_then(pass, no_effect(pass.deck)).output =~= pass.output);
                n_pass + 2
            }
        } else {
            n_pass + 1
        }
    }
}

/// The machine agrees with the meaning of the program. For every program,
/// valid deck, input and fuel there is a number of transitions such that:
///
/// - where the program runs through, every longer run of the machine halts
///   at the end of the program, with the deck, the output and the number of
///   characters taken that the meaning gives;
/// - where the program fails, every longer run ends in that fault, with the
///   deck, the output and the number of characters taken at the fault;
/// - where the fuel runs out, no run of up to as many transitions as there
///   was fuel comes to an end.
pub proof fn lemma_machine_agrees(
    program: Seq<Ast>,
    deck: Seq<Seq<u8>>,
    input: Seq<char>,
    fuel: nat,
) -> (n: nat)
    requires
        valid_deck(deck),
    ensures
        ({
            let effect = eval(program, deck, input, fuel);
            let start = start_state(program, deck);
            match effect.end {
                End::Done => forall|limit: nat|
                    limit > n ==> #[trigger] run_spec(start, Event::Tick, input, limit) == (Run {
                        state: State { pc: program.len() as int, deck: effect.deck, ..start },
                        output: effect.output,
                        consumed: effect.consumed,
                        stop: Stop::Halted,
                    }),
                End::Fault(fault) => forall|limit: nat|
                    limit > n ==> faulted(
                        #[trigger] run_spec(start, Event::Tick, input, limit),
                        effect,
                        fault,
                    ),
                End::Timeout => forall|limit: nat|
                    limit <= fuel ==> (#[trigger] run_spec(start, Event::Tick, input, limit)).stop
                        == Stop::OutOfSteps,
            }
        }),
{
    let effect = eval(program, deck, input, fuel);
    let start = start_state(program, deck);
    let n = lemma_follows_from(start, input, fuel);
    let end = state_at_end(start, effect.deck);
    if effect.end is Done {
        assert forall|limit: nat| limit > n implies #[trigger] run_spec(
            start,
            Event::Tick,
            input,
            limit,
        ) == (Run {
            state: State { pc: program.len() as int, deck: effect.deck, ..start },
            output: effect.output,
            consumed: effect.consumed,
            stop: Stop::Halted,
        }) by {
            let m = (limit - n) as nat;
            let last = run_spec(end, Event::Tick, input.skip(effect.consumed), m);
            assert(run_spec(start, Event::Tick, input, (n + m) as nat) == run_after(
                effect.output,
                effect.consumed,
                last,
            ));
            assert(last.stop == Stop::Halted);
            assert(effect.output + last.output =~= effect.output);
        }
    }
    n
}

/// A run that has come to an end stays as it is when more transitions are
/// allowed.
proof fn lemma_ended_run_is_stable(
    s: State,
    event: Event,
    input: Seq<char>,
    limit: nat,
    more: nat,
)
    requires
        run_spec(s, event, input, limit).stop != Stop::OutOfSteps,
        limit <= more,
    ensures
        run_spec(s, event, input, more) == run_spec(s, event, input, limit),
    decreases limit,
{
    if limit > 0 {
        let (next, action) = step_spec(s, event);
        let less = (limit - 1) as nat;
        let fewer = (more - 1) as nat;
        match action {
            Action::Continue => {
                lemma_ended_run_is_stable(next, Event::Tick, input, less, fewer);
            },
            Action::Read => {
                lemma_ended_run_is_stable(
                    next,
                    answer(input),
                    input.skip(taken(input)),
                    less,
                    fewer,
                );
            },
            Action::Write(_) => {
                lemma_ended_run_is_stable(next, Event::Tick, input, less, fewer);
            },
            _ => {},
        }
    }
}

/// Every run of the machine that comes to an end ends as the program means:
/// where a run from the start of a program halts or fails within `limit`
/// transitions, the meaning of the program with `limit` as its fuel is done
/// or that fault, and gives the deck, the output and the number of
/// characters taken of the run.
pub proof fn lemma_ended_run_is_meant(
    program: Seq<Ast>,
    deck: Seq<Seq<u8>>,
    input: Seq<char>,
    limit: nat,
)
    requires
        valid_deck(deck),
        run_spec(start_state(program, deck), Event::Tick, input, limit).stop != Stop::OutOfSteps,
    ensures
        ({
            let run = run_spec(start_state(program, deck), Event::Tick, input, limit);
            let effect = eval(program, deck, input, limit);
            &&& run.stop == Stop::Halted <==> effect.end is Done
            &&& run.stop is Faulted <==> effect.end is Fault
            &&& run.stop is Faulted ==> run.stop->Faulted_0 == effect.end->Fault_0
            &&& run.state.deck == effect.deck
            &&& run.output == effect.output
            &&& run.consumed == effect.consumed
        }),
{
    let start = start_state(program, deck);
    let run = run_spec(start, Event::Tick, input, limit);
    let effect = eval(program, deck, input, limit);
    let n = lemma_machine_agrees(program, deck, input, limit);
    let more: nat = if limit > n {
        limit
    } else {
        n + 1
    };
    lemma_ended_run_is_stable(start, Event::Tick, input, limit, more);
    let longer = run_spec(start, Event::Tick, input, more);
    assert(longer == run);
}

} // verus!
