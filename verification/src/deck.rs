//! The runtime state: a deck of stacks of cards, and what each instruction
//! does to it.

use vstd::prelude::*;
use crate::instr::Primitive;

verus! {

/// A fault that ends execution.
#[derive(Clone, Copy, Debug, PartialEq, Eq, Structural)]
pub enum RuntimeFault {
    /// A pop would have emptied the current stack.
    StackUnderflow,
    /// A deck-level pop would have emptied the deck.
    NoActiveStack,
    /// The input channel was closed or unreadable.
    InputFailure,
}

/// Moves the bottom element of `s` to its top.
pub open spec fn bring<T>(s: Seq<T>) -> Seq<T> {
    if s.len() == 0 {
        s
    } else {
        s.subrange(1, s.len() as int).push(s[0])
    }
}

/// Moves the top element of `s` to its bottom.
pub open spec fn send<T>(s: Seq<T>) -> Seq<T> {
    if s.len() == 0 {
        s
    } else {
        seq![s.last()] + s.drop_last()
    }
}

/// A card one higher, 0 after 255.
pub open spec fn incr_card(card: u8) -> u8 {
    if card == 255 {
        0
    } else {
        (card + 1) as u8
    }
}

/// A card one lower, 255 after 0.
pub open spec fn decr_card(card: u8) -> u8 {
    if card == 0 {
        255
    } else {
        (card - 1) as u8
    }
}

/// A deck is valid when it holds a stack and no stack in it is empty.
pub open spec fn valid_deck(deck: Seq<Seq<u8>>) -> bool {
    &&& deck.len() >= 1
    &&& forall|i: int| 0 <= i < deck.len() ==> (#[trigger] deck[i]).len() >= 1
}

/// The deck every program starts with: one stack holding one zero card.
pub open spec fn initial_deck() -> Seq<Seq<u8>> {
    seq![seq![0u8]]
}

/// The top card of the current stack.
pub open spec fn top_card(deck: Seq<Seq<u8>>) -> u8 {
    deck.last().last()
}

/// The deck with its current stack replaced.
pub open spec fn with_current(deck: Seq<Seq<u8>>, stack: Seq<u8>) -> Seq<Seq<u8>> {
    deck.drop_last().push(stack)
}

/// The deck with the top card of its current stack replaced.
pub open spec fn with_top_card(deck: Seq<Seq<u8>>, card: u8) -> Seq<Seq<u8>> {
    with_current(deck, deck.last().drop_last().push(card))
}

/// What a primitive does to one stack of cards. Only a pop can fail, when
/// it would leave the stack empty.
pub open spec fn stack_effect(op: Primitive, stack: Seq<u8>) -> Result<Seq<u8>, RuntimeFault> {
    match op {
        Primitive::Push => Ok(stack.push(0u8)),
        Primitive::Pop => if stack.len() <= 1 {
            Err(RuntimeFault::StackUnderflow)
        } else {
            Ok(stack.drop_last())
        },
        Primitive::Bring => Ok(bring(stack)),
        Primitive::Send => Ok(send(stack)),
    }
}

/// What a primitive does when it is applied to the current stack of a deck.
pub open spec fn current_effect(op: Primitive, deck: Seq<Seq<u8>>) -> Result<
    Seq<Seq<u8>>,
    RuntimeFault,
> {
    match stack_effect(op, deck.last()) {
        Ok(stack) => Ok(with_current(deck, stack)),
        Err(fault) => Err(fault),
    }
}

/// What a primitive does when it is applied to the deck itself. Only a pop
/// can fail, when it would leave the deck empty.
pub open spec fn deck_effect(op: Primitive, deck: Seq<Seq<u8>>) -> Result<
    Seq<Seq<u8>>,
    RuntimeFault,
> {
    match op {
        Primitive::Push => Ok(deck.push(seq![0u8])),
        Primitive::Pop => if deck.len() <= 1 {
            Err(RuntimeFault::NoActiveStack)
        } else {
            Ok(deck.drop_last())
        },
        Primitive::Bring => Ok(bring(deck)),
        Primitive::Send => Ok(send(deck)),
    }
}

/// A deck of stacks of cards. The last stack is the current one; the last
/// card of a stack is its top.
#[derive(Clone, Debug, PartialEq, Eq)]
pub struct Deck {
    stacks: Vec<Vec<u8>>,
}

impl View for Deck {
    type V = Seq<Seq<u8>>;

    closed spec fn view(&self) -> Seq<Seq<u8>> {
        Seq::new(self.stacks@.len(), |i: int| self.stacks@[i]@)
    }
}

impl Deck {
    /// The invariant of the type: the deck is valid.
    pub open spec fn wf(&self) -> bool {
        valid_deck(self@)
    }

    /// The starting deck.
    pub fn new() -> (deck: Deck)
        ensures
            deck.wf(),
            deck@ == initial_deck(),
    {
        let mut first: Vec<u8> = Vec::new();
        first.push(0);
        let mut stacks: Vec<Vec<u8>> = Vec::new();
        stacks.push(first);
        let deck = Deck { stacks };
        assert(deck@ =~~= initial_deck());
        deck
    }

    /// The value of the top card of the current stack.
    pub fn top(&self) -> (card: u8)
        requires
            self.wf(),
        ensures
            card == top_card(self@),
    {
        let n = self.stacks.len();
        assert(self@[n - 1].len() >= 1);
        let m = self.stacks[n - 1].len();
        self.stacks[n - 1][m - 1]
    }

    /// Applies a primitive to the current stack.
    pub fn apply_current(&mut self, op: Primitive) -> (result: Result<(), RuntimeFault>)
        requires
            old(self).wf(),
        ensures
            final(self).wf(),
            match current_effect(op, old(self)@) {
                Ok(deck) => result is Ok && final(self)@ == deck,
                Err(fault) => result == Err::<(), RuntimeFault>(fault) && final(self)@ == old(self)@,
            },
    {
        let n = self.stacks.len();
        assert(self@[n - 1].len() >= 1);
        let m = self.stacks[n - 1].len();
        match op {
            Primitive::Push => {
                self.stacks[n - 1].push(0);
            },
            Primitive::Pop => {
                if m <= 1 {
                    return Err(RuntimeFault::StackUnderflow);
                }
                self.stacks[n - 1].pop();
            },
            Primitive::Bring => {
                let card = self.stacks[n - 1].remove(0);
                self.stacks[n - 1].push(card);
            },
            Primitive::Send => {
                let card = self.stacks[n - 1][m - 1];
                self.stacks[n - 1].pop();
                self.stacks[n - 1].insert(0, card);
            },
        }
        proof {
            let want = current_effect(op, old(self)@)->Ok_0;
            assert(self@[n - 1] =~= want[n - 1]);
            assert(self@ =~= want);
        }
        Ok(())
    }

    /// Applies a primitive to the deck itself.
    pub fn apply_deck(&mut self, op: Primitive) -> (result: Result<(), RuntimeFault>)
        requires
            old(self).wf(),
        ensures
            final(self).wf(),
            match deck_effect(op, old(self)@) {
                Ok(deck) => result is Ok && final(self)@ == deck,
                Err(fault) => result == Err::<(), RuntimeFault>(fault) && final(self)@ == old(self)@,
            },
    {
        let n = self.stacks.len();
        match op {
            Primitive::Push => {
                let mut stack: Vec<u8> = Vec::new();
                stack.push(0);
                assert(stack@ =~= seq![0u8]);
                self.stacks.push(stack);
            },
            Primitive::Pop => {
                if n <= 1 {
                    return Err(RuntimeFault::NoActiveStack);
                }
                self.stacks.pop();
            },
            Primitive::Bring => {
                let stack = self.stacks.remove(0);
                self.stacks.push(stack);
            },
            Primitive::Send => {
                let stack = self.stacks.pop();
                if let Some(stack) = stack {
                    self.stacks.insert(0, stack);
                }
            },
        }
        proof {
            let want = deck_effect(op, old(self)@)->Ok_0;
            assert(self@ =~= want);
            lemma_effects_keep_validity(op, old(self)@);
        }
        Ok(())
    }

    /// Replaces the top card of the current stack.
    pub fn set_top(&mut self, card: u8)
        requires
            old(self).wf(),
        ensures
            final(self).wf(),
            final(self)@ == with_top_card(old(self)@, card),
    {
        let n = self.stacks.len();
        assert(self@[n - 1].len() >= 1);
        let m = self.stacks[n - 1].len();
        self.stacks[n - 1][m - 1] = card;
        proof {
            let want = with_top_card(old(self)@, card);
            assert(self@[n - 1] =~= want[n - 1]);
            assert(self@ =~= want);
        }
    }

    /// Raises the top card by one, wrapping from 255 to 0.
    pub fn incr(&mut self)
        requires
            old(self).wf(),
        ensures
            final(self).wf(),
            final(self)@ == with_top_card(old(self)@, incr_card(top_card(old(self)@))),
    {
        let card = self.top();
        self.set_top(card.wrapping_add(1));
    }

    /// Lowers the top card by one, wrapping from 0 to 255.
    pub fn decr(&mut self)
        requires
            old(self).wf(),
        ensures
            final(self).wf(),
            final(self)@ == with_top_card(old(self)@, decr_card(top_card(old(self)@))),
    {
        let card = self.top();
        self.set_top(card.wrapping_sub(1));
    }

    /// Builds a deck from its stacks, bottom first. There is a deck exactly
    /// when `stacks` holds a stack and none of them is empty.
    pub fn from_stacks(stacks: Vec<Vec<u8>>) -> (deck: Option<Deck>)
        ensures
            deck is Some <==> valid_deck(stacks.deep_view()),
            deck matches Some(d) ==> d.wf() && d@ == stacks.deep_view(),
    {
        let n = stacks.len();
        assert forall|i: int| 0 <= i < n implies (#[trigger] stacks.deep_view()[i]).len()
            == stacks@[i]@.len() by {
            assert(stacks.deep_view()[i] =~= stacks@[i]@);
        }
        if n == 0 {
            return None;
        }
        let mut i: usize = 0;
        while i < n
            invariant
                n == stacks@.len(),
                0 <= i <= n,
                forall|j: int| 0 <= j < i ==> (#[trigger] stacks@[j])@.len() >= 1,
            decreases n - i,
        {
            if stacks[i].len() == 0 {
                assert(stacks.deep_view()[i as int].len() == 0);
                return None;
            }
            i += 1;
        }
        let deck = Deck { stacks };
        proof {
            assert forall|j: int| 0 <= j < n implies deck@[j] =~= deck.stacks.deep_view()[j] by {}
            assert(deck@ =~= deck.stacks.deep_view());
        }
        Some(deck)
    }

    /// The stacks of the deck, bottom first, each with its bottom card first.
    pub fn stacks(&self) -> (stacks: &Vec<Vec<u8>>)
        ensures
            stacks.deep_view() == self@,
    {
        proof {
            assert forall|j: int| 0 <= j < self.stacks@.len() implies self@[j]
                =~= self.stacks.deep_view()[j] by {}
            assert(self@ =~= self.stacks.deep_view());
        }
        &self.stacks
    }
}

/// Bringing and then sending, or sending and then bringing, leaves any
/// sequence as it was.
pub proof fn lemma_rotation_round_trip<T>(s: Seq<T>)
    ensures
        send(bring(s)) == s,
        bring(send(s)) == s,
        bring(s).len() == s.len(),
        send(s).len() == s.len(),
{
    assert(send(bring(s)) =~= s);
    assert(bring(send(s)) =~= s);
}

/// On three elements, bringing turns `[a, b, c]` into `[b, c, a]` and sending
/// turns it into `[c, a, b]`.
pub proof fn lemma_rotation_of_three<T>(a: T, b: T, c: T)
    ensures
        bring(seq![a, b, c]) == seq![b, c, a],
        send(seq![a, b, c]) == seq![c, a, b],
{
    assert(bring(seq![a, b, c]) =~= seq![b, c, a]);
    assert(send(seq![a, b, c]) =~= seq![c, a, b]);
}

/// On the current stack of a valid deck, and on the deck itself, a bring
/// and a send undo each other, in either order.
pub proof fn lemma_rotations_undo(deck: Seq<Seq<u8>>)
    requires
        valid_deck(deck),
    ensures
        current_effect(Primitive::Bring, deck) matches Ok(d) && current_effect(Primitive::Send, d)
            == Ok::<Seq<Seq<u8>>, RuntimeFault>(deck),
        current_effect(Primitive::Send, deck) matches Ok(d) && current_effect(Primitive::Bring, d)
            == Ok::<Seq<Seq<u8>>, RuntimeFault>(deck),
        deck_effect(Primitive::Bring, deck) matches Ok(d) && deck_effect(Primitive::Send, d)
            == Ok::<Seq<Seq<u8>>, RuntimeFault>(deck),
        deck_effect(Primitive::Send, deck) matches Ok(d) && deck_effect(Primitive::Bring, d)
            == Ok::<Seq<Seq<u8>>, RuntimeFault>(deck),
{
    lemma_rotation_round_trip(deck);
    lemma_rotation_round_trip(deck.last());
    let brought = with_current(deck, bring(deck.last()));
    assert(with_current(brought, send(brought.last())) =~= deck);
    let sent = with_current(deck, send(deck.last()));
    assert(with_current(sent, bring(sent.last())) =~= deck);
}

/// No primitive, on the current stack or on the deck, makes a valid deck
/// invalid.
pub proof fn lemma_effects_keep_validity(op: Primitive, deck: Seq<Seq<u8>>)
    requires
        valid_deck(deck),
    ensures
        current_effect(op, deck) matches Ok(d) ==> valid_deck(d),
        deck_effect(op, deck) matches Ok(d) ==> valid_deck(d),
        current_effect(op, deck) is Err <==> op == Primitive::Pop && deck.last().len() == 1,
        deck_effect(op, deck) is Err <==> op == Primitive::Pop && deck.len() == 1,
{
    if let Ok(d) = current_effect(op, deck) {
        assert forall|i: int| 0 <= i < d.len() implies (#[trigger] d[i]).len() >= 1 by {
            if i < d.len() - 1 {
                assert(d[i] == deck[i]);
            }
        }
    }
    if let Ok(d) = deck_effect(op, deck) {
        assert forall|i: int| 0 <= i < d.len() implies (#[trigger] d[i]).len() >= 1 by {
            match op {
                Primitive::Bring => {
                    if i < d.len() - 1 {
                        assert(d[i] == deck[i + 1]);
                    } else {
                        assert(d[i] == deck[0]);
                    }
                },
                Primitive::Send => {
                    if i > 0 {
                        assert(d[i] == deck[i - 1]);
                    } else {
                        assert(d[i] == deck[deck.len() - 1]);
                    }
                },
                _ => {
                    if i < deck.len() {
                        assert(d[i] == deck[i]);
                    }
                },
            }
        }
    }
}

} // verus!
