//! The instruction tree and its mathematical model.

use vstd::prelude::*;

verus! {

/// The four stack-manipulation primitives. They act on the current stack, or,
/// under [`Instr::StackOp`], on the deck itself.
#[derive(Clone, Copy, Debug, PartialEq, Eq, Structural)]
pub enum Primitive {
    Push,
    Pop,
    Bring,
    Send,
}

/// One instruction of a program.
#[derive(Debug, PartialEq, Eq)]
pub enum Instr {
    Push,
    Pop,
    Bring,
    Send,
    Decr,
    Incr,
    In,
    Out,
    /// A loop: its body runs once, then again for as long as the top card is
    /// non-zero when the body ends.
    Loop(Vec<Instr>),
    /// A primitive applied to the deck instead of the current stack.
    StackOp(Primitive),
}

/// The mathematical model of an [`Instr`]: the same tree over `Seq`.
pub ghost enum Ast {
    Push,
    Pop,
    Bring,
    Send,
    Decr,
    Incr,
    In,
    Out,
    Loop(Seq<Ast>),
    StackOp(Primitive),
}

impl DeepView for Instr {
    type V = Ast;

    open spec fn deep_view(&self) -> Ast
        decreases self,
    {
        match self {
            Instr::Push => Ast::Push,
            Instr::Pop => Ast::Pop,
            Instr::Bring => Ast::Bring,
            Instr::Send => Ast::Send,
            Instr::Decr => Ast::Decr,
            Instr::Incr => Ast::Incr,
            Instr::In => Ast::In,
            Instr::Out => Ast::Out,
            Instr::Loop(body) => Ast::Loop(
                Seq::new(
                    body@.len(),
                    |i: int|
                        if 0 <= i < body@.len() {
                            body@[i].deep_view()
                        } else {
                            Ast::Push
                        },
                ),
            ),
            Instr::StackOp(op) => Ast::StackOp(*op),
        }
    }
}

impl Clone for Instr {
    /// A copy of the tree.
    fn clone(&self) -> (copy: Instr)
        ensures
            copy.deep_view() == self.deep_view(),
    {
        copy_instr(self)
    }
}

/// A copy of an instruction, with a copy of its body where it is a loop.
fn copy_instr(instr: &Instr) -> (copy: Instr)
    ensures
        copy.deep_view() == instr.deep_view(),
    decreases instr,
{
    match instr {
        Instr::Push => Instr::Push,
        Instr::Pop => Instr::Pop,
        Instr::Bring => Instr::Bring,
        Instr::Send => Instr::Send,
        Instr::Decr => Instr::Decr,
        Instr::Incr => Instr::Incr,
        Instr::In => Instr::In,
        Instr::Out => Instr::Out,
        Instr::Loop(body) => {
            let mut copy: Vec<Instr> = Vec::new();
            let mut i: usize = 0;
            while i < body.len()
                invariant
                    0 <= i <= body@.len(),
                    copy@.len() == i,
                    forall|k: int| 0 <= k < i ==> copy@[k].deep_view() == body@[k].deep_view(),
                    forall|k: int| 0 <= k < body@.len() ==> decreases_to!(instr => body@[k]),
                decreases body@.len() - i,
            {
                copy.push(copy_instr(&body[i]));
                i += 1;
            }
            let copied = Instr::Loop(copy);
            proof {
                lemma_loop_view(copied);
                lemma_loop_view(*instr);
                assert(program_view(copy@) =~= program_view(body@));
            }
            copied
        },
        Instr::StackOp(op) => Instr::StackOp(*op),
    }
}

/// The model of a whole instruction sequence.
pub open spec fn program_view(program: Seq<Instr>) -> Seq<Ast> {
    Seq::new(program.len(), |i: int| program[i].deep_view())
}

/// The model of a loop instruction is a loop over the model of its body.
pub proof fn lemma_loop_view(instr: Instr)
    requires
        instr is Loop,
    ensures
        instr.deep_view() == Ast::Loop(program_view(instr->Loop_0@)),
{
    let body = instr->Loop_0;
    assert(instr.deep_view()->Loop_0 =~= program_view(body@));
}

} // verus!
