//! What a parser hands back, and what that stands for in contracts.

use crate::state::{Position, State};
use vstd::prelude::*;

verus! {

/// A successful parse: the value and the state behind what was consumed.
pub struct Succeeded<T> {
    pub new_state: State,
    pub value: T,
}

/// A failed parse. `err_state` is the deepest point reached, which may lie
/// behind `old_state`, the state the failing parser was started on.
pub struct Failed {
    pub old_state: State,
    pub err_state: State,
    pub mesg: String,
}

/// Outcome of running a parser.
pub type Status<T> = Result<Succeeded<T>, Failed>;

/// The mathematical content of a [`Failed`].
pub struct Failure {
    pub mesg: Seq<char>,
    pub old: Position,
    pub err: Position,
}

impl View for Failed {
    type V = Failure;

    open spec fn view(&self) -> Failure {
        Failure { mesg: self.mesg@, old: self.old_state@, err: self.err_state@ }
    }
}

impl Failure {
    /// A failure that a parser started on `input` may report: it is framed by
    /// `input` and points at or behind it.
    pub open spec fn follows(self, input: Position) -> bool {
        self.old == input && self.err.extends(input)
    }

    /// The failure seen from an enclosing parser that was started on `input`:
    /// message and deepest point stay, the frame becomes `input`.
    pub open spec fn reframed(self, input: Position) -> Failure {
        Failure { old: input, ..self }
    }

    /// The failure under another message.
    pub open spec fn relabelled(self, mesg: Seq<char>) -> Failure {
        Failure { mesg, ..self }
    }
}

/// The mathematical content of a [`Status`].
pub enum Verdict<V> {
    Pass { value: V, state: Position },
    Fail(Failure),
}

/// The verdict that an outcome stands for.
pub open spec fn verdict<T: DeepView>(status: Status<T>) -> Verdict<T::V> {
    match status {
        Ok(pass) => Verdict::Pass { value: pass.value.deep_view(), state: pass.new_state@ },
        Err(failure) => Verdict::Fail(failure@),
    }
}

impl<V> Verdict<V> {
    /// The verdict is one that a parser started on `input` may report: a
    /// success ends at or behind `input`, a failure follows `input`.
    pub open spec fn follows(self, input: Position) -> bool {
        match self {
            Verdict::Pass { value, state } => state.extends(input),
            Verdict::Fail(failure) => failure.follows(input),
        }
    }
}

/// Re-bases `failure` on `input`, the state an enclosing parser was started on.
pub fn reframe(failure: Failed, input: &State) -> (r: Failed)
    ensures
        r@ == failure@.reframed(input@),
{
    Failed { old_state: input.duplicate(), err_state: failure.err_state, mesg: failure.mesg }
}

} // verus!
