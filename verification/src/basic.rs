//! The two parsers that look at no input.

use crate::parser::{Outcome, Parser};
use crate::state::{Position, State};
use crate::status::{Failed, Failure, Status, Succeeded, Verdict};
use std::marker::PhantomData;
use vstd::pervasive::cloned;
use vstd::prelude::*;

verus! {

/// Meaning of [`fails`]: a failure with `mesg`, at the input.
pub open spec fn fails_yields<T: DeepView>(
    mesg: Seq<char>,
    input: Position,
    out: Outcome<T>,
) -> bool {
    out == Verdict::<T::V>::Fail(Failure { mesg, old: input, err: input })
}

/// Parser made by [`fails`].
pub struct Fails<T> {
    pub mesg: String,
    pub marker: PhantomData<T>,
}

impl<T: DeepView> Parser<T> for Fails<T> {
    open spec fn inv(&self) -> bool {
        true
    }

    open spec fn yields(&self, input: Position, out: Outcome<T>) -> bool {
        fails_yields::<T>(self.mesg@, input, out)
    }

    proof fn yields_follows(&self, input: Position, out: Outcome<T>) {
    }

    fn run(&self, input: &State) -> (out: Status<T>) {
        Err(
            Failed {
                old_state: input.duplicate(),
                err_state: input.duplicate(),
                mesg: self.mesg.clone(),
            },
        )
    }
}

/// Returns a parser which always fails, with `mesg`, at its input.
pub fn fails<T: DeepView>(mesg: &str) -> (r: Fails<T>)
    ensures
        r.mesg@ == mesg@,
        r.inv(),
        forall|input: Position, out: Outcome<T>| #[trigger]
            r.yields(input, out) <==> fails_yields::<T>(mesg@, input, out),
{
    Fails { mesg: String::from_str(mesg), marker: PhantomData }
}

/// Meaning of [`return_value`]: a success with a copy of `value`, at the
/// input.
pub open spec fn return_yields<T: DeepView + Clone>(
    value: T,
    input: Position,
    out: Outcome<T>,
) -> bool {
    exists|copy: T| #[trigger]
        cloned(value, copy) && out == Verdict::Pass { value: copy.deep_view(), state: input }
}

/// Parser made by [`return_value`].
pub struct Return<T> {
    pub value: T,
}

impl<T: DeepView + Clone> Parser<T> for Return<T> {
    open spec fn inv(&self) -> bool {
        true
    }

    open spec fn yields(&self, input: Position, out: Outcome<T>) -> bool {
        return_yields(self.value, input, out)
    }

    proof fn yields_follows(&self, input: Position, out: Outcome<T>) {
    }

    fn run(&self, input: &State) -> (out: Status<T>) {
        let copy = self.value.clone();
        assert(cloned(self.value, copy));
        Ok(Succeeded { new_state: input.duplicate(), value: copy })
    }
}

/// Returns a parser which always succeeds with a copy of `value` and
/// consumes no input.
pub fn return_value<T: DeepView + Clone>(value: T) -> (r: Return<T>)
    ensures
        r.value == value,
        r.inv(),
        forall|input: Position, out: Outcome<T>| #[trigger]
            r.yields(input, out) <==> return_yields(value, input, out),
{
    Return { value }
}

} // verus!
