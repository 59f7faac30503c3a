//! The combinators as methods, for grammars written as call chains. Each
//! method hands its receiver to the function of the same name.

use crate::chain::{
    chain_inv, chain_suffix, chainl1, chainl1_yields, chainr1, chainr1_yields, operated,
    ChainLeft, ChainRight,
};
use crate::choice::{optional, optional_yields, or, or_yields, tag, tag_yields, Optional, Or, Tag};
use crate::entry::{parse, parse_yields};
use crate::parser::{Outcome, Parser};
use crate::repeat::{
    advances, list, list_inv, list_yields, progresses, repeat0, repeat0_yields, repeat1,
    repeat1_yields, repeats, List, Repeat0, Repeat1,
};
use crate::sequence::{_then, skip_then_yields, then, then_inv, then_yields, Pair, SkipThen, Then};
use crate::state::Position;
use crate::status::{verdict, Status};
use vstd::prelude::*;

verus! {

/// Every parser has the combinators as methods.
pub trait Fluent<T: DeepView>: Parser<T> + Sized {
    /// See [`then`](crate::sequence::then).
    fn then<U: DeepView, Q: Parser<U>, F: Fn(T) -> Q>(self, eval: F) -> (r: Then<T, Self, F>)
        ensures
            r.parser == self,
            r.eval == eval,
            r.inv() <==> self.inv() && then_inv(eval),
            forall|input: Position, out: Outcome<U>| #[trigger]
                r.yields(input, out) <==> then_yields(self, eval, input, out),
    {
        then(self, eval)
    }

    /// See [`_then`](crate::sequence::_then).
    fn _then<U: DeepView, B: Parser<U>>(self, parser2: B) -> (r: SkipThen<T, Self, B>)
        ensures
            r.first == self,
            r.second == parser2,
            r.inv() <==> self.inv() && parser2.inv(),
            forall|input: Position, out: Outcome<U>| #[trigger]
                r.yields(input, out) <==> skip_then_yields(self, parser2, input, out),
    {
        _then(self, parser2)
    }

    /// See [`or`](crate::choice::or).
    fn or<B: Parser<T>>(self, parser2: B) -> (r: Or<Self, B>)
        ensures
            r.first == self,
            r.second == parser2,
            r.inv() <==> self.inv() && parser2.inv(),
            forall|input: Position, out: Outcome<T>| #[trigger]
                r.yields(input, out) <==> or_yields(self, parser2, input, out),
    {
        or(self, parser2)
    }

    /// See [`optional`](crate::choice::optional).
    fn optional(self, missing: T) -> (r: Optional<Self, T>) where T: Clone
        ensures
            r.parser == self,
            r.missing == missing,
            r.inv() <==> self.inv(),
            forall|input: Position, out: Outcome<T>| #[trigger]
                r.yields(input, out) <==> optional_yields(self, missing, input, out),
    {
        optional(self, missing)
    }

    /// See [`repeat0`](crate::repeat::repeat0).
    fn repeat0(self) -> (r: Repeat0<Self>)
        ensures
            r.item == self,
            r.inv() <==> self.inv() && progresses(self),
            forall|input: Position, out: Outcome<Vec<T>>| #[trigger]
                r.yields(input, out) <==> repeat0_yields(self, input, out),
    {
        repeat0(self)
    }

    /// See [`repeat1`](crate::repeat::repeat1).
    fn repeat1(self, err_mesg: &str) -> (r: Repeat1<Self>)
        ensures
            r.item == self,
            r.mesg@ == err_mesg@,
            r.inv() <==> self.inv() && progresses(self),
            forall|input: Position, out: Outcome<Vec<T>>| #[trigger]
                r.yields(input, out) <==> repeat1_yields(self, err_mesg@, input, out),
    {
        repeat1(self, err_mesg)
    }

    /// See [`list`](crate::repeat::list).
    fn list<U: DeepView, S: Parser<U>>(self, sep: S) -> (r: List<U, Self, S>)
        ensures
            r.item == self,
            r.sep == sep,
            r.inv() <==> list_inv(self, sep),
            forall|input: Position, out: Outcome<Vec<T>>| #[trigger]
                r.yields(input, out) <==> list_yields(self, sep, input, out),
    {
        list(self, sep)
    }

    /// See [`chain_suffix`](crate::chain::chain_suffix).
    fn chain_suffix<U: DeepView, O: Parser<U>>(self, op: O) -> (r: Repeat0<Pair<O, Self>>)
        ensures
            r.item == (Pair { first: op, second: self }),
            r.inv() <==> self.inv() && op.inv() && advances(operated(self, op)),
            forall|input: Position, out: Outcome<Vec<(U, T)>>| #[trigger]
                r.yields(input, out) <==> repeats(operated(self, op), input, out),
    {
        chain_suffix(self, op)
    }

    /// See [`chainl1`](crate::chain::chainl1).
    fn chainl1<U: DeepView, O: Parser<U>, F: Fn(T, U, T) -> T>(self, op: O, eval: F) -> (r:
        ChainLeft<U, Self, O, F>)
        ensures
            r.item == self,
            r.op == op,
            r.eval == eval,
            r.inv() <==> chain_inv(self, op, eval),
            forall|input: Position, out: Outcome<T>| #[trigger]
                r.yields(input, out) <==> chainl1_yields(self, op, eval, input, out),
    {
        chainl1(self, op, eval)
    }

    /// See [`chainr1`](crate::chain::chainr1).
    fn chainr1<U: DeepView, O: Parser<U>, F: Fn(T, U, T) -> T>(self, op: O, eval: F) -> (r:
        ChainRight<U, Self, O, F>)
        ensures
            r.item == self,
            r.op == op,
            r.eval == eval,
            r.inv() <==> chain_inv(self, op, eval),
            forall|input: Position, out: Outcome<T>| #[trigger]
                r.yields(input, out) <==> chainr1_yields(self, op, eval, input, out),
    {
        chainr1(self, op, eval)
    }

    /// See [`tag`](crate::choice::tag).
    fn tag(self, label: &str) -> (r: Tag<Self>)
        ensures
            r.parser == self,
            r.label@ == label@,
            r.inv() <==> self.inv(),
            forall|input: Position, out: Outcome<T>| #[trigger]
                r.yields(input, out) <==> tag_yields(self, label@, input, out),
    {
        tag(self, label)
    }

    /// See [`parse`](crate::entry::parse).
    fn parse(&self, file: &str, text: &str) -> (out: Status<T>)
        requires
            self.inv(),
        ensures
            parse_yields(*self, file@, text@, verdict(out)),
    {
        parse(self, file, text)
    }
}

impl<T: DeepView, P: Parser<T>> Fluent<T> for P {
}

} // verus!
