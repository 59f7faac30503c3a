//! Forward references: the one indirection that lets a grammar refer to a
//! rule before the rule is built.

use crate::parser::{apply, Boxed, Outcome, Parser};
use crate::state::{Position, State};
use crate::status::{verdict, Status};
use std::cell::OnceCell;
use std::marker::PhantomData;
use std::rc::Rc;
use vstd::prelude::*;

verus! {

/// `std::cell::OnceCell`, a cell that can be written once. What it holds
/// is not visible in contracts.
#[verifier::external_type_specification]
#[verifier::external_body]
#[verifier::reject_recursive_types(T)]
pub struct ExOnceCell<T>(OnceCell<T>);

/// `OnceCell::new` makes an empty cell. Nothing is claimed of it.
pub assume_specification<T>[ OnceCell::<T>::new ]() -> (cell: OnceCell<T>);

/// `OnceCell::get` hands out what the cell holds, if it was written. Which
/// of the two it is depends on what happened to the cell before, so nothing
/// is claimed of the result.
pub assume_specification<T>[ OnceCell::<T>::get ](cell: &OnceCell<T>) -> (held: Option<&T>);

/// `OnceCell::set` writes `value` if the cell is empty and hands `value`
/// back if it is not. Claimed is only that what comes back is `value`.
pub assume_specification<T>[ OnceCell::<T>::set ](cell: &OnceCell<T>, value: T) -> (r: Result<
    (),
    T,
>)
    ensures
        r matches Err(back) ==> back == value,
;

/// A statement about the verdicts of a rule, made before the rule exists.
/// A forward reference may be used on the strength of it, and every parser
/// that is put into the cell has to keep it.
pub trait Promise<T: DeepView> {
    spec fn keeps(input: Position, out: Outcome<T>) -> bool;
}

/// The promise that says nothing.
pub struct Unconstrained;

impl<T: DeepView> Promise<T> for Unconstrained {
    open spec fn keeps(input: Position, out: Outcome<T>) -> bool {
        true
    }
}

/// Every verdict of `parser` is one that the promise `C` allows.
pub open spec fn honours<T: DeepView, P: Parser<T>, C: Promise<T>>(parser: P) -> bool {
    forall|input: Position, out: Outcome<T>|
        input.wf() && #[trigger] parser.yields(input, out) ==> C::keeps(input, out)
}

/// A parser in a cell: well built, and keeping the promise of the cell.
#[verifier::reject_recursive_types(T)]
#[verifier::reject_recursive_types(C)]
struct Held<T: DeepView, C: Promise<T>> {
    parser: Boxed<T>,
    promise: PhantomData<C>,
}

impl<T: DeepView, C: Promise<T>> Held<T, C> {
    #[verifier::type_invariant]
    spec fn kept(&self) -> bool {
        self.parser.inv() && honours::<T, Boxed<T>, C>(self.parser)
    }
}

#[verifier::reject_recursive_types(T)]
#[verifier::reject_recursive_types(C)]
struct Shared<T: DeepView, C: Promise<T>> {
    initial: Held<T, C>,
    later: OnceCell<Held<T, C>>,
}

/// The cell behind a forward reference. It holds a parser from the start
/// and takes one other, once; forward references made from it run
/// whichever it holds at the time.
#[verifier::reject_recursive_types(T)]
#[verifier::reject_recursive_types(C)]
pub struct Slot<T: DeepView, C: Promise<T>> {
    shared: Rc<Shared<T, C>>,
}

impl<T: DeepView, C: Promise<T>> Slot<T, C> {
    /// A cell that holds `initial` until it is assigned to.
    pub fn new(initial: Boxed<T>) -> (r: Slot<T, C>)
        requires
            initial.inv(),
            honours::<T, Boxed<T>, C>(initial),
        ensures
            r.initial() == initial,
    {
        let held = Held { parser: initial, promise: PhantomData };
        Slot { shared: Rc::new(Shared { initial: held, later: OnceCell::new() }) }
    }

    /// Puts `parser` into the cell, to close the cycle of a recursive rule.
    /// Assign before anything is parsed.
    ///
    /// Only the first assignment to a cell is taken. Whether this one is
    /// the first depends on what happened to the cell before, which
    /// contracts do not see. An assignment that is not taken changes
    /// nothing and hands `parser` back.
    pub fn assign(&self, parser: Boxed<T>) -> (r: Result<(), Boxed<T>>)
        requires
            parser.inv(),
            honours::<T, Boxed<T>, C>(parser),
        ensures
            r matches Err(back) ==> back == parser,
    {
        handed_back(self.shared.later.set(Held { parser, promise: PhantomData }))
    }

    /// Another handle on the same cell.
    pub fn duplicate(&self) -> (r: Slot<T, C>)
        ensures
            r == *self,
    {
        Slot { shared: Rc::clone(&self.shared) }
    }

    /// The parser that the cell was made with, which it holds until it is
    /// assigned to.
    pub closed spec fn initial(&self) -> Boxed<T> {
        self.shared.initial.parser
    }
}

/// What an assignment reports once the cell has answered: nothing where
/// the parser was taken, else the parser that came back.
fn handed_back<T: DeepView, C: Promise<T>>(answer: Result<(), Held<T, C>>) -> (r: Result<
    (),
    Boxed<T>,
>)
    ensures
        answer is Ok <==> r is Ok,
        answer matches Err(held) ==> r == Err::<(), Boxed<T>>(held.parser),
{
    match answer {
        Ok(_) => Ok(()),
        Err(held) => Err(held.parser),
    }
}

/// Meaning of [`forward_ref`]. What the cell holds when the parser runs is
/// not visible in contracts: the verdict is known to stay within the input
/// and to keep the promise of the cell.
pub open spec fn forward_yields<T: DeepView, C: Promise<T>>(
    input: Position,
    out: Outcome<T>,
) -> bool {
    out.follows(input) && C::keeps(input, out)
}

/// Parser made by [`forward_ref`].
#[verifier::reject_recursive_types(T)]
#[verifier::reject_recursive_types(C)]
pub struct ForwardRef<T: DeepView, C: Promise<T>> {
    pub cell: Slot<T, C>,
}

impl<T: DeepView, C: Promise<T>> Parser<T> for ForwardRef<T, C> {
    open spec fn inv(&self) -> bool {
        true
    }

    open spec fn yields(&self, input: Position, out: Outcome<T>) -> bool {
        forward_yields::<T, C>(input, out)
    }

    proof fn yields_follows(&self, input: Position, out: Outcome<T>) {
    }

    fn run(&self, input: &State) -> (out: Status<T>) {
        let initial = &self.cell.shared.initial;
        proof {
            use_type_invariant(initial);
        }
        match self.cell.shared.later.get() {
            Some(later) => {
                proof {
                    use_type_invariant(later);
                }
                run_held::<T, C>(Some(&later.parser), &initial.parser, input)
            },
            None => run_held::<T, C>(None, &initial.parser, input),
        }
    }
}

/// The verdicts of what a cell hands out when it is asked: those of the
/// parser that was assigned to it, `later`, where there is one, else those
/// of the parser it was made with.
pub open spec fn held_yields<T: DeepView>(
    later: Option<&Boxed<T>>,
    initial: &Boxed<T>,
    input: Position,
    out: Outcome<T>,
) -> bool {
    match later {
        Some(parser) => parser.yields(input, out),
        None => initial.yields(input, out),
    }
}

/// Runs what a cell handed out: the parser assigned to it, `later`, where
/// there is one, else `initial`, the parser it was made with. A forward
/// reference asks its cell each time it is run and goes on here.
pub fn run_held<T: DeepView, C: Promise<T>>(
    later: Option<&Boxed<T>>,
    initial: &Boxed<T>,
    input: &State,
) -> (out: Status<T>)
    requires
        initial.inv(),
        honours::<T, Boxed<T>, C>(*initial),
        later matches Some(parser) ==> parser.inv() && honours::<T, Boxed<T>, C>(*parser),
        input@.wf(),
    ensures
        held_yields(later, initial, input@, verdict(out)),
        forward_yields::<T, C>(input@, verdict(out)),
{
    match later {
        Some(parser) => apply(parser, input),
        None => apply(initial, input),
    }
}

/// Returns a parser which, when run, runs the parser that `cell` holds at
/// that time. With it a rule can be used before it is built: make the cell,
/// build the rule over this parser, and assign the rule to the cell before
/// parsing. A rule that comes back to itself without consuming input does
/// not end.
pub fn forward_ref<T: DeepView, C: Promise<T>>(cell: &Slot<T, C>) -> (r: ForwardRef<T, C>)
    ensures
        r.cell == *cell,
        r.inv(),
        forall|input: Position, out: Outcome<T>| #[trigger]
            r.yields(input, out) <==> forward_yields::<T, C>(input, out),
{
    ForwardRef { cell: cell.duplicate() }
}

} // verus!
