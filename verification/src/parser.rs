//! The parser abstraction and the adapters that turn closures and trait
//! objects into parsers.

use crate::state::{Position, State};
use crate::status::{verdict, Status, Verdict};
use vstd::prelude::*;

verus! {

/// The verdicts of a parser whose values are of type `T`.
pub type Outcome<T> = Verdict<<T as DeepView>::V>;

/// A pure function from an input state to a success or a failure.
///
/// `yields` is the parser's meaning: the verdicts it may report on an input.
/// `inv` says that the grammar below this parser is well built, which every
/// run relies on.
pub trait Parser<T: DeepView> {
    spec fn inv(&self) -> bool;

    spec fn yields(&self, input: Position, out: Outcome<T>) -> bool;

    /// Whatever the parser reports stays within the input it was started on.
    proof fn yields_follows(&self, input: Position, out: Outcome<T>)
        requires
            self.inv(),
            input.wf(),
            self.yields(input, out),
        ensures
            out.follows(input),
    ;

    fn run(&self, input: &State) -> (out: Status<T>)
        requires
            self.inv(),
            input@.wf(),
        ensures
            self.yields(input@, verdict(out)),
    ;
}

/// Runs `parser` on `input`. The outcome is one that `parser` yields, and it
/// stays within `input`.
pub fn apply<T: DeepView, P: Parser<T>>(parser: &P, input: &State) -> (out: Status<T>)
    requires
        parser.inv(),
        input@.wf(),
    ensures
        parser.yields(input@, verdict(out)),
        verdict(out).follows(input@),
{
    let out = parser.run(input);
    proof {
        parser.yields_follows(input@, verdict(out));
    }
    out
}

impl<T: DeepView, P: Parser<T>> Parser<T> for &P {
    open spec fn inv(&self) -> bool {
        (**self).inv()
    }

    open spec fn yields(&self, input: Position, out: Outcome<T>) -> bool {
        (**self).yields(input, out)
    }

    proof fn yields_follows(&self, input: Position, out: Outcome<T>) {
        (**self).yields_follows(input, out);
    }

    fn run(&self, input: &State) -> (out: Status<T>) {
        (**self).run(input)
    }
}

/// The object-safe face of [`Parser`], for parsers held behind a pointer.
pub trait AnyParser<T: DeepView> {
    spec fn any_inv(&self) -> bool;

    spec fn any_yields(&self, input: Position, out: Outcome<T>) -> bool;

    fn any_run(&self, input: &State) -> (out: Status<T>)
        requires
            self.any_inv(),
            input@.wf(),
        ensures
            self.any_yields(input@, verdict(out)),
            verdict(out).follows(input@),
    ;
}

/// Carries a parser of a known type into an [`AnyParser`].
pub struct Erased<P> {
    pub parser: P,
}

impl<T: DeepView, P: Parser<T>> AnyParser<T> for Erased<P> {
    open spec fn any_inv(&self) -> bool {
        self.parser.inv()
    }

    open spec fn any_yields(&self, input: Position, out: Outcome<T>) -> bool {
        self.parser.yields(input, out)
    }

    fn any_run(&self, input: &State) -> (out: Status<T>) {
        apply(&self.parser, input)
    }
}

/// A parser of values of type `T` whose own type has been forgotten, so that
/// parsers of different build can share one collection or one cell.
#[verifier::reject_recursive_types(T)]
pub struct Boxed<T> {
    pub inner: Box<dyn AnyParser<T>>,
}

impl<T: DeepView> Parser<T> for Boxed<T> {
    open spec fn inv(&self) -> bool {
        self.inner.any_inv()
    }

    open spec fn yields(&self, input: Position, out: Outcome<T>) -> bool {
        self.inner.any_yields(input, out) && (input.wf() ==> out.follows(input))
    }

    proof fn yields_follows(&self, input: Position, out: Outcome<T>) {
    }

    fn run(&self, input: &State) -> (out: Status<T>) {
        self.inner.any_run(input)
    }
}

/// Forgets the type of `parser`. On the inputs that parsers are run on, the
/// result means what `parser` means.
pub fn boxed<T: DeepView, P: Parser<T> + 'static>(parser: P) -> (r: Boxed<T>)
    ensures
        r.inv() == parser.inv(),
        forall|input: Position, out: Outcome<T>|
            parser.inv() && input.wf() ==> #[trigger] r.yields(input, out) == parser.yields(
                input,
                out,
            ),
{
    proof {
        assert forall|input: Position, out: Outcome<T>|
            parser.inv() && input.wf() && #[trigger] parser.yields(input, out) implies out.follows(
            input,
        ) by {
            parser.yields_follows(input, out);
        }
    }
    Boxed { inner: Box::new(Erased { parser }) }
}

/// A parser given as a function.
pub struct FnParser<F> {
    pub func: F,
}

/// `out` is the verdict of some outcome that `func` may return on `input`.
pub open spec fn fn_yields<T: DeepView, F: Fn(State) -> Status<T>>(
    func: F,
    input: Position,
    out: Outcome<T>,
) -> bool {
    exists|state: State, status: Status<T>|
        state@ == input && #[trigger] func.ensures((state,), status) && verdict(status) == out
}

/// `func` can be called on every well-formed state, and whatever it returns
/// stays within the input it was given.
pub open spec fn fn_inv<T: DeepView, F: Fn(State) -> Status<T>>(func: F) -> bool {
    &&& forall|state: State| state@.wf() ==> #[trigger] func.requires((state,))
    &&& forall|state: State, status: Status<T>|
        state@.wf() && #[trigger] func.ensures((state,), status) ==> verdict(status).follows(
            state@,
        )
}

impl<T: DeepView, F: Fn(State) -> Status<T>> Parser<T> for FnParser<F> {
    open spec fn inv(&self) -> bool {
        fn_inv(self.func)
    }

    open spec fn yields(&self, input: Position, out: Outcome<T>) -> bool {
        fn_yields(self.func, input, out)
    }

    proof fn yields_follows(&self, input: Position, out: Outcome<T>) {
    }

    fn run(&self, input: &State) -> (out: Status<T>) {
        (self.func)(input.duplicate())
    }
}

/// Makes a parser of a function from states to outcomes, the form in which
/// lexical rules are supplied.
pub fn from_fn<T: DeepView, F: Fn(State) -> Status<T>>(func: F) -> (r: FnParser<F>)
    ensures
        r.func == func,
        r.inv() <==> fn_inv(func),
        forall|input: Position, out: Outcome<T>| #[trigger]
            r.yields(input, out) <==> fn_yields(func, input, out),
{
    let r = FnParser { func };
    proof {
        assert(r.inv() <==> fn_inv(r.func));
        assert forall|input: Position, out: Outcome<T>| #[trigger]
            r.yields(input, out) <==> fn_yields(r.func, input, out) by {}
    }
    r
}

} // verus!
