//! Alternation: trying several parsers on the same input, and what is
//! reported when all of them fail.

use crate::message::{connect, joined, or_sep};
use crate::parser::{apply, Boxed, Outcome, Parser};
use crate::state::{Position, State};
use crate::status::{verdict, Failed, Failure, Status, Succeeded, Verdict};
use vstd::pervasive::cloned;
use vstd::prelude::*;

verus! {

/// The deepest point that any of `failures` reached, and at least `start`.
pub open spec fn furthest(failures: Seq<Failure>, start: nat) -> nat
    decreases failures.len(),
{
    if failures.len() == 0 {
        start
    } else {
        let before = furthest(failures.drop_last(), start);
        let last = failures.last().err.index;
        if last > before {
            last
        } else {
            before
        }
    }
}

/// The messages of those of `failures` that stopped at index `at`, in order.
pub open spec fn tied(failures: Seq<Failure>, at: nat) -> Seq<Seq<char>>
    decreases failures.len(),
{
    if failures.len() == 0 {
        Seq::empty()
    } else {
        let before = tied(failures.drop_last(), at);
        if failures.last().err.index == at {
            before.push(failures.last().mesg)
        } else {
            before
        }
    }
}

/// No failure lies behind `furthest`, which is `start` or the point of one of
/// them.
pub proof fn lemma_furthest_bounds(failures: Seq<Failure>, start: nat)
    ensures
        start <= furthest(failures, start),
        forall|k: int|
            0 <= k < failures.len() ==> (#[trigger] failures[k]).err.index <= furthest(
                failures,
                start,
            ),
        furthest(failures, start) == start || exists|k: int|
            0 <= k < failures.len() && (#[trigger] failures[k]).err.index == furthest(
                failures,
                start,
            ),
    decreases failures.len(),
{
    if failures.len() > 0 {
        let rest = failures.drop_last();
        lemma_furthest_bounds(rest, start);
        assert forall|k: int| 0 <= k < failures.len() implies (#[trigger] failures[k]).err.index
            <= furthest(failures, start) by {
            if k < rest.len() {
                assert(rest[k] == failures[k]);
            }
        }
        if furthest(failures, start) != start {
            if furthest(failures, start) == furthest(rest, start) {
                let k = choose|k: int|
                    0 <= k < rest.len() && (#[trigger] rest[k]).err.index == furthest(rest, start);
                assert(failures[k] == rest[k]);
            } else {
                assert(failures[failures.len() - 1] == failures.last());
            }
        }
    }
}

/// Where no failure stopped at `at`, no message is tied there.
pub proof fn lemma_tied_none(failures: Seq<Failure>, at: nat)
    requires
        forall|k: int| 0 <= k < failures.len() ==> (#[trigger] failures[k]).err.index != at,
    ensures
        tied(failures, at) == Seq::<Seq<char>>::empty(),
    decreases failures.len(),
{
    if failures.len() > 0 {
        let rest = failures.drop_last();
        assert forall|k: int| 0 <= k < rest.len() implies (#[trigger] rest[k]).err.index != at by {
            assert(rest[k] == failures[k]);
        }
        lemma_tied_none(rest, at);
        assert(failures[failures.len() - 1] == failures.last());
    }
}

/// The deepest point that `failures`, which were met on `input`, reached:
/// the point, index and line, at which the first of those failed that got
/// furthest. It is `input` where there is no failure at or behind it.
pub open spec fn deepest(failures: Seq<Failure>, input: Position) -> Position
    decreases failures.len(),
{
    if failures.len() == 0 {
        input
    } else {
        let before = deepest(failures.drop_last(), input);
        let last = failures.last().err;
        if last.index > before.index || (failures.len() == 1 && last.index == before.index) {
            last
        } else {
            before
        }
    }
}

/// The deepest point lies at the furthest index. It is the point of one of
/// the failures, or the input where none of them lies at or behind it, and
/// it is within the input where the failures are.
pub proof fn lemma_deepest_is_furthest(failures: Seq<Failure>, input: Position)
    ensures
        deepest(failures, input).index == furthest(failures, input.index),
        deepest(failures, input) == input || exists|k: int|
            0 <= k < failures.len() && (#[trigger] failures[k]).err == deepest(failures, input),
        input.wf() && (forall|k: int|
            0 <= k < failures.len() ==> (#[trigger] failures[k]).err.extends(input))
            ==> deepest(failures, input).extends(input),
    decreases failures.len(),
{
    if failures.len() > 0 {
        let rest = failures.drop_last();
        lemma_deepest_is_furthest(rest, input);
        assert(failures[failures.len() - 1] == failures.last());
        if deepest(failures, input) != input {
            if deepest(failures, input) == deepest(rest, input) {
                let k = choose|k: int|
                    0 <= k < rest.len() && (#[trigger] rest[k]).err == deepest(rest, input);
                assert(failures[k] == rest[k]);
            }
        }
        if input.wf() && (forall|k: int|
            0 <= k < failures.len() ==> (#[trigger] failures[k]).err.extends(input)) {
            assert forall|k: int| 0 <= k < rest.len() implies (#[trigger] rest[k]).err.extends(
                input,
            ) by {
                assert(rest[k] == failures[k]);
            }
        }
    }
}

/// The failure that stands for all of `failures`, which were met on `input`:
/// it points at the deepest point that any of them reached and names every
/// message tied at that index.
pub open spec fn combined(failures: Seq<Failure>, input: Position) -> Failure {
    let at = furthest(failures, input.index);
    Failure {
        mesg: joined(tied(failures, at), or_sep()),
        old: input,
        err: deepest(failures, input),
    }
}

/// Meaning of [`alternative`]: the parsers are tried in order on the same
/// input. The first success is reported; where every parser fails, the
/// combined failure is.
pub open spec fn alternative_yields<T: DeepView>(
    parsers: Seq<Boxed<T>>,
    input: Position,
    out: Outcome<T>,
) -> bool {
    exists|failures: Seq<Failure>|
        {
            &&& failures.len() <= parsers.len()
            &&& forall|k: int|
                0 <= k < failures.len() ==> (#[trigger] parsers[k]).yields(
                    input,
                    Verdict::Fail(failures[k]),
                )
            &&& if failures.len() == parsers.len() {
                out == Verdict::<T::V>::Fail(combined(failures, input))
            } else {
                out is Pass && parsers[failures.len() as int].yields(input, out)
            }
        }
}

/// Parser made by [`alternative`].
#[verifier::reject_recursive_types(T)]
pub struct Alternative<T> {
    pub parsers: Vec<Boxed<T>>,
}

impl<T: DeepView> Parser<T> for Alternative<T> {
    open spec fn inv(&self) -> bool {
        &&& self.parsers@.len() > 0
        &&& forall|k: int| 0 <= k < self.parsers@.len() ==> (#[trigger] self.parsers@[k]).inv()
    }

    open spec fn yields(&self, input: Position, out: Outcome<T>) -> bool {
        alternative_yields(self.parsers@, input, out)
    }

    proof fn yields_follows(&self, input: Position, out: Outcome<T>) {
        let failures = choose|failures: Seq<Failure>|
            {
                &&& failures.len() <= self.parsers@.len()
                &&& forall|k: int|
                    0 <= k < failures.len() ==> (#[trigger] self.parsers@[k]).yields(
                        input,
                        Verdict::Fail(failures[k]),
                    )
                &&& if failures.len() == self.parsers@.len() {
                    out == Verdict::<T::V>::Fail(combined(failures, input))
                } else {
                    out is Pass && self.parsers@[failures.len() as int].yields(input, out)
                }
            };
        if failures.len() == self.parsers@.len() {
            assert forall|k: int| 0 <= k < failures.len() implies (#[trigger] failures[k]).follows(
                input,
            ) by {
                self.parsers@[k].yields_follows(input, Verdict::Fail(failures[k]));
            }
            lemma_deepest_is_furthest(failures, input);
        } else {
            self.parsers@[failures.len() as int].yields_follows(input, out);
        }
    }

    fn run(&self, input: &State) -> (out: Status<T>) {
        let mut errors: Vec<String> = Vec::new();
        let mut reached = input.duplicate();
        let ghost mut failures: Seq<Failure> = Seq::empty();
        let mut i: usize = 0;
        while i < self.parsers.len()
            invariant
                self.inv(),
                input@.wf(),
                i <= self.parsers.len(),
                failures.len() == i,
                forall|k: int|
                    0 <= k < failures.len() ==> (#[trigger] self.parsers@[k]).yields(
                        input@,
                        Verdict::Fail(failures[k]),
                    ),
                forall|k: int| 0 <= k < failures.len() ==> (#[trigger] failures[k]).follows(input@),
                reached@ == deepest(failures, input@),
                reached.index == furthest(failures, input@.index),
                errors.deep_view() == tied(failures, reached.index as nat),
            decreases self.parsers.len() - i,
        {
            let ghost before = failures;
            let ghost old_errors = errors.deep_view();
            let status = self.parsers[i].run(input);
            proof {
                self.parsers@[i as int].yields_follows(input@, verdict(status));
            }
            match status {
                Ok(pass) => {
                    return Ok(pass);
                },
                Err(failure) => {
                    proof {
                        failures = before.push(failure@);
                        assert(failures.drop_last() =~= before);
                        assert(failures.last() == failure@);
                    }
                    if failure.err_state.index > reached.index {
                        proof {
                            lemma_furthest_bounds(before, input@.index);
                            lemma_tied_none(before, failure.err_state.index as nat);
                        }
                        reached = failure.err_state;
                        errors = Vec::new();
                        errors.push(failure.mesg);
                        proof {
                            assert(errors.deep_view() =~= Seq::<Seq<char>>::empty().push(
                                failure.mesg@,
                            ));
                        }
                    } else if failure.err_state.index == reached.index {
                        if i == 0 {
                            reached = failure.err_state;
                        }
                        errors.push(failure.mesg);
                        proof {
                            assert(errors.deep_view() =~= old_errors.push(failure.mesg@));
                        }
                    }
                },
            }
            i += 1;
        }
        let mesg = connect(&errors, " or ");
        Err(Failed { old_state: input.duplicate(), err_state: reached, mesg })
    }
}

/// `alternative := e0 | e1 | …`
///
/// Tries `parsers` in order on the same input and reports the first success.
/// Where all fail, the failure points at the deepest point that any of them
/// reached, with the line of that point, and joins with `" or "` the
/// messages of those that stopped at its index.
pub fn alternative<T: DeepView>(parsers: Vec<Boxed<T>>) -> (r: Alternative<T>)
    requires
        parsers@.len() > 0,
    ensures
        r.parsers == parsers,
        r.inv() <==> forall|k: int| 0 <= k < parsers@.len() ==> (#[trigger] parsers@[k]).inv(),
        forall|input: Position, out: Outcome<T>| #[trigger]
            r.yields(input, out) <==> alternative_yields(parsers@, input, out),
{
    Alternative { parsers }
}

/// What [`or`] reports when both parsers fail: the failure that reached
/// deeper, or, where both stopped at the same point, the second under both
/// messages.
pub open spec fn merged(first: Failure, second: Failure) -> Failure {
    if first.err.index > second.err.index {
        first
    } else if first.err.index < second.err.index {
        second
    } else {
        second.relabelled(first.mesg + or_sep() + second.mesg)
    }
}

/// Picks or merges the failures of two alternatives.
pub fn merge_failures(first: Failed, second: Failed) -> (r: Failed)
    ensures
        r@ == merged(first@, second@),
{
    if first.err_state.index > second.err_state.index {
        first
    } else if first.err_state.index < second.err_state.index {
        second
    } else {
        let mesg = first.mesg.concat(" or ").concat(second.mesg.as_str());
        Failed { old_state: second.old_state, err_state: second.err_state, mesg }
    }
}

/// Meaning of [`or`]: the first parser's success, else the second's on the
/// same input, else the merged failure.
pub open spec fn or_yields<T: DeepView, A: Parser<T>, B: Parser<T>>(
    first: A,
    second: B,
    input: Position,
    out: Outcome<T>,
) -> bool {
    exists|r1: Outcome<T>| #[trigger]
        first.yields(input, r1) && match r1 {
            Verdict::Pass { .. } => out == r1,
            Verdict::Fail(f1) => exists|r2: Outcome<T>| #[trigger]
                second.yields(input, r2) && match r2 {
                    Verdict::Pass { .. } => out == r2,
                    Verdict::Fail(f2) => out == Verdict::<T::V>::Fail(
                        merged(f1, f2),
                    ),
                },
        }
}

/// Parser made by [`or`].
pub struct Or<A, B> {
    pub first: A,
    pub second: B,
}

impl<T: DeepView, A: Parser<T>, B: Parser<T>> Parser<T> for Or<A, B> {
    open spec fn inv(&self) -> bool {
        self.first.inv() && self.second.inv()
    }

    open spec fn yields(&self, input: Position, out: Outcome<T>) -> bool {
        or_yields(self.first, self.second, input, out)
    }

    proof fn yields_follows(&self, input: Position, out: Outcome<T>) {
        let r1 = choose|r1: Outcome<T>| #[trigger]
            self.first.yields(input, r1) && match r1 {
                Verdict::Pass { .. } => out == r1,
                Verdict::Fail(f1) => exists|r2: Outcome<T>| #[trigger]
                    self.second.yields(input, r2) && match r2 {
                        Verdict::Pass { .. } => out == r2,
                        Verdict::Fail(f2) => out == Verdict::<T::V>::Fail(
                            merged(f1, f2),
                        ),
                    },
            };
        self.first.yields_follows(input, r1);
        if let Verdict::Fail(f1) = r1 {
            let r2 = choose|r2: Outcome<T>| #[trigger]
                self.second.yields(input, r2) && match r2 {
                    Verdict::Pass { .. } => out == r2,
                    Verdict::Fail(f2) => out == Verdict::<T::V>::Fail(
                        merged(f1, f2),
                    ),
                };
            self.second.yields_follows(input, r2);
        }
    }

    fn run(&self, input: &State) -> (out: Status<T>) {
        match self.first.run(input) {
            Ok(pass) => Ok(pass),
            Err(failure1) => match self.second.run(input) {
                Ok(pass) => Ok(pass),
                Err(failure2) => Err(merge_failures(failure1, failure2)),
            },
        }
    }
}

/// Returns a parser which first tries `parser1` and, if that fails,
/// `parser2` on the same input. Where both fail, the failure that reached
/// deeper is reported; on a tie, the two messages joined with `" or "`.
pub fn or<T: DeepView, A: Parser<T>, B: Parser<T>>(parser1: A, parser2: B) -> (r: Or<A, B>)
    ensures
        r.first == parser1,
        r.second == parser2,
        r.inv() <==> parser1.inv() && parser2.inv(),
        forall|input: Position, out: Outcome<T>| #[trigger]
            r.yields(input, out) <==> or_yields(parser1, parser2, input, out),
{
    Or { first: parser1, second: parser2 }
}

/// What [`optional`] makes of the verdict `r` of its parser: a success
/// stands; a failure, however deep it reached, becomes a success with a
/// copy of `missing` and the input untouched.
pub open spec fn or_missing<T: DeepView + Clone>(
    missing: T,
    input: Position,
    r: Outcome<T>,
    out: Outcome<T>,
) -> bool {
    match r {
        Verdict::Pass { .. } => out == r,
        Verdict::Fail(_) => exists|copy: T| #[trigger]
            cloned(missing, copy) && out == Verdict::Pass {
                value: copy.deep_view(),
                state: input,
            },
    }
}

/// Meaning of [`optional`].
pub open spec fn optional_yields<T: DeepView + Clone, P: Parser<T>>(
    parser: P,
    missing: T,
    input: Position,
    out: Outcome<T>,
) -> bool {
    exists|r: Outcome<T>| #[trigger]
        parser.yields(input, r) && or_missing(missing, input, r, out)
}

/// Parser made by [`optional`].
pub struct Optional<P, T> {
    pub parser: P,
    pub missing: T,
}

impl<T: DeepView + Clone, P: Parser<T>> Parser<T> for Optional<P, T> {
    open spec fn inv(&self) -> bool {
        self.parser.inv()
    }

    open spec fn yields(&self, input: Position, out: Outcome<T>) -> bool {
        optional_yields(self.parser, self.missing, input, out)
    }

    proof fn yields_follows(&self, input: Position, out: Outcome<T>) {
        let r = choose|r: Outcome<T>| #[trigger]
            self.parser.yields(input, r) && or_missing(self.missing, input, r, out);
        self.parser.yields_follows(input, r);
    }

    fn run(&self, input: &State) -> (out: Status<T>) {
        match apply(&self.parser, input) {
            Ok(pass) => Ok(pass),
            Err(_) => {
                let copy = self.missing.clone();
                assert(cloned(self.missing, copy));
                Ok(Succeeded { new_state: input.duplicate(), value: copy })
            },
        }
    }
}

/// `optional := e?`
///
/// Runs `parser`; where it fails, succeeds with a copy of `missing` and
/// consumes nothing. The result never fails.
pub fn optional<T: DeepView + Clone, P: Parser<T>>(parser: P, missing: T) -> (r: Optional<P, T>)
    ensures
        r.parser == parser,
        r.missing == missing,
        r.inv() <==> parser.inv(),
        forall|input: Position, out: Outcome<T>| #[trigger]
            r.yields(input, out) <==> optional_yields(parser, missing, input, out),
{
    Optional { parser, missing }
}

/// What [`tag`] makes of the verdict `r` of its parser: a failure that made
/// no progress beyond `input` gets the message `label`; every other verdict
/// stands.
pub open spec fn labelled<V>(r: Verdict<V>, label: Seq<char>, input: Position) -> Verdict<V> {
    match r {
        Verdict::Pass { .. } => r,
        Verdict::Fail(failure) => if failure.err.index == input.index {
            Verdict::Fail(failure.relabelled(label))
        } else {
            r
        },
    }
}

/// Meaning of [`tag`].
pub open spec fn tag_yields<T: DeepView, P: Parser<T>>(
    parser: P,
    label: Seq<char>,
    input: Position,
    out: Outcome<T>,
) -> bool {
    exists|r: Outcome<T>| #[trigger]
        parser.yields(input, r) && out == labelled(r, label, input)
}

/// Parser made by [`tag`].
pub struct Tag<P> {
    pub parser: P,
    pub label: String,
}

impl<T: DeepView, P: Parser<T>> Parser<T> for Tag<P> {
    open spec fn inv(&self) -> bool {
        self.parser.inv()
    }

    open spec fn yields(&self, input: Position, out: Outcome<T>) -> bool {
        tag_yields(self.parser, self.label@, input, out)
    }

    proof fn yields_follows(&self, input: Position, out: Outcome<T>) {
        let r = choose|r: Outcome<T>| #[trigger]
            self.parser.yields(input, r) && out == labelled(r, self.label@, input);
        self.parser.yields_follows(input, r);
    }

    fn run(&self, input: &State) -> (out: Status<T>) {
        match apply(&self.parser, input) {
            Ok(pass) => Ok(pass),
            Err(failure) => {
                if failure.err_state.index == input.index {
                    Err(
                        Failed {
                            old_state: failure.old_state,
                            err_state: failure.err_state,
                            mesg: self.label.clone(),
                        },
                    )
                } else {
                    Err(failure)
                }
            },
        }
    }
}

/// If `parser` fails without having consumed anything, `label` is used as
/// the message; a failure after progress keeps its own, more specific one.
pub fn tag<T: DeepView, P: Parser<T>>(parser: P, label: &str) -> (r: Tag<P>)
    ensures
        r.parser == parser,
        r.label@ == label@,
        r.inv() <==> parser.inv(),
        forall|input: Position, out: Outcome<T>| #[trigger]
            r.yields(input, out) <==> tag_yields(parser, label@, input, out),
{
    Tag { parser, label: String::from_str(label) }
}

} // verus!
