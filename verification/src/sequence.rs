//! Sequencing: running one parser behind another.

use crate::parser::{apply, Outcome, Parser};
use crate::state::{Position, State};
use crate::status::{reframe, Status, Succeeded, Verdict};
use std::marker::PhantomData;
use vstd::prelude::*;

verus! {

/// What a sequence reports once its second part, started behind a first
/// part that was started on `input`, has reported `r2`: a failure is
/// re-based on `input`, a success stands.
pub open spec fn behind<V>(r2: Verdict<V>, input: Position) -> Verdict<V> {
    match r2 {
        Verdict::Fail(f2) => Verdict::Fail(f2.reframed(input)),
        Verdict::Pass { .. } => r2,
    }
}

/// The verdict `r2` with the value `v1` put in front of its own.
pub open spec fn paired<V1, V2>(v1: V1, r2: Verdict<V2>) -> Verdict<(V1, V2)> {
    match r2 {
        Verdict::Fail(f2) => Verdict::Fail(f2),
        Verdict::Pass { value: v2, state: s2 } => Verdict::Pass { value: (v1, v2), state: s2 },
    }
}

/// How [`pair`] goes on after its first parser reported `r1`.
pub open spec fn pair_rest<V1, TB: DeepView, B: Parser<TB>>(
    second: B,
    input: Position,
    r1: Verdict<V1>,
    out: Verdict<(V1, TB::V)>,
) -> bool {
    match r1 {
        Verdict::Fail(f1) => out == Verdict::<(V1, TB::V)>::Fail(f1),
        Verdict::Pass { value: v1, state: s1 } => exists|r2: Outcome<TB>| #[trigger]
            second.yields(s1, r2) && out == paired(v1, behind(r2, input)),
    }
}

/// Meaning of [`pair`]: `second` runs on the state that `first` left, and
/// both values are kept. A failure of `second` is re-based on `input`.
pub open spec fn pair_yields<TA: DeepView, TB: DeepView, A: Parser<TA>, B: Parser<TB>>(
    first: A,
    second: B,
    input: Position,
    out: Outcome<(TA, TB)>,
) -> bool {
    exists|r1: Outcome<TA>| #[trigger]
        first.yields(input, r1) && pair_rest(second, input, r1, out)
}

/// Parser made by [`pair`].
pub struct Pair<A, B> {
    pub first: A,
    pub second: B,
}

impl<TA: DeepView, TB: DeepView, A: Parser<TA>, B: Parser<TB>> Parser<(TA, TB)> for Pair<A, B> {
    open spec fn inv(&self) -> bool {
        self.first.inv() && self.second.inv()
    }

    open spec fn yields(&self, input: Position, out: Outcome<(TA, TB)>) -> bool {
        pair_yields(self.first, self.second, input, out)
    }

    proof fn yields_follows(&self, input: Position, out: Outcome<(TA, TB)>) {
        let r1 = choose|r1: Outcome<TA>| #[trigger]
            self.first.yields(input, r1) && pair_rest(self.second, input, r1, out);
        self.first.yields_follows(input, r1);
        if let Verdict::Pass { value: v1, state: s1 } = r1 {
            let r2 = choose|r2: Outcome<TB>| #[trigger]
                self.second.yields(s1, r2) && out == paired(v1, behind(r2, input));
            self.second.yields_follows(s1, r2);
        }
    }

    fn run(&self, input: &State) -> (out: Status<(TA, TB)>) {
        match apply(&self.first, input) {
            Err(failure) => Err(failure),
            Ok(pass1) => {
                match apply(&self.second, &pass1.new_state) {
                    Err(failure) => Err(reframe(failure, input)),
                    Ok(pass2) => Ok(
                        Succeeded { new_state: pass2.new_state, value: (pass1.value, pass2.value) },
                    ),
                }
            },
        }
    }
}

/// `pair := e0 e1`
///
/// Runs `parser1`, then `parser2` on what is left, and hands back both values.
pub fn pair<TA: DeepView, TB: DeepView, A: Parser<TA>, B: Parser<TB>>(
    parser1: A,
    parser2: B,
) -> (r: Pair<A, B>)
    ensures
        r.first == parser1,
        r.second == parser2,
        r.inv() <==> parser1.inv() && parser2.inv(),
        forall|input: Position, out: Outcome<(TA, TB)>| #[trigger]
            r.yields(input, out) <==> pair_yields(parser1, parser2, input, out),
{
    Pair { first: parser1, second: parser2 }
}

/// How [`_then`] goes on after its first parser reported `r1`.
pub open spec fn skip_rest<V1, TB: DeepView, B: Parser<TB>>(
    second: B,
    input: Position,
    r1: Verdict<V1>,
    out: Outcome<TB>,
) -> bool {
    match r1 {
        Verdict::Fail(f1) => out == Verdict::<TB::V>::Fail(f1),
        Verdict::Pass { value: v1, state: s1 } => exists|r2: Outcome<TB>| #[trigger]
            second.yields(s1, r2) && out == behind(r2, input),
    }
}

/// Meaning of [`_then`]: `second` runs on the state that `first` left, and
/// the value of `first` is dropped.
pub open spec fn skip_then_yields<TA: DeepView, TB: DeepView, A: Parser<TA>, B: Parser<TB>>(
    first: A,
    second: B,
    input: Position,
    out: Outcome<TB>,
) -> bool {
    exists|r1: Outcome<TA>| #[trigger]
        first.yields(input, r1) && skip_rest(second, input, r1, out)
}

/// Parser made by [`_then`]. `TA` is the type of the value that is dropped.
pub struct SkipThen<TA, A, B> {
    pub first: A,
    pub second: B,
    pub dropped: PhantomData<TA>,
}

impl<TA: DeepView, TB: DeepView, A: Parser<TA>, B: Parser<TB>> Parser<TB> for SkipThen<TA, A, B> {
    open spec fn inv(&self) -> bool {
        self.first.inv() && self.second.inv()
    }

    open spec fn yields(&self, input: Position, out: Outcome<TB>) -> bool {
        skip_then_yields(self.first, self.second, input, out)
    }

    proof fn yields_follows(&self, input: Position, out: Outcome<TB>) {
        let r1 = choose|r1: Outcome<TA>| #[trigger]
            self.first.yields(input, r1) && skip_rest(self.second, input, r1, out);
        self.first.yields_follows(input, r1);
        if let Verdict::Pass { value: v1, state: s1 } = r1 {
            let r2 = choose|r2: Outcome<TB>| #[trigger]
                self.second.yields(s1, r2) && out == behind(r2, input);
            self.second.yields_follows(s1, r2);
        }
    }

    fn run(&self, input: &State) -> (out: Status<TB>) {
        match apply(&self.first, input) {
            Err(failure) => Err(failure),
            Ok(pass1) => {
                match apply(&self.second, &pass1.new_state) {
                    Err(failure) => Err(reframe(failure, input)),
                    Ok(pass2) => Ok(pass2),
                }
            },
        }
    }
}

/// If `parser1` succeeds, `parser2` is run on what is left and the value of
/// `parser1` is ignored. If `parser1` fails, `parser2` is not run.
pub fn _then<TA: DeepView, TB: DeepView, A: Parser<TA>, B: Parser<TB>>(
    parser1: A,
    parser2: B,
) -> (r: SkipThen<TA, A, B>)
    ensures
        r.first == parser1,
        r.second == parser2,
        r.inv() <==> parser1.inv() && parser2.inv(),
        forall|input: Position, out: Outcome<TB>| #[trigger]
            r.yields(input, out) <==> skip_then_yields(parser1, parser2, input, out),
{
    SkipThen { first: parser1, second: parser2, dropped: PhantomData }
}

/// How [`then`] goes on after its parser reported `r1`: `eval` is called on a
/// value that `r1` stands for, and the parser it returns runs on the state
/// that `r1` left.
pub open spec fn then_rest<T: DeepView, U: DeepView, Q: Parser<U>, F: Fn(T) -> Q>(
    eval: F,
    input: Position,
    r1: Outcome<T>,
    out: Outcome<U>,
) -> bool {
    match r1 {
        Verdict::Fail(f1) => out == Verdict::<U::V>::Fail(f1),
        Verdict::Pass { value: v1, state: s1 } => exists|a1: T, q: Q, r2: Outcome<U>|
            a1.deep_view() == v1 && #[trigger] eval.ensures((a1,), q) && #[trigger] q.yields(
                s1,
                r2,
            ) && out == behind(r2, input),
    }
}

/// Meaning of [`then`].
pub open spec fn then_yields<
    T: DeepView,
    U: DeepView,
    P: Parser<T>,
    Q: Parser<U>,
    F: Fn(T) -> Q,
>(
    parser: P,
    eval: F,
    input: Position,
    out: Outcome<U>,
) -> bool {
    exists|r1: Outcome<T>| #[trigger]
        parser.yields(input, r1) && then_rest(eval, input, r1, out)
}

/// `eval` can be called on every value, and every parser it returns is well
/// built.
pub open spec fn then_inv<T, U: DeepView, Q: Parser<U>, F: Fn(T) -> Q>(eval: F) -> bool {
    &&& forall|a1: T| #[trigger] eval.requires((a1,))
    &&& forall|a1: T, q: Q| #[trigger] eval.ensures((a1,), q) ==> q.inv()
}

/// Parser made by [`then`]. `T` is the type of the value handed to `eval`.
pub struct Then<T, P, F> {
    pub parser: P,
    pub eval: F,
    pub handed: PhantomData<T>,
}

impl<T: DeepView, U: DeepView, P: Parser<T>, Q: Parser<U>, F: Fn(T) -> Q> Parser<U> for Then<
    T,
    P,
    F,
> {
    open spec fn inv(&self) -> bool {
        self.parser.inv() && then_inv(self.eval)
    }

    open spec fn yields(&self, input: Position, out: Outcome<U>) -> bool {
        then_yields(self.parser, self.eval, input, out)
    }

    proof fn yields_follows(&self, input: Position, out: Outcome<U>) {
        let r1 = choose|r1: Outcome<T>| #[trigger]
            self.parser.yields(input, r1) && then_rest(self.eval, input, r1, out);
        self.parser.yields_follows(input, r1);
        if let Verdict::Pass { value: v1, state: s1 } = r1 {
            let (a1, q, r2) = choose|a1: T, q: Q, r2: Outcome<U>|
                a1.deep_view() == v1 && #[trigger] self.eval.ensures((a1,), q)
                    && #[trigger] q.yields(s1, r2) && out == behind(r2, input);
            q.yields_follows(s1, r2);
        }
    }

    fn run(&self, input: &State) -> (out: Status<U>) {
        match apply(&self.parser, input) {
            Err(failure) => Err(failure),
            Ok(pass1) => {
                let next = (self.eval)(pass1.value);
                match apply(&next, &pass1.new_state) {
                    Err(failure) => Err(reframe(failure, input)),
                    Ok(pass2) => Ok(pass2),
                }
            },
        }
    }
}

/// If `parser` succeeds, `eval` is called with its value and the parser that
/// `eval` returns is run on what is left. If `parser` fails, `eval` is not
/// called. A failure of the second parser is re-based on the input of the
/// whole.
pub fn then<T: DeepView, U: DeepView, P: Parser<T>, Q: Parser<U>, F: Fn(T) -> Q>(
    parser: P,
    eval: F,
) -> (r: Then<T, P, F>)
    ensures
        r.parser == parser,
        r.eval == eval,
        r.inv() <==> parser.inv() && then_inv(eval),
        forall|input: Position, out: Outcome<U>| #[trigger]
            r.yields(input, out) <==> then_yields(parser, eval, input, out),
{
    let r = Then { parser, eval, handed: PhantomData };
    proof {
        assert(r.inv() <==> r.parser.inv() && then_inv(r.eval));
        assert forall|input: Position, out: Outcome<U>| #[trigger]
            r.yields(input, out) <==> then_yields(r.parser, r.eval, input, out) by {}
    }
    r
}

/// A pair of borrowed parsers means what the pair of the parsers means.
pub proof fn lemma_pair_borrowed<TA: DeepView, TB: DeepView, A: Parser<TA>, B: Parser<TB>>(
    first: A,
    second: B,
    input: Position,
    out: Outcome<(TA, TB)>,
)
    ensures
        (Pair { first: &first, second: &second }).yields(input, out) <==> pair_yields(
            first,
            second,
            input,
            out,
        ),
{
    let borrowed = Pair { first: &first, second: &second };
    if borrowed.yields(input, out) {
        let r1 = choose|r1: Outcome<TA>| #[trigger]
            <&A as Parser<TA>>::yields(&&first, input, r1) && pair_rest(&second, input, r1, out);
        assert(first.yields(input, r1));
        if let Verdict::Pass { value: v1, state: s1 } = r1 {
            let r2 = choose|r2: Outcome<TB>| #[trigger]
                <&B as Parser<TB>>::yields(&&second, s1, r2) && out == paired(
                    v1,
                    behind(r2, input),
                );
            assert(second.yields(s1, r2));
        }
        assert(pair_rest(second, input, r1, out));
    }
    if pair_yields(first, second, input, out) {
        let r1 = choose|r1: Outcome<TA>| #[trigger]
            first.yields(input, r1) && pair_rest(second, input, r1, out);
        assert(<&A as Parser<TA>>::yields(&&first, input, r1));
        if let Verdict::Pass { value: v1, state: s1 } = r1 {
            let r2 = choose|r2: Outcome<TB>| #[trigger]
                second.yields(s1, r2) && out == paired(v1, behind(r2, input));
            assert(<&B as Parser<TB>>::yields(&&second, s1, r2));
        }
        assert(pair_rest(&second, input, r1, out));
    }
}

/// A sequence of borrowed parsers that drops its first value means what
/// the sequence of the parsers means.
pub proof fn lemma_skip_then_borrowed<TA: DeepView, TB: DeepView, A: Parser<TA>, B: Parser<TB>>(
    first: A,
    second: B,
    input: Position,
    out: Outcome<TB>,
)
    ensures
        (SkipThen::<TA, &A, &B> { first: &first, second: &second, dropped: PhantomData }).yields(
            input,
            out,
        ) <==> skip_then_yields(first, second, input, out),
{
    let borrowed = SkipThen::<TA, &A, &B> { first: &first, second: &second, dropped: PhantomData };
    if borrowed.yields(input, out) {
        let r1 = choose|r1: Outcome<TA>| #[trigger]
            <&A as Parser<TA>>::yields(&&first, input, r1) && skip_rest(&second, input, r1, out);
        assert(first.yields(input, r1));
        if let Verdict::Pass { value: v1, state: s1 } = r1 {
            let r2 = choose|r2: Outcome<TB>| #[trigger]
                <&B as Parser<TB>>::yields(&&second, s1, r2) && out == behind(r2, input);
            assert(second.yields(s1, r2));
        }
        assert(skip_rest(second, input, r1, out));
    }
    if skip_then_yields(first, second, input, out) {
        let r1 = choose|r1: Outcome<TA>| #[trigger]
            first.yields(input, r1) && skip_rest(second, input, r1, out);
        assert(<&A as Parser<TA>>::yields(&&first, input, r1));
        if let Verdict::Pass { value: v1, state: s1 } = r1 {
            let r2 = choose|r2: Outcome<TB>| #[trigger]
                second.yields(s1, r2) && out == behind(r2, input);
            assert(<&B as Parser<TB>>::yields(&&second, s1, r2));
        }
        assert(skip_rest(&second, input, r1, out));
    }
}

/// The three parsers run in a row, each on what the one before left; the
/// values are kept, nested to the left.
pub open spec fn row3<
    TA: DeepView,
    TB: DeepView,
    TC: DeepView,
    A: Parser<TA>,
    B: Parser<TB>,
    C: Parser<TC>,
>(
    parser0: A,
    parser1: B,
    parser2: C,
    input: Position,
    out: Outcome<((TA, TB), TC)>,
) -> bool {
    exists|before: Outcome<(TA, TB)>| #[trigger]
        pair_yields(parser0, parser1, input, before) && pair_rest(parser2, input, before, out)
}

/// Two nested pairs mean what [`row3`] says.
pub proof fn lemma_row3<
    TA: DeepView,
    TB: DeepView,
    TC: DeepView,
    A: Parser<TA>,
    B: Parser<TB>,
    C: Parser<TC>,
>(
    parser0: A,
    parser1: B,
    parser2: C,
    input: Position,
    out: Outcome<((TA, TB), TC)>,
)
    ensures
        (Pair { first: Pair { first: parser0, second: parser1 }, second: parser2 }).yields(
            input,
            out,
        )
            <==> row3(parser0, parser1, parser2, input, out),
{
    let inner = Pair { first: parser0, second: parser1 };
    let parts = Pair { first: inner, second: parser2 };
    if parts.yields(input, out) {
        let r1 = choose|r1: Outcome<(TA, TB)>| #[trigger]
            inner.yields(input, r1) && pair_rest(parser2, input, r1, out);
        assert(pair_yields(parser0, parser1, input, r1));
    }
    if row3(parser0, parser1, parser2, input, out) {
        let before = choose|before: Outcome<(TA, TB)>| #[trigger]
            pair_yields(parser0, parser1, input, before) && pair_rest(parser2, input, before, out);
        assert(inner.yields(input, before));
    }
}

/// The four parsers run in a row, each on what the one before left; the
/// values are kept, nested to the left.
pub open spec fn row4<
    TA: DeepView,
    TB: DeepView,
    TC: DeepView,
    TD: DeepView,
    A: Parser<TA>,
    B: Parser<TB>,
    C: Parser<TC>,
    D: Parser<TD>,
>(
    parser0: A,
    parser1: B,
    parser2: C,
    parser3: D,
    input: Position,
    out: Outcome<(((TA, TB), TC), TD)>,
) -> bool {
    exists|before: Outcome<((TA, TB), TC)>| #[trigger]
        row3(parser0, parser1, parser2, input, before) && pair_rest(parser3, input, before, out)
}

/// Three nested pairs mean what [`row4`] says.
pub proof fn lemma_row4<
    TA: DeepView,
    TB: DeepView,
    TC: DeepView,
    TD: DeepView,
    A: Parser<TA>,
    B: Parser<TB>,
    C: Parser<TC>,
    D: Parser<TD>,
>(
    parser0: A,
    parser1: B,
    parser2: C,
    parser3: D,
    input: Position,
    out: Outcome<(((TA, TB), TC), TD)>,
)
    ensures
        (Pair {
            first: Pair { first: Pair { first: parser0, second: parser1 }, second: parser2 },
            second: parser3,
        }).yields(input, out)
            <==> row4(parser0, parser1, parser2, parser3, input, out),
{
    let inner = Pair { first: Pair { first: parser0, second: parser1 }, second: parser2 };
    let parts = Pair { first: inner, second: parser3 };
    if parts.yields(input, out) {
        let r1 = choose|r1: Outcome<((TA, TB), TC)>| #[trigger]
            inner.yields(input, r1) && pair_rest(parser3, input, r1, out);
        lemma_row3(parser0, parser1, parser2, input, r1);
        assert(row3(parser0, parser1, parser2, input, r1));
    }
    if row4(parser0, parser1, parser2, parser3, input, out) {
        let before = choose|before: Outcome<((TA, TB), TC)>| #[trigger]
            row3(parser0, parser1, parser2, input, before)
                && pair_rest(parser3, input, before, out);
        lemma_row3(parser0, parser1, parser2, input, before);
        assert(inner.yields(input, before));
    }
}

/// What [`sequence2`] makes of the verdict `r` of its two parsers: a
/// failure stands; on a success `eval` is called on values that `r` stands
/// for.
pub open spec fn applied2<TA: DeepView, TB: DeepView, R: DeepView, F: Fn(TA, TB) -> R>(
    eval: F,
    r: Outcome<(TA, TB)>,
    out: Outcome<R>,
) -> bool {
    match r {
        Verdict::Fail(failure) => out == Verdict::<R::V>::Fail(failure),
        Verdict::Pass { value, state } => exists|a0: TA, a1: TB, res: R|
            a0.deep_view() == value.0
                && a1.deep_view() == value.1
                && #[trigger] eval.ensures((a0, a1), res)
                && out == Verdict::Pass { value: res.deep_view(), state },
    }
}

/// `eval` can be called on every two values.
pub open spec fn callable2<TA, TB, R, F: Fn(TA, TB) -> R>(eval: F) -> bool {
    forall|a0: TA, a1: TB| #[trigger] eval.requires((a0, a1))
}

/// Meaning of [`sequence2`].
pub open spec fn sequence2_yields<
    TA: DeepView,
    TB: DeepView,
    A: Parser<TA>,
    B: Parser<TB>,
    R: DeepView,
    F: Fn(TA, TB) -> R,
>(
    parser0: A,
    parser1: B,
    eval: F,
    input: Position,
    out: Outcome<R>,
) -> bool {
    exists|r: Outcome<(TA, TB)>| #[trigger]
        pair_yields(parser0, parser1, input, r) && applied2(eval, r, out)
}

/// Parser made by [`sequence2`]: `parts` runs the two parsers in a row,
/// and `T` is the type of what they hand to `eval`.
pub struct Sequence2<T, P, F> {
    pub parts: P,
    pub eval: F,
    pub handed: PhantomData<T>,
}

impl<
    TA: DeepView,
    TB: DeepView,
    R: DeepView,
    P: Parser<(TA, TB)>,
    F: Fn(TA, TB) -> R,
> Parser<R> for Sequence2<
    (TA, TB),
    P,
    F,
> {
    open spec fn inv(&self) -> bool {
        self.parts.inv() && callable2(self.eval)
    }

    open spec fn yields(&self, input: Position, out: Outcome<R>) -> bool {
        exists|r: Outcome<(TA, TB)>| #[trigger]
            self.parts.yields(input, r) && applied2(self.eval, r, out)
    }

    proof fn yields_follows(&self, input: Position, out: Outcome<R>) {
        let r = choose|r: Outcome<(TA, TB)>| #[trigger]
            self.parts.yields(input, r) && applied2(self.eval, r, out);
        self.parts.yields_follows(input, r);
    }

    fn run(&self, input: &State) -> (out: Status<R>) {
        match apply(&self.parts, input) {
            Err(failure) => Err(failure),
            Ok(pass) => {
                let (a0, a1) = pass.value;
                let value = (self.eval)(a0, a1);
                Ok(Succeeded { new_state: pass.new_state, value })
            },
        }
    }
}

/// `sequence2 := e0 e1`
///
/// Runs the parsers left to right, each on what the one before left, and
/// stops at the first failure. If all succeed, `eval` is called with their
/// values and its result is the value of the whole.
pub fn sequence2<
    TA: DeepView,
    TB: DeepView,
    A: Parser<TA>,
    B: Parser<TB>,
    R: DeepView,
    F: Fn(TA, TB) -> R,
>(
    parser0: A,
    parser1: B,
    eval: F,
) -> (r: Sequence2<(TA, TB), Pair<A, B>, F>)
    ensures
        r.parts == (Pair { first: parser0, second: parser1 }),
        r.eval == eval,
        r.inv() <==> parser0.inv() && parser1.inv() && callable2(eval),
        forall|input: Position, out: Outcome<R>| #[trigger]
            r.yields(input, out) <==> sequence2_yields(parser0, parser1, eval, input, out),
{
    let r = Sequence2 {
        parts: Pair { first: parser0, second: parser1 },
        eval,
        handed: PhantomData,
    };
    proof {
        assert(r.inv() <==> r.parts.inv() && callable2(r.eval));
        assert forall|input: Position, out: Outcome<R>| #[trigger]
            r.yields(input, out) <==> sequence2_yields(parser0, parser1, r.eval, input, out) by {
            if r.yields(input, out) {
                let w = choose|w: Outcome<(TA, TB)>| #[trigger]
                    r.parts.yields(input, w) && applied2(r.eval, w, out);
                assert(pair_yields(parser0, parser1, input, w));
            }
            if sequence2_yields(parser0, parser1, r.eval, input, out) {
                let w = choose|w: Outcome<(TA, TB)>| #[trigger]
                    pair_yields(parser0, parser1, input, w) && applied2(r.eval, w, out);
                assert(r.parts.yields(input, w));
            }
        }
    }
    r
}

/// What [`sequence3`] makes of the verdict `r` of its three parsers: a
/// failure stands; on a success `eval` is called on values that `r` stands
/// for.
pub open spec fn applied3<
    TA: DeepView,
    TB: DeepView,
    TC: DeepView,
    R: DeepView,
    F: Fn(TA, TB, TC) -> R,
>(
    eval: F,
    r: Outcome<((TA, TB), TC)>,
    out: Outcome<R>,
) -> bool {
    match r {
        Verdict::Fail(failure) => out == Verdict::<R::V>::Fail(failure),
        Verdict::Pass { value, state } => exists|a0: TA, a1: TB, a2: TC, res: R|
            a0.deep_view() == value.0.0
                && a1.deep_view() == value.0.1
                && a2.deep_view() == value.1
                && #[trigger] eval.ensures((a0, a1, a2), res)
                && out == Verdict::Pass { value: res.deep_view(), state },
    }
}

/// `eval` can be called on every three values.
pub open spec fn callable3<TA, TB, TC, R, F: Fn(TA, TB, TC) -> R>(eval: F) -> bool {
    forall|a0: TA, a1: TB, a2: TC| #[trigger] eval.requires((a0, a1, a2))
}

/// Meaning of [`sequence3`].
pub open spec fn sequence3_yields<
    TA: DeepView,
    TB: DeepView,
    TC: DeepView,
    A: Parser<TA>,
    B: Parser<TB>,
    C: Parser<TC>,
    R: DeepView,
    F: Fn(TA, TB, TC) -> R,
>(
    parser0: A,
    parser1: B,
    parser2: C,
    eval: F,
    input: Position,
    out: Outcome<R>,
) -> bool {
    exists|r: Outcome<((TA, TB), TC)>| #[trigger]
        row3(parser0, parser1, parser2, input, r) && applied3(eval, r, out)
}

/// Parser made by [`sequence3`]: `parts` runs the three parsers in a row,
/// and `T` is the type of what they hand to `eval`.
pub struct Sequence3<T, P, F> {
    pub parts: P,
    pub eval: F,
    pub handed: PhantomData<T>,
}

impl<
    TA: DeepView,
    TB: DeepView,
    TC: DeepView,
    R: DeepView,
    P: Parser<((TA, TB), TC)>,
    F: Fn(TA, TB, TC) -> R,
> Parser<R> for Sequence3<
    ((TA, TB), TC),
    P,
    F,
> {
    open spec fn inv(&self) -> bool {
        self.parts.inv() && callable3(self.eval)
    }

    open spec fn yields(&self, input: Position, out: Outcome<R>) -> bool {
        exists|r: Outcome<((TA, TB), TC)>| #[trigger]
            self.parts.yields(input, r) && applied3(self.eval, r, out)
    }

    proof fn yields_follows(&self, input: Position, out: Outcome<R>) {
        let r = choose|r: Outcome<((TA, TB), TC)>| #[trigger]
            self.parts.yields(input, r) && applied3(self.eval, r, out);
        self.parts.yields_follows(input, r);
    }

    fn run(&self, input: &State) -> (out: Status<R>) {
        match apply(&self.parts, input) {
            Err(failure) => Err(failure),
            Ok(pass) => {
                let ((a0, a1), a2) = pass.value;
                let value = (self.eval)(a0, a1, a2);
                Ok(Succeeded { new_state: pass.new_state, value })
            },
        }
    }
}

/// `sequence3 := e0 e1 e2`
///
/// Runs the parsers left to right, each on what the one before left, and
/// stops at the first failure. If all succeed, `eval` is called with their
/// values and its result is the value of the whole.
pub fn sequence3<
    TA: DeepView,
    TB: DeepView,
    TC: DeepView,
    A: Parser<TA>,
    B: Parser<TB>,
    C: Parser<TC>,
    R: DeepView,
    F: Fn(TA, TB, TC) -> R,
>(
    parser0: A,
    parser1: B,
    parser2: C,
    eval: F,
) -> (r: Sequence3<((TA, TB), TC), Pair<Pair<A, B>, C>, F>)
    ensures
        r.parts == (Pair { first: Pair { first: parser0, second: parser1 }, second: parser2 }),
        r.eval == eval,
        r.inv() <==> parser0.inv() && parser1.inv() && parser2.inv() && callable3(eval),
        forall|input: Position, out: Outcome<R>| #[trigger]
            r.yields(input, out) <==> sequence3_yields(parser0, parser1, parser2, eval, input, out),
{
    let r = Sequence3 {
        parts: Pair { first: Pair { first: parser0, second: parser1 }, second: parser2 },
        eval,
        handed: PhantomData,
    };
    proof {
        assert(r.inv() <==> r.parts.inv() && callable3(r.eval));
        assert forall|input: Position, out: Outcome<R>| #[trigger]
            r.yields(input, out)
                <==> sequence3_yields(parser0, parser1, parser2, r.eval, input, out) by {
            if r.yields(input, out) {
                let w = choose|w: Outcome<((TA, TB), TC)>| #[trigger]
                    r.parts.yields(input, w) && applied3(r.eval, w, out);
                lemma_row3(parser0, parser1, parser2, input, w);
                assert(row3(parser0, parser1, parser2, input, w));
            }
            if sequence3_yields(parser0, parser1, parser2, r.eval, input, out) {
                let w = choose|w: Outcome<((TA, TB), TC)>| #[trigger]
                    row3(parser0, parser1, parser2, input, w) && applied3(r.eval, w, out);
                lemma_row3(parser0, parser1, parser2, input, w);
                assert(r.parts.yields(input, w));
            }
        }
    }
    r
}

/// What [`sequence4`] makes of the verdict `r` of its four parsers: a
/// failure stands; on a success `eval` is called on values that `r` stands
/// for.
pub open spec fn applied4<
    TA: DeepView,
    TB: DeepView,
    TC: DeepView,
    TD: DeepView,
    R: DeepView,
    F: Fn(TA, TB, TC, TD) -> R,
>(
    eval: F,
    r: Outcome<(((TA, TB), TC), TD)>,
    out: Outcome<R>,
) -> bool {
    match r {
        Verdict::Fail(failure) => out == Verdict::<R::V>::Fail(failure),
        Verdict::Pass { value, state } => exists|a0: TA, a1: TB, a2: TC, a3: TD, res: R|
            a0.deep_view() == value.0.0.0
                && a1.deep_view() == value.0.0.1
                && a2.deep_view() == value.0.1
                && a3.deep_view() == value.1
                && #[trigger] eval.ensures((a0, a1, a2, a3), res)
                && out == Verdict::Pass { value: res.deep_view(), state },
    }
}

/// `eval` can be called on every four values.
pub open spec fn callable4<TA, TB, TC, TD, R, F: Fn(TA, TB, TC, TD) -> R>(eval: F) -> bool {
    forall|a0: TA, a1: TB, a2: TC, a3: TD| #[trigger] eval.requires((a0, a1, a2, a3))
}

/// Meaning of [`sequence4`].
pub open spec fn sequence4_yields<
    TA: DeepView,
    TB: DeepView,
    TC: DeepView,
    TD: DeepView,
    A: Parser<TA>,
    B: Parser<TB>,
    C: Parser<TC>,
    D: Parser<TD>,
    R: DeepView,
    F: Fn(TA, TB, TC, TD) -> R,
>(
    parser0: A,
    parser1: B,
    parser2: C,
    parser3: D,
    eval: F,
    input: Position,
    out: Outcome<R>,
) -> bool {
    exists|r: Outcome<(((TA, TB), TC), TD)>| #[trigger]
        row4(parser0, parser1, parser2, parser3, input, r) && applied4(eval, r, out)
}

/// Parser made by [`sequence4`]: `parts` runs the four parsers in a row,
/// and `T` is the type of what they hand to `eval`.
pub struct Sequence4<T, P, F> {
    pub parts: P,
    pub eval: F,
    pub handed: PhantomData<T>,
}

impl<
    TA: DeepView,
    TB: DeepView,
    TC: DeepView,
    TD: DeepView,
    R: DeepView,
    P: Parser<(((TA, TB), TC), TD)>,
    F: Fn(TA, TB, TC, TD) -> R,
> Parser<R> for Sequence4<
    (((TA, TB), TC), TD),
    P,
    F,
> {
    open spec fn inv(&self) -> bool {
        self.parts.inv() && callable4(self.eval)
    }

    open spec fn yields(&self, input: Position, out: Outcome<R>) -> bool {
        exists|r: Outcome<(((TA, TB), TC), TD)>| #[trigger]
            self.parts.yields(input, r) && applied4(self.eval, r, out)
    }

    proof fn yields_follows(&self, input: Position, out: Outcome<R>) {
        let r = choose|r: Outcome<(((TA, TB), TC), TD)>| #[trigger]
            self.parts.yields(input, r) && applied4(self.eval, r, out);
        self.parts.yields_follows(input, r);
    }

    fn run(&self, input: &State) -> (out: Status<R>) {
        match apply(&self.parts, input) {
            Err(failure) => Err(failure),
            Ok(pass) => {
                let (((a0, a1), a2), a3) = pass.value;
                let value = (self.eval)(a0, a1, a2, a3);
                Ok(Succeeded { new_state: pass.new_state, value })
            },
        }
    }
}

/// `sequence4 := e0 e1 e2 e3`
///
/// Runs the parsers left to right, each on what the one before left, and
/// stops at the first failure. If all succeed, `eval` is called with their
/// values and its result is the value of the whole.
pub fn sequence4<
    TA: DeepView,
    TB: DeepView,
    TC: DeepView,
    TD: DeepView,
    A: Parser<TA>,
    B: Parser<TB>,
    C: Parser<TC>,
    D: Parser<TD>,
    R: DeepView,
    F: Fn(TA, TB, TC, TD) -> R,
>(
    parser0: A,
    parser1: B,
    parser2: C,
    parser3: D,
    eval: F,
) -> (r: Sequence4<(((TA, TB), TC), TD), Pair<Pair<Pair<A, B>, C>, D>, F>)
    ensures
        r.parts == (Pair {
            first: Pair { first: Pair { first: parser0, second: parser1 }, second: parser2 },
            second: parser3,
        }),
        r.eval == eval,
        r.inv() <==> parser0.inv()
            && parser1.inv()
            && parser2.inv()
            && parser3.inv()
            && callable4(eval),
        forall|input: Position, out: Outcome<R>| #[trigger]
            r.yields(input, out)
                <==> sequence4_yields(parser0, parser1, parser2, parser3, eval, input, out),
{
    let r = Sequence4 {
        parts: Pair {
            first: Pair { first: Pair { first: parser0, second: parser1 }, second: parser2 },
            second: parser3,
        },
        eval,
        handed: PhantomData,
    };
    proof {
        assert(r.inv() <==> r.parts.inv() && callable4(r.eval));
        assert forall|input: Position, out: Outcome<R>| #[trigger]
            r.yields(input, out)
                <==> sequence4_yields(parser0, parser1, parser2, parser3, r.eval, input, out) by {
            if r.yields(input, out) {
                let w = choose|w: Outcome<(((TA, TB), TC), TD)>| #[trigger]
                    r.parts.yields(input, w) && applied4(r.eval, w, out);
                lemma_row4(parser0, parser1, parser2, parser3, input, w);
                assert(row4(parser0, parser1, parser2, parser3, input, w));
            }
            if sequence4_yields(parser0, parser1, parser2, parser3, r.eval, input, out) {
                let w = choose|w: Outcome<(((TA, TB), TC), TD)>| #[trigger]
                    row4(parser0, parser1, parser2, parser3, input, w) && applied4(r.eval, w, out);
                lemma_row4(parser0, parser1, parser2, parser3, input, w);
                assert(r.parts.yields(input, w));
            }
        }
    }
    r
}

} // verus!
