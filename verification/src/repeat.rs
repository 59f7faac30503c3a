//! Repetition: applying one parser as often as it succeeds.

use crate::parser::{apply, Outcome, Parser};
use crate::sequence::{lemma_skip_then_borrowed, skip_then_yields, SkipThen};
use crate::state::{Position, State};
use crate::status::{verdict, Failed, Failure, Status, Succeeded, Verdict};
use std::marker::PhantomData;
use vstd::prelude::*;

verus! {

/// What is repeated, as a relation between an input and a verdict.
pub type Step<V> = spec_fn(Position, Verdict<V>) -> bool;

/// The verdicts of `parser`, as a step.
pub open spec fn meaning<T: DeepView, P: Parser<T>>(parser: P) -> Step<T::V> {
    |input: Position, out: Outcome<T>| parser.yields(input, out)
}

/// Every success of `step` consumes input: the state it leaves lies
/// strictly behind the one it was started on.
pub open spec fn advances<V>(step: Step<V>) -> bool {
    forall|input: Position, value: V, state: Position|
        input.wf() && #[trigger] step(input, Verdict::Pass { value, state }) ==> state.index
            > input.index
}

/// Whatever `step` reports stays within the input it was started on.
pub open spec fn bounded<V>(step: Step<V>) -> bool {
    forall|input: Position, out: Verdict<V>|
        input.wf() && #[trigger] step(input, out) ==> out.follows(input)
}

/// Every success of `parser` consumes input. A repetition of a parser
/// without this property need not end, so it is refused.
pub open spec fn progresses<T: DeepView, P: Parser<T>>(parser: P) -> bool {
    forall|input: Position, value: T::V, state: Position|
        input.wf() && #[trigger] parser.yields(input, Verdict::Pass { value, state })
            ==> state.index > input.index
}

/// One successful round of a repetition.
pub struct Round<V> {
    pub value: V,
    pub state: Position,
}

/// The state on which round `k` of `rounds` was started, where the first
/// was started on `input`.
pub open spec fn state_before<V>(rounds: Seq<Round<V>>, input: Position, k: int) -> Position {
    if k <= 0 {
        input
    } else {
        rounds[k - 1].state
    }
}

/// The values parsed in `rounds`, in order.
pub open spec fn values_of<V>(rounds: Seq<Round<V>>) -> Seq<V> {
    Seq::new(rounds.len(), |k: int| rounds[k].value)
}

/// `rounds` is a run of successes of `step`, each started where the one
/// before ended and the first on `input`.
pub open spec fn chained<V>(step: Step<V>, input: Position, rounds: Seq<Round<V>>) -> bool {
    forall|k: int|
        0 <= k < rounds.len() ==> step(
            state_before(rounds, input, k),
            Verdict::Pass { value: (#[trigger] rounds[k]).value, state: rounds[k].state },
        )
}

/// `step` succeeds some number of times in a row, then fails; `out` hands
/// back the values of the successes and the state that the last of them
/// left. The failure is dropped.
pub open spec fn repeats<V>(step: Step<V>, input: Position, out: Verdict<Seq<V>>) -> bool {
    exists|rounds: Seq<Round<V>>, stop: Failure|
        {
            &&& chained(step, input, rounds)
            &&& #[trigger] step(
                state_before(rounds, input, rounds.len() as int),
                Verdict::Fail(stop),
            )
            &&& out == Verdict::Pass {
                value: values_of(rounds),
                state: state_before(rounds, input, rounds.len() as int),
            }
        }
}

/// Meaning of [`repeat0`].
pub open spec fn repeat0_yields<T: DeepView, P: Parser<T>>(
    item: P,
    input: Position,
    out: Outcome<Vec<T>>,
) -> bool {
    repeats(meaning(item), input, out)
}

/// The verdicts of a well-built parser are bounded.
pub proof fn lemma_meaning_bounded<T: DeepView, P: Parser<T>>(parser: P)
    requires
        parser.inv(),
    ensures
        bounded(meaning(parser)),
        progresses(parser) <==> advances(meaning(parser)),
{
    assert forall|input: Position, out: Outcome<T>|
        input.wf() && #[trigger] meaning(parser)(input, out) implies out.follows(input) by {
        parser.yields_follows(input, out);
    }
    if progresses(parser) {
        assert forall|input: Position, value: T::V, state: Position|
            input.wf() && #[trigger] meaning(parser)(
                input,
                Verdict::Pass { value, state },
            ) implies state.index > input.index by {
            assert(parser.yields(input, Verdict::Pass { value, state }));
        }
    }
    if advances(meaning(parser)) {
        assert forall|input: Position, value: T::V, state: Position|
            input.wf() && #[trigger] parser.yields(
                input,
                Verdict::Pass { value, state },
            ) implies state.index > input.index by {
            assert(meaning(parser)(input, Verdict::Pass { value, state }));
        }
    }
}

/// Each round of a chained run starts within the input and ends strictly
/// behind its start.
pub proof fn lemma_chained_advances<V>(
    step: Step<V>,
    input: Position,
    rounds: Seq<Round<V>>,
    k: int,
)
    requires
        bounded(step),
        advances(step),
        input.wf(),
        chained(step, input, rounds),
        0 <= k <= rounds.len(),
    ensures
        state_before(rounds, input, k).extends(input),
        state_before(rounds, input, k).index >= input.index + k,
    decreases k,
{
    if k > 0 {
        lemma_chained_advances(step, input, rounds, k - 1);
        let from = state_before(rounds, input, k - 1);
        let round = rounds[k - 1];
        assert(step(from, Verdict::Pass { value: round.value, state: round.state }));
    }
}

/// Where `step` fails at once, the repetition hands back no value and
/// leaves the input where it was.
pub proof fn lemma_repeats_none<V>(step: Step<V>, input: Position, stop: Failure)
    requires
        step(input, Verdict::Fail(stop)),
    ensures
        repeats(step, input, Verdict::Pass { value: Seq::<V>::empty(), state: input }),
{
    let rounds = Seq::<Round<V>>::empty();
    assert(chained(step, input, rounds));
    assert(step(state_before(rounds, input, rounds.len() as int), Verdict::Fail(stop)));
    assert(values_of(rounds) =~= Seq::<V>::empty());
}

/// Applies `item` until it fails and collects the values.
pub fn run_repeat0<T: DeepView, P: Parser<T>>(item: &P, input: &State) -> (out: Status<Vec<T>>)
    requires
        item.inv(),
        progresses(*item),
        input@.wf(),
    ensures
        repeat0_yields(*item, input@, verdict(out)),
{
    let ghost step = meaning(*item);
    let mut output = input.duplicate();
    let mut values: Vec<T> = Vec::new();
    let ghost mut rounds: Seq<Round<T::V>> = Seq::empty();
    loop
        invariant
            item.inv(),
            progresses(*item),
            step == meaning(*item),
            input@.wf(),
            output@.extends(input@),
            chained(step, input@, rounds),
            output@ == state_before(rounds, input@, rounds.len() as int),
            values.deep_view() == values_of(rounds),
        decreases output@.text.len() - output@.index,
    {
        match apply(item, &output) {
            Ok(pass) => {
                proof {
                    let before = rounds;
                    let old_values = values.deep_view();
                    rounds = before.push(
                        Round { value: pass.value.deep_view(), state: pass.new_state@ },
                    );
                    assert forall|k: int| 0 <= k < rounds.len() implies step(
                        state_before(rounds, input@, k),
                        Verdict::Pass {
                            value: (#[trigger] rounds[k]).value,
                            state: rounds[k].state,
                        },
                    ) by {
                        if k < before.len() {
                            assert(rounds[k] == before[k]);
                            assert(state_before(rounds, input@, k) == state_before(
                                before,
                                input@,
                                k,
                            ));
                        }
                    }
                    assert(values_of(rounds) =~= old_values.push(pass.value.deep_view()));
                }
                output = pass.new_state;
                values.push(pass.value);
                proof {
                    assert(values.deep_view() =~= values_of(rounds));
                }
            },
            Err(failure) => {
                proof {
                    assert(step(
                        state_before(rounds, input@, rounds.len() as int),
                        Verdict::Fail(failure@),
                    ));
                }
                return Ok(Succeeded { new_state: output, value: values });
            },
        }
    }
}

/// Parser made by [`repeat0`].
pub struct Repeat0<P> {
    pub item: P,
}

impl<T: DeepView, P: Parser<T>> Parser<Vec<T>> for Repeat0<P> {
    open spec fn inv(&self) -> bool {
        self.item.inv() && progresses(self.item)
    }

    open spec fn yields(&self, input: Position, out: Outcome<Vec<T>>) -> bool {
        repeat0_yields(self.item, input, out)
    }

    proof fn yields_follows(&self, input: Position, out: Outcome<Vec<T>>) {
        let step = meaning(self.item);
        let (rounds, stop) = choose|
            rounds: Seq<Round<T::V>>,
            stop: Failure,
        |
            {
                &&& chained(step, input, rounds)
                &&& #[trigger] step(
                    state_before(rounds, input, rounds.len() as int),
                    Verdict::Fail(stop),
                )
                &&& out == Verdict::Pass {
                    value: values_of(rounds),
                    state: state_before(rounds, input, rounds.len() as int),
                }
            };
        lemma_meaning_bounded(self.item);
        lemma_chained_advances(step, input, rounds, rounds.len() as int);
    }

    fn run(&self, input: &State) -> (out: Status<Vec<T>>) {
        run_repeat0(&self.item, input)
    }
}

/// `repeat0 := e*`
///
/// Applies `parser` until it fails and hands back the values of the
/// successes, of which there may be none. It never fails. Every success of
/// `parser` has to consume input.
pub fn repeat0<T: DeepView, P: Parser<T>>(parser: P) -> (r: Repeat0<P>)
    ensures
        r.item == parser,
        r.inv() <==> parser.inv() && progresses(parser),
        forall|input: Position, out: Outcome<Vec<T>>| #[trigger]
            r.yields(input, out) <==> repeat0_yields(parser, input, out),
{
    Repeat0 { item: parser }
}

/// What [`repeat1`] makes of the verdict `r` of the repetition: it stands
/// if input was consumed; else the whole fails with `mesg`, where the
/// repetition ended.
pub open spec fn at_least_one<V>(r: Verdict<V>, mesg: Seq<char>, input: Position) -> Verdict<V> {
    match r {
        Verdict::Pass { value, state } => if state.index > input.index {
            r
        } else {
            Verdict::Fail(Failure { mesg, old: input, err: state })
        },
        Verdict::Fail(_) => r,
    }
}

/// Meaning of [`repeat1`].
pub open spec fn repeat1_yields<T: DeepView, P: Parser<T>>(
    item: P,
    mesg: Seq<char>,
    input: Position,
    out: Outcome<Vec<T>>,
) -> bool {
    exists|r: Outcome<Vec<T>>| #[trigger]
        repeat0_yields(item, input, r) && out == at_least_one(r, mesg, input)
}

/// Parser made by [`repeat1`].
pub struct Repeat1<P> {
    pub item: P,
    pub mesg: String,
}

impl<T: DeepView, P: Parser<T>> Parser<Vec<T>> for Repeat1<P> {
    open spec fn inv(&self) -> bool {
        self.item.inv() && progresses(self.item)
    }

    open spec fn yields(&self, input: Position, out: Outcome<Vec<T>>) -> bool {
        repeat1_yields(self.item, self.mesg@, input, out)
    }

    proof fn yields_follows(&self, input: Position, out: Outcome<Vec<T>>) {
        let r = choose|r: Outcome<Vec<T>>| #[trigger]
            repeat0_yields(self.item, input, r) && out == at_least_one(r, self.mesg@, input);
        (Repeat0 { item: self.item }).yields_follows(input, r);
    }

    fn run(&self, input: &State) -> (out: Status<Vec<T>>) {
        match run_repeat0(&self.item, input) {
            Ok(pass) => {
                if pass.new_state.index > input.index {
                    Ok(pass)
                } else {
                    Err(
                        Failed {
                            old_state: input.duplicate(),
                            err_state: pass.new_state,
                            mesg: self.mesg.clone(),
                        },
                    )
                }
            },
            Err(failure) => Err(failure),
        }
    }
}

/// `repeat1 := e+`
///
/// Like [`repeat0`], but where `parser` does not succeed even once the
/// whole fails with `err_mesg`, at the input.
pub fn repeat1<T: DeepView, P: Parser<T>>(parser: P, err_mesg: &str) -> (r: Repeat1<P>)
    ensures
        r.item == parser,
        r.mesg@ == err_mesg@,
        r.inv() <==> parser.inv() && progresses(parser),
        forall|input: Position, out: Outcome<Vec<T>>| #[trigger]
            r.yields(input, out) <==> repeat1_yields(parser, err_mesg@, input, out),
{
    Repeat1 { item: parser, mesg: String::from_str(err_mesg) }
}

/// What follows the first item of a list, as a step: a separator, then an
/// item, of which the value is kept.
pub open spec fn separated<T: DeepView, U: DeepView, P: Parser<T>, S: Parser<U>>(
    item: P,
    sep: S,
) -> Step<T::V> {
    |input: Position, out: Outcome<T>| skip_then_yields(sep, item, input, out)
}

/// The verdict `r` with the value `first` put in front of its values.
pub open spec fn prepended<V>(first: V, r: Verdict<Seq<V>>) -> Verdict<Seq<V>> {
    match r {
        Verdict::Pass { value, state } => Verdict::Pass { value: seq![first] + value, state },
        Verdict::Fail(_) => r,
    }
}

/// How [`list`] goes on after the first item reported `r1`: separator and
/// item are repeated as a unit on what is left.
pub open spec fn list_rest<T: DeepView, U: DeepView, P: Parser<T>, S: Parser<U>>(
    item: P,
    sep: S,
    input: Position,
    r1: Outcome<T>,
    out: Outcome<Vec<T>>,
) -> bool {
    match r1 {
        Verdict::Fail(f1) => out == Verdict::<Seq<T::V>>::Fail(f1),
        Verdict::Pass { value: v1, state: s1 } => exists|r2: Outcome<Vec<T>>| #[trigger]
            repeats(separated(item, sep), s1, r2) && out == prepended(v1, r2),
    }
}

/// Meaning of [`list`].
pub open spec fn list_yields<T: DeepView, U: DeepView, P: Parser<T>, S: Parser<U>>(
    item: P,
    sep: S,
    input: Position,
    out: Outcome<Vec<T>>,
) -> bool {
    exists|r1: Outcome<T>| #[trigger]
        item.yields(input, r1) && list_rest(item, sep, input, r1, out)
}

/// What a list needs of its parts: both are well built, and separator and
/// item together consume input.
pub open spec fn list_inv<
    T: DeepView,
    U: DeepView,
    P: Parser<T>,
    S: Parser<U>,
>(
    item: P,
    sep: S,
) -> bool {
    &&& item.inv()
    &&& sep.inv()
    &&& advances(separated(item, sep))
}

/// Separator and item of a well-built list stay within their input.
pub proof fn lemma_separated_bounded<
    T: DeepView,
    U: DeepView,
    P: Parser<T>,
    S: Parser<U>,
>(
    item: P,
    sep: S,
)
    requires
        item.inv(),
        sep.inv(),
    ensures
        bounded(separated(item, sep)),
{
    let unit = SkipThen::<U, S, P> { first: sep, second: item, dropped: PhantomData };
    assert forall|input: Position, out: Outcome<T>|
        input.wf() && #[trigger] separated(item, sep)(input, out) implies out.follows(input) by {
        unit.yields_follows(input, out);
    }
}

/// Parser made by [`list`]. `U` is the type of what the separator yields.
pub struct List<U, P, S> {
    pub item: P,
    pub sep: S,
    pub dropped: PhantomData<U>,
}

impl<T: DeepView, U: DeepView, P: Parser<T>, S: Parser<U>> Parser<Vec<T>> for List<U, P, S> {
    open spec fn inv(&self) -> bool {
        list_inv(self.item, self.sep)
    }

    open spec fn yields(&self, input: Position, out: Outcome<Vec<T>>) -> bool {
        list_yields(self.item, self.sep, input, out)
    }

    proof fn yields_follows(&self, input: Position, out: Outcome<Vec<T>>) {
        let step = separated(self.item, self.sep);
        let r1 = choose|r1: Outcome<T>| #[trigger]
            self.item.yields(input, r1) && list_rest(self.item, self.sep, input, r1, out);
        self.item.yields_follows(input, r1);
        if let Verdict::Pass { value: v1, state: s1 } = r1 {
            let r2 = choose|r2: Outcome<Vec<T>>| #[trigger]
                repeats(step, s1, r2) && out == prepended(v1, r2);
            let (rounds, stop) = choose|
                rounds: Seq<Round<T::V>>,
                stop: Failure,
            |
                {
                    &&& chained(step, s1, rounds)
                    &&& #[trigger] step(
                        state_before(rounds, s1, rounds.len() as int),
                        Verdict::Fail(stop),
                    )
                    &&& r2 == Verdict::Pass {
                        value: values_of(rounds),
                        state: state_before(rounds, s1, rounds.len() as int),
                    }
                };
            lemma_separated_bounded(self.item, self.sep);
            lemma_chained_advances(step, s1, rounds, rounds.len() as int);
        }
    }

    fn run(&self, input: &State) -> (out: Status<Vec<T>>) {
        match apply(&self.item, input) {
            Err(failure) => Err(failure),
            Ok(pass1) => {
                let term = SkipThen::<U, &S, &P> {
                    first: &self.sep,
                    second: &self.item,
                    dropped: PhantomData,
                };
                proof {
                    assert forall|i: Position, o: Outcome<T>| #[trigger]
                        meaning(term)(i, o) == separated(self.item, self.sep)(i, o) by {
                        lemma_skip_then_borrowed(self.sep, self.item, i, o);
                    }
                    assert(meaning(term) =~= separated(self.item, self.sep));
                    lemma_meaning_bounded(term);
                }
                match run_repeat0(&term, &pass1.new_state) {
                    Err(failure) => Err(failure),
                    Ok(pass2) => {
                        let ghost v1 = pass1.value.deep_view();
                        let ghost rest = pass2.value.deep_view();
                        let mut values: Vec<T> = Vec::new();
                        let mut tail = pass2.value;
                        values.push(pass1.value);
                        values.append(&mut tail);
                        proof {
                            assert(values.deep_view() =~= seq![v1] + rest);
                        }
                        Ok(Succeeded { new_state: pass2.new_state, value: values })
                    },
                }
            },
        }
    }
}

/// `list := e (sep e)*`
///
/// Parses one `parser`, then `sep` and `parser` as often as both succeed, and
/// hands back the values of `parser` in order. It fails only where the first
/// `parser` fails. Separator and item together have to consume input.
pub fn list<T: DeepView, U: DeepView, P: Parser<T>, S: Parser<U>>(parser: P, sep: S) -> (r: List<
    U,
    P,
    S,
>)
    ensures
        r.item == parser,
        r.sep == sep,
        r.inv() <==> list_inv(parser, sep),
        forall|input: Position, out: Outcome<Vec<T>>| #[trigger]
            r.yields(input, out) <==> list_yields(parser, sep, input, out),
{
    List { item: parser, sep, dropped: PhantomData }
}

} // verus!
