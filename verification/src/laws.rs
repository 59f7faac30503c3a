//! What holds of the combinators whatever they are built over.

use crate::chain::{folds_left, folds_right, operated, stepped};
use crate::choice::{
    combined, deepest, furthest, labelled, lemma_deepest_is_furthest, lemma_furthest_bounds,
    lemma_tied_none, merged, or_missing, tied, Optional,
};
use crate::message::{joined, or_sep};
use crate::parser::{Outcome, Parser};
use crate::repeat::{
    advances, at_least_one, chained, lemma_chained_advances, lemma_meaning_bounded,
    lemma_repeats_none, list_rest, list_yields, meaning, prepended, progresses, repeat0_yields,
    repeat1_yields, repeats, separated, state_before, values_of, Round,
};
use crate::sequence::{behind, pair_rest, paired, skip_rest, Pair, SkipThen};
use crate::state::Position;
use crate::status::{Failure, Verdict};
use std::marker::PhantomData;
use vstd::prelude::*;

verus! {

/// A sequence consumes input as soon as one of its two parts always does.
pub proof fn lemma_pair_progresses<TA: DeepView, TB: DeepView, A: Parser<TA>, B: Parser<TB>>(
    parser: Pair<A, B>,
)
    requires
        parser.inv(),
        progresses(parser.first) || progresses(parser.second),
    ensures
        progresses(parser),
{
    assert forall|
        input: Position,
        value: (TA::V, TB::V),
        state: Position,
    | input.wf()
        && #[trigger] parser.yields(input, Verdict::Pass { value, state }) implies state.index
        > input.index by {
        let out = Verdict::Pass { value, state };
        let r1 = choose|r1: Outcome<TA>| #[trigger]
            parser.first.yields(input, r1) && pair_rest(parser.second, input, r1, out);
        parser.first.yields_follows(input, r1);
        if let Verdict::Pass { value: v1, state: s1 } = r1 {
            let r2 = choose|r2: Outcome<TB>| #[trigger]
                parser.second.yields(s1, r2) && out == paired(v1, behind(r2, input));
            parser.second.yields_follows(s1, r2);
        }
    }
}

/// A sequence that drops its first value consumes input as soon as one of
/// its two parts always does.
pub proof fn lemma_skip_then_progresses<TA: DeepView, TB: DeepView, A: Parser<TA>, B: Parser<TB>>(
    parser: SkipThen<TA, A, B>,
)
    requires
        parser.inv(),
        progresses(parser.first) || progresses(parser.second),
    ensures
        progresses(parser),
{
    assert forall|input: Position, value: TB::V, state: Position|
        input.wf() && #[trigger] parser.yields(
            input,
            Verdict::Pass { value, state },
        ) implies state.index > input.index by {
        let out = Verdict::Pass { value, state };
        let r1 = choose|r1: Outcome<TA>| #[trigger]
            parser.first.yields(input, r1) && skip_rest(parser.second, input, r1, out);
        parser.first.yields_follows(input, r1);
        if let Verdict::Pass { value: v1, state: s1 } = r1 {
            let r2 = choose|r2: Outcome<TB>| #[trigger]
                parser.second.yields(s1, r2) && out == behind(r2, input);
            parser.second.yields_follows(s1, r2);
        }
    }
}

/// Separator and item together consume input as soon as one of them
/// always does.
pub proof fn lemma_separated_advances<T: DeepView, U: DeepView, P: Parser<T>, S: Parser<U>>(
    item: P,
    sep: S,
)
    requires
        item.inv(),
        sep.inv(),
        progresses(item) || progresses(sep),
    ensures
        advances(separated(item, sep)),
{
    let unit = SkipThen::<U, S, P> { first: sep, second: item, dropped: PhantomData };
    lemma_skip_then_progresses(unit);
    assert forall|input: Position, value: T::V, state: Position|
        input.wf() && #[trigger] separated(item, sep)(
            input,
            Verdict::Pass { value, state },
        ) implies state.index > input.index by {
        assert(unit.yields(input, Verdict::Pass { value, state }));
    }
}

/// Operator and operand together consume input as soon as one of them
/// always does.
pub proof fn lemma_operated_advances<T: DeepView, U: DeepView, P: Parser<T>, O: Parser<U>>(
    item: P,
    op: O,
)
    requires
        item.inv(),
        op.inv(),
        progresses(item) || progresses(op),
    ensures
        advances(operated(item, op)),
{
    let unit = Pair { first: op, second: item };
    lemma_pair_progresses(unit);
    assert forall|
        input: Position,
        value: (U::V, T::V),
        state: Position,
    | input.wf() && #[trigger] operated(item, op)(
        input,
        Verdict::Pass { value, state },
    ) implies state.index > input.index by {
        assert(unit.yields(input, Verdict::Pass { value, state }));
    }
}

/// A repetition never fails. It hands back one value for each round, and
/// every round took it at least one character further: what it consumed is
/// at least as long as what it hands back.
pub proof fn lemma_repeat0_consumes<T: DeepView, P: Parser<T>>(
    item: P,
    input: Position,
    out: Outcome<Vec<T>>,
)
    requires
        item.inv(),
        progresses(item),
        input.wf(),
        repeat0_yields(item, input, out),
    ensures
        out is Pass,
        out->state.extends(input),
        out->state.index >= input.index + out->value.len(),
{
    let step = meaning(item);
    let (rounds, stop) = choose|rounds: Seq<Round<T::V>>, stop: Failure|
        {
            &&& chained(step, input, rounds)
            &&& #[trigger] step(
                state_before(rounds, input, rounds.len() as int),
                Verdict::Fail(stop),
            )
            &&& out == Verdict::Pass {
                value: values_of(rounds),
                state: state_before(rounds, input, rounds.len() as int),
            }
        };
    lemma_meaning_bounded(item);
    lemma_chained_advances(step, input, rounds, rounds.len() as int);
}

/// Where `repeat1` fails, its parser did not succeed once: the failure
/// carries the given message and sits on the input itself.
pub proof fn lemma_repeat1_fails_at_input<T: DeepView, P: Parser<T>>(
    item: P,
    mesg: Seq<char>,
    input: Position,
    out: Outcome<Vec<T>>,
)
    requires
        item.inv(),
        progresses(item),
        input.wf(),
        repeat1_yields(item, mesg, input, out),
        out is Fail,
    ensures
        out == Verdict::<Seq<T::V>>::Fail(
            Failure { mesg, old: input, err: input },
        ),
        exists|stop: Failure| item.yields(input, Verdict::Fail(stop)),
{
    let step = meaning(item);
    let r = choose|r: Outcome<Vec<T>>| #[trigger]
        repeat0_yields(item, input, r) && out == at_least_one(r, mesg, input);
    let (rounds, stop) = choose|rounds: Seq<Round<T::V>>, stop: Failure|
        {
            &&& chained(step, input, rounds)
            &&& #[trigger] step(
                state_before(rounds, input, rounds.len() as int),
                Verdict::Fail(stop),
            )
            &&& r == Verdict::Pass {
                value: values_of(rounds),
                state: state_before(rounds, input, rounds.len() as int),
            }
        };
    lemma_meaning_bounded(item);
    lemma_chained_advances(step, input, rounds, rounds.len() as int);
    assert(rounds.len() == 0);
    assert(item.yields(input, Verdict::Fail(stop)));
}

/// Of two failures `or` reports the one that reached deeper; the message is
/// merged only where both stopped at the same point.
pub proof fn lemma_or_reports_furthest(first: Failure, second: Failure)
    ensures
        merged(first, second).err.index >= first.err.index,
        merged(first, second).err.index >= second.err.index,
        first.err.index > second.err.index ==> merged(first, second) == first,
        first.err.index < second.err.index ==> merged(first, second) == second,
{
}

/// Where exactly one of `failures` stopped at `at`, its message is the
/// only one tied there.
pub proof fn lemma_tied_single(failures: Seq<Failure>, at: nat, k: int)
    requires
        0 <= k < failures.len(),
        failures[k].err.index == at,
        forall|j: int| 0 <= j < failures.len()
            && j != k ==> (#[trigger] failures[j]).err.index != at,
    ensures
        tied(failures, at) == seq![failures[k].mesg],
    decreases failures.len(),
{
    let rest = failures.drop_last();
    assert(failures[failures.len() - 1] == failures.last());
    if k == failures.len() - 1 {
        assert forall|j: int| 0 <= j < rest.len() implies (#[trigger] rest[j]).err.index != at by {
            assert(rest[j] == failures[j]);
        }
        lemma_tied_none(rest, at);
        assert(tied(failures, at) =~= seq![failures[k].mesg]);
    } else {
        assert(rest[k] == failures[k]);
        assert forall|j: int| 0 <= j < rest.len() && j != k implies (#[trigger] rest[j]).err.index
            != at by {
            assert(rest[j] == failures[j]);
        }
        lemma_tied_single(rest, at, k);
    }
}

/// The failure that `alternative` reports points at least as deep as every
/// failure it met.
pub proof fn lemma_alternative_reports_furthest(failures: Seq<Failure>, input: Position, k: int)
    requires
        0 <= k < failures.len(),
    ensures
        combined(failures, input).err.index >= failures[k].err.index,
        combined(failures, input).err.index >= input.index,
{
    lemma_furthest_bounds(failures, input.index);
    lemma_deepest_is_furthest(failures, input);
}

/// The point that `alternative` reports is the point, index and line, at
/// which the first of those alternatives failed that got furthest.
pub proof fn lemma_alternative_reports_first_deepest(
    failures: Seq<Failure>,
    input: Position,
    k: int,
)
    requires
        0 <= k < failures.len(),
        forall|j: int| 0 <= j < failures.len() ==> (#[trigger] failures[j]).err.index >= input.index,
        forall|j: int| 0 <= j < k ==> (#[trigger] failures[j]).err.index < failures[k].err.index,
        forall|j: int|
            k < j < failures.len() ==> (#[trigger] failures[j]).err.index <= failures[k].err.index,
    ensures
        combined(failures, input).err == failures[k].err,
    decreases failures.len(),
{
    let rest = failures.drop_last();
    assert(failures[failures.len() - 1] == failures.last());
    assert forall|j: int| 0 <= j < rest.len() implies (#[trigger] rest[j]) == failures[j] by {}
    if k < failures.len() - 1 {
        assert(rest[k] == failures[k]);
        assert forall|j: int| 0 <= j < rest.len() implies (#[trigger] rest[j]).err.index
            >= input.index by {
            assert(rest[j] == failures[j]);
        }
        assert forall|j: int| 0 <= j < k implies (#[trigger] rest[j]).err.index
            < rest[k].err.index by {
            assert(rest[j] == failures[j]);
        }
        assert forall|j: int| k < j < rest.len() implies (#[trigger] rest[j]).err.index
            <= rest[k].err.index by {
            assert(rest[j] == failures[j]);
        }
        lemma_alternative_reports_first_deepest(rest, input, k);
        assert(deepest(rest, input) == failures[k].err);
        assert(failures.last().err.index <= deepest(rest, input).index);
        assert(deepest(failures, input) == deepest(rest, input));
    } else if rest.len() > 0 {
        lemma_furthest_bounds(rest, input.index);
        lemma_deepest_is_furthest(rest, input);
        assert(rest[0] == failures[0]);
        if furthest(rest, input.index) != input.index {
            let j = choose|j: int|
                0 <= j < rest.len() && (#[trigger] rest[j]).err.index == furthest(
                    rest,
                    input.index,
                );
            assert(rest[j] == failures[j]);
        }
        assert(deepest(rest, input).index < failures.last().err.index);
        assert(deepest(failures, input) == failures.last().err);
    } else {
        assert(deepest(rest, input) == input);
        assert(deepest(failures, input) == failures.last().err);
    }
}

/// Where one alternative got further than all the others, `alternative`
/// reports its point and its message alone.
pub proof fn lemma_alternative_deepest_alone(failures: Seq<Failure>, input: Position, k: int)
    requires
        0 <= k < failures.len(),
        forall|j: int| 0 <= j < failures.len() ==> (#[trigger] failures[j]).err.index >= input.index,
        forall|j: int|
            0 <= j < failures.len() && j != k ==> (#[trigger] failures[j]).err.index
                < failures[k].err.index,
    ensures
        combined(failures, input).err == failures[k].err,
        combined(failures, input).mesg == failures[k].mesg,
{
    lemma_furthest_bounds(failures, input.index);
    let at = furthest(failures, input.index);
    assert(at == failures[k].err.index);
    lemma_tied_single(failures, at, k);
    lemma_alternative_reports_first_deepest(failures, input, k);
}

/// Over two alternatives `alternative` reports the message and the depth
/// that `or` reports.
pub proof fn lemma_alternative_of_two(first: Failure, second: Failure, input: Position)
    requires
        first.err.index >= input.index,
        second.err.index >= input.index,
    ensures
        combined(seq![first, second], input).mesg == merged(first, second).mesg,
        combined(seq![first, second], input).err.index == merged(first, second).err.index,
{
    reveal_with_fuel(furthest, 3);
    reveal_with_fuel(tied, 3);
    reveal_with_fuel(joined, 3);
    lemma_deepest_is_furthest(seq![first, second], input);
    let two = seq![first, second];
    let one = seq![first];
    assert(two.drop_last() =~= one);
    assert(one.drop_last() =~= Seq::<Failure>::empty());
    assert(two.last() == second);
    assert(one.last() == first);
    let at = furthest(two, input.index);
    if first.err.index > second.err.index {
        assert(tied(two, at) =~= seq![first.mesg]);
    } else if first.err.index < second.err.index {
        assert(tied(two, at) =~= seq![second.mesg]);
    } else {
        let both = seq![first.mesg, second.mesg];
        assert(tied(two, at) =~= both);
        assert(both.drop_last() =~= seq![first.mesg]);
        assert(joined(both, or_sep()) =~= first.mesg + or_sep() + second.mesg);
    }
}

/// `tag` changes nothing but the message, and that only where the failure
/// made no progress beyond the input.
pub proof fn lemma_tag_overrides_only_without_progress<V>(
    r: Verdict<V>,
    label: Seq<char>,
    input: Position,
)
    ensures
        r is Pass ==> labelled(r, label, input) == r,
        r is Fail ==> {
            let failure = r->Fail_0;
            let out = labelled(r, label, input)->Fail_0;
            &&& labelled(r, label, input) is Fail
            &&& out.err == failure.err
            &&& out.old == failure.old
            &&& failure.err.index == input.index ==> out.mesg == label
            &&& failure.err.index != input.index ==> out.mesg == failure.mesg
        },
{
}

/// `optional` never fails; where its parser fails, it hands back a copy of
/// the default and leaves the input where it was.
pub proof fn lemma_optional_never_fails<T: DeepView + Clone, P: Parser<T>>(
    parser: Optional<P, T>,
    input: Position,
    out: Outcome<T>,
)
    requires
        parser.yields(input, out),
    ensures
        out is Pass,
        exists|r: Outcome<T>| #[trigger]
            parser.parser.yields(input, r) && (r is Pass ==> out == r) && (r is Fail
                ==> out->state == input && exists|copy: T| #[trigger]
                vstd::pervasive::cloned(parser.missing, copy) && out->value == copy.deep_view()),
{
    let r = choose|r: Outcome<T>| #[trigger]
        parser.parser.yields(input, r) && or_missing(parser.missing, input, r, out);
    if r is Fail {
        let copy = choose|copy: T| #[trigger]
            vstd::pervasive::cloned(parser.missing, copy) && out == Verdict::Pass {
                value: copy.deep_view(),
                state: input,
            };
        assert(vstd::pervasive::cloned(parser.missing, copy) && out->value == copy.deep_view());
    }
}

/// `list` fails only where its first item fails, and then with that
/// failure.
pub proof fn lemma_list_fails_with_first<T: DeepView, U: DeepView, P: Parser<T>, S: Parser<U>>(
    item: P,
    sep: S,
    input: Position,
    out: Outcome<Vec<T>>,
)
    requires
        list_yields(item, sep, input, out),
        out is Fail,
    ensures
        item.yields(input, Verdict::Fail(out->Fail_0)),
{
    let r1 = choose|r1: Outcome<T>| #[trigger]
        item.yields(input, r1) && list_rest(item, sep, input, r1, out);
    if let Verdict::Pass { value: v1, state: s1 } = r1 {
        let r2 = choose|r2: Outcome<Vec<T>>| #[trigger]
            repeats(separated(item, sep), s1, r2) && out == prepended(v1, r2);
        assert(r2 is Pass);
    }
}

/// A list that succeeds starts with the value of its first item.
pub proof fn lemma_list_starts_with_first<T: DeepView, U: DeepView, P: Parser<T>, S: Parser<U>>(
    item: P,
    sep: S,
    input: Position,
    out: Outcome<Vec<T>>,
)
    requires
        list_yields(item, sep, input, out),
        out is Pass,
    ensures
        out->value.len() >= 1,
        exists|state: Position| #[trigger]
            item.yields(input, Verdict::Pass { value: out->value[0], state }),
{
    let r1 = choose|r1: Outcome<T>| #[trigger]
        item.yields(input, r1) && list_rest(item, sep, input, r1, out);
    let v1 = r1->value;
    let s1 = r1->state;
    let r2 = choose|r2: Outcome<Vec<T>>| #[trigger]
        repeats(separated(item, sep), s1, r2) && out == prepended(v1, r2);
    assert(out->value[0] == v1);
    assert(item.yields(input, Verdict::Pass { value: out->value[0], state: s1 }));
}

/// Where no separator follows the first item, the list holds that one
/// value and ends behind it.
pub proof fn lemma_list_of_one<T: DeepView, U: DeepView, P: Parser<T>, S: Parser<U>>(
    item: P,
    sep: S,
    input: Position,
    value: T::V,
    state: Position,
    stop: Failure,
)
    requires
        item.yields(input, Verdict::Pass { value, state }),
        sep.yields(state, Verdict::Fail(stop)),
    ensures
        list_yields(
            item,
            sep,
            input,
            Verdict::<Seq<T::V>>::Pass { value: seq![value], state },
        ),
{
    let step = separated(item, sep);
    let r1 = Verdict::Pass { value, state };
    let none = Seq::<T::V>::empty();
    let r2 = Verdict::Pass { value: none, state };
    let out = Verdict::<Seq<T::V>>::Pass { value: seq![value], state };
    assert(skip_rest(
        item,
        state,
        Verdict::<U::V>::Fail(stop),
        Verdict::<T::V>::Fail(stop),
    ));
    assert(step(state, Verdict::Fail(stop)));
    lemma_repeats_none(step, state, stop);
    assert(repeats(step, state, r2));
    assert(seq![value] + none =~= seq![value]);
    assert(out == prepended(value, r2));
    assert(r1->state == state && r1->value == value);
    assert(exists|r2: Outcome<Vec<T>>| #[trigger]
        repeats(separated(item, sep), r1->state, r2) && out == prepended(r1->value, r2));
    assert(list_rest(item, sep, input, r1, out));
}

/// One operator: `e0 o1 e1` is `eval(e0, o1, e1)`, from the left as from
/// the right.
pub proof fn lemma_folds_one<T: DeepView, U: DeepView, F: Fn(T, U, T) -> T>(
    eval: F,
    e0: T::V,
    o1: U::V,
    e1: T::V,
    out: T::V,
)
    ensures
        folds_left(eval, e0, seq![(o1, e1)], out) <==> stepped(eval, e0, o1, e1, out),
        folds_right(eval, e0, seq![(o1, e1)], out) <==> stepped(eval, e0, o1, e1, out),
{
    reveal_with_fuel(folds_left, 2);
    reveal_with_fuel(folds_right, 2);
    let one = seq![(o1, e1)];
    let none = Seq::<(U::V, T::V)>::empty();
    assert(one.len() == 1);
    assert(one.drop_last() =~= none);
    assert(one.drop_first() =~= none);
    assert(one.last() == (o1, e1));
    assert(one[0] == (o1, e1));
    if folds_left(eval, e0, one, out) {
        let mid = choose|mid: T::V|
            folds_left(eval, e0, one.drop_last(), mid) && #[trigger] stepped(
                eval,
                mid,
                one.last().0,
                one.last().1,
                out,
            );
        assert(folds_left(eval, e0, none, mid));
        assert(mid == e0);
        assert(stepped(eval, e0, o1, e1, out));
    }
    if folds_right(eval, e0, one, out) {
        let rest = choose|rest: T::V|
            folds_right(eval, one[0].1, one.drop_first(), rest) && #[trigger] stepped(
                eval,
                e0,
                one[0].0,
                rest,
                out,
            );
        assert(folds_right(eval, e1, none, rest));
        assert(rest == e1);
        assert(stepped(eval, e0, o1, e1, out));
    }
    if stepped(eval, e0, o1, e1, out) {
        assert(folds_left(eval, e0, none, e0));
        assert(folds_left(eval, e0, one.drop_last(), e0));
        assert(stepped(eval, e0, one.last().0, one.last().1, out));
        assert(folds_left(eval, e0, one, out));
        assert(folds_right(eval, e1, none, e1));
        assert(folds_right(eval, one[0].1, one.drop_first(), e1));
        assert(stepped(eval, e0, one[0].0, e1, out));
        assert(folds_right(eval, e0, one, out));
    }
}

/// Two operators chained from the left group to the left:
/// `e0 o1 e1 o2 e2` is `eval(eval(e0, o1, e1), o2, e2)`.
pub proof fn lemma_folds_left_groups_left<T: DeepView, U: DeepView, F: Fn(T, U, T) -> T>(
    eval: F,
    e0: T::V,
    o1: U::V,
    e1: T::V,
    o2: U::V,
    e2: T::V,
    out: T::V,
)
    ensures
        folds_left(eval, e0, seq![(o1, e1), (o2, e2)], out) <==> exists|mid: T::V|
            stepped(eval, e0, o1, e1, mid) && #[trigger] stepped(eval, mid, o2, e2, out),
{
    let two = seq![(o1, e1), (o2, e2)];
    let one = seq![(o1, e1)];
    assert(two.len() == 2);
    assert(two.drop_last() =~= one);
    assert(two.last() == (o2, e2));
    if folds_left(eval, e0, two, out) {
        let mid = choose|mid: T::V|
            folds_left(eval, e0, two.drop_last(), mid) && #[trigger] stepped(
                eval,
                mid,
                two.last().0,
                two.last().1,
                out,
            );
        lemma_folds_one(eval, e0, o1, e1, mid);
        assert(stepped(eval, e0, o1, e1, mid) && stepped(eval, mid, o2, e2, out));
    }
    if exists|mid: T::V| stepped(eval, e0, o1, e1, mid)
        && #[trigger] stepped(eval, mid, o2, e2, out) {
        let mid = choose|mid: T::V|
            stepped(eval, e0, o1, e1, mid) && #[trigger] stepped(eval, mid, o2, e2, out);
        lemma_folds_one(eval, e0, o1, e1, mid);
        assert(folds_left(eval, e0, two.drop_last(), mid));
        assert(stepped(eval, mid, two.last().0, two.last().1, out));
        assert(folds_left(eval, e0, two, out));
    }
}

/// Two operators chained from the right group to the right:
/// `e0 o1 e1 o2 e2` is `eval(e0, o1, eval(e1, o2, e2))`.
pub proof fn lemma_folds_right_groups_right<T: DeepView, U: DeepView, F: Fn(T, U, T) -> T>(
    eval: F,
    e0: T::V,
    o1: U::V,
    e1: T::V,
    o2: U::V,
    e2: T::V,
    out: T::V,
)
    ensures
        folds_right(eval, e0, seq![(o1, e1), (o2, e2)], out) <==> exists|rest: T::V|
            stepped(eval, e1, o2, e2, rest) && #[trigger] stepped(eval, e0, o1, rest, out),
{
    let two = seq![(o1, e1), (o2, e2)];
    let one = seq![(o2, e2)];
    assert(two.len() == 2);
    assert(two.drop_first() =~= one);
    assert(two[0] == (o1, e1));
    if folds_right(eval, e0, two, out) {
        let rest = choose|rest: T::V|
            folds_right(eval, two[0].1, two.drop_first(), rest) && #[trigger] stepped(
                eval,
                e0,
                two[0].0,
                rest,
                out,
            );
        lemma_folds_one(eval, e1, o2, e2, rest);
        assert(stepped(eval, e1, o2, e2, rest) && stepped(eval, e0, o1, rest, out));
    }
    if exists|rest: T::V| stepped(eval, e1, o2, e2, rest)
        && #[trigger] stepped(eval, e0, o1, rest, out) {
        let rest = choose|rest: T::V|
            stepped(eval, e1, o2, e2, rest) && #[trigger] stepped(eval, e0, o1, rest, out);
        lemma_folds_one(eval, e1, o2, e2, rest);
        assert(folds_right(eval, two[0].1, two.drop_first(), rest));
        assert(stepped(eval, e0, two[0].0, rest, out));
        assert(folds_right(eval, e0, two, out));
    }
}

} // verus!
