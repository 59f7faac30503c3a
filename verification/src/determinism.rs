//! Determinism: a grammar built from parsers that report one verdict per
//! input reports one verdict per input.

use crate::basic::{Fails, Return};
use crate::chain::{
    chainl1_rest, chainl1_value, chainr1_rest, chainr1_value, folds_left, folds_right,
    lemma_operated_bounded, operated, stepped, ChainLeft, ChainRight,
};
use crate::choice::{combined, Alternative, Optional, Or, Tag};
use crate::entry::{parse_yields, start};
use crate::forward::{held_yields, ForwardRef, Promise};
use crate::parser::{Boxed, FnParser, Outcome, Parser};
use crate::state::State;
use crate::status::{verdict, Status};
use crate::sequence::{
    applied2, applied3, applied4, behind, lemma_row3, lemma_row4, pair_rest, pair_yields, row3,
    row4, sequence2_yields, sequence3_yields, sequence4_yields, skip_rest, then_rest, Pair,
    SkipThen, Then,
};
use crate::repeat::{
    advances, at_least_one, bounded, chained, lemma_chained_advances, lemma_meaning_bounded,
    lemma_separated_bounded, list_rest, meaning, prepended, repeat0_yields, repeats, separated,
    state_before, values_of, List, Repeat0, Repeat1, Round, Step,
};
use crate::state::Position;
use crate::status::{Failure, Verdict};
use std::marker::PhantomData;
use vstd::pervasive::cloned;
use vstd::prelude::*;

verus! {

/// On every input `parser` yields at most one verdict.
pub open spec fn deterministic<T: DeepView, P: Parser<T>>(parser: P) -> bool {
    forall|input: Position, a: Outcome<T>, b: Outcome<T>|
        input.wf() && #[trigger] parser.yields(input, a) && #[trigger] parser.yields(input, b)
            ==> a == b
}

/// Every copy of `value` stands for what `value` stands for.
pub open spec fn copies_faithfully<T: DeepView + Clone>(value: T) -> bool {
    forall|copy: T| #[trigger] cloned(value, copy) ==> copy.deep_view() == value.deep_view()
}

/// `a` and `b` yield the same verdicts.
pub open spec fn same_meaning<T: DeepView, P: Parser<T>>(a: P, b: P) -> bool {
    forall|input: Position, out: Outcome<T>|
        input.wf() ==> #[trigger] a.yields(input, out) == #[trigger] b.yields(input, out)
}

/// A borrowed parser is as deterministic as the parser itself.
pub proof fn lemma_borrowed_deterministic<T: DeepView, P: Parser<T>>(parser: P)
    requires
        deterministic(parser),
    ensures
        deterministic::<T, &P>(&parser),
{
}

/// A parser whose type was forgotten is as deterministic as it was before.
pub proof fn lemma_boxed_deterministic<T: DeepView, P: Parser<T>>(parser: P, erased: Boxed<T>)
    requires
        parser.inv(),
        deterministic(parser),
        forall|input: Position, out: Outcome<T>|
            parser.inv() && input.wf() ==> #[trigger] erased.yields(input, out) == parser.yields(
                input,
                out,
            ),
    ensures
        deterministic(erased),
{
}

/// A parser given as a function is deterministic where the function hands
/// back outcomes that stand for the same on states that stand for the same.
pub proof fn lemma_from_fn_deterministic<T: DeepView, F: Fn(State) -> Status<T>>(
    parser: FnParser<F>,
)
    requires
        forall|s1: State, s2: State, r1: Status<T>, r2: Status<T>|
            s1@ == s2@ && s1@.wf() && #[trigger] parser.func.ensures((s1,), r1)
                && #[trigger] parser.func.ensures((s2,), r2) ==> verdict(r1) == verdict(r2),
    ensures
        deterministic(parser),
{
    assert forall|input: Position, a: Outcome<T>, b: Outcome<T>|
        input.wf() && #[trigger] parser.yields(input, a) && #[trigger] parser.yields(
            input,
            b,
        ) implies a == b by {
        let (s1, r1) = choose|state: State, status: Status<T>|
            state@ == input && #[trigger] parser.func.ensures((state,), status) && verdict(status)
                == a;
        let (s2, r2) = choose|state: State, status: Status<T>|
            state@ == input && #[trigger] parser.func.ensures((state,), status) && verdict(status)
                == b;
        assert(verdict(r1) == verdict(r2));
    }
}

/// `fails` is deterministic.
pub proof fn lemma_fails_deterministic<T: DeepView>(parser: Fails<T>)
    ensures
        deterministic(parser),
{
}

/// `return_value` is deterministic where copies of the value are faithful.
pub proof fn lemma_return_deterministic<T: DeepView + Clone>(parser: Return<T>)
    requires
        copies_faithfully(parser.value),
    ensures
        deterministic(parser),
{
}

/// `pair` of deterministic parsers is deterministic.
pub proof fn lemma_pair_deterministic<TA: DeepView, TB: DeepView, A: Parser<TA>, B: Parser<TB>>(
    parser: Pair<A, B>,
)
    requires
        parser.inv(),
        deterministic(parser.first),
        deterministic(parser.second),
    ensures
        deterministic(parser),
{
    assert forall|
        input: Position,
        a: Outcome<(TA, TB)>,
        b: Outcome<(TA, TB)>,
    | input.wf() && #[trigger] parser.yields(input, a) && #[trigger] parser.yields(
        input,
        b,
    ) implies a == b by {
        let ra = choose|r1: Outcome<TA>| #[trigger]
            parser.first.yields(input, r1) && pair_rest(parser.second, input, r1, a);
        let rb = choose|r1: Outcome<TA>| #[trigger]
            parser.first.yields(input, r1) && pair_rest(parser.second, input, r1, b);
        assert(ra == rb);
        parser.first.yields_follows(input, ra);
    }
}

/// `_then` of deterministic parsers is deterministic.
pub proof fn lemma_skip_then_deterministic<
    TA: DeepView,
    TB: DeepView,
    A: Parser<TA>,
    B: Parser<TB>,
>(
    parser: SkipThen<TA, A, B>,
)
    requires
        parser.inv(),
        deterministic(parser.first),
        deterministic(parser.second),
    ensures
        deterministic(parser),
{
    assert forall|input: Position, a: Outcome<TB>, b: Outcome<TB>|
        input.wf() && #[trigger] parser.yields(input, a) && #[trigger] parser.yields(
            input,
            b,
        ) implies a == b by {
        let ra = choose|r1: Outcome<TA>| #[trigger]
            parser.first.yields(input, r1) && skip_rest(parser.second, input, r1, a);
        let rb = choose|r1: Outcome<TA>| #[trigger]
            parser.first.yields(input, r1) && skip_rest(parser.second, input, r1, b);
        assert(ra == rb);
        parser.first.yields_follows(input, ra);
    }
}

/// `or` of deterministic parsers is deterministic.
pub proof fn lemma_or_deterministic<T: DeepView, A: Parser<T>, B: Parser<T>>(
    parser: Or<A, B>,
)
    requires
        deterministic(parser.first),
        deterministic(parser.second),
    ensures
        deterministic(parser),
{
}

/// `tag` of a deterministic parser is deterministic.
pub proof fn lemma_tag_deterministic<T: DeepView, P: Parser<T>>(parser: Tag<P>)
    requires
        deterministic(parser.parser),
    ensures
        deterministic(parser),
{
}

/// `optional` of a deterministic parser is deterministic where copies of
/// the default are faithful.
pub proof fn lemma_optional_deterministic<T: DeepView + Clone, P: Parser<T>>(
    parser: Optional<P, T>,
)
    requires
        deterministic(parser.parser),
        copies_faithfully(parser.missing),
    ensures
        deterministic(parser),
{
}

/// A forward reference is deterministic where the promise of its cell
/// allows one verdict per input.
pub proof fn lemma_forward_ref_deterministic<T: DeepView, C: Promise<T>>(parser: ForwardRef<T, C>)
    requires
        forall|input: Position, a: Outcome<T>, b: Outcome<T>|
            input.wf() && #[trigger] C::keeps(input, a) && #[trigger] C::keeps(input, b) ==> a
                == b,
    ensures
        deterministic(parser),
{
}

/// Called on values that stand for the same, `eval` hands back parsers
/// of one meaning, each of them deterministic.
pub open spec fn steady<T: DeepView, U: DeepView, Q: Parser<U>, F: Fn(T) -> Q>(eval: F) -> bool {
    forall|a1: T, a2: T, q1: Q, q2: Q|
        a1.deep_view() == a2.deep_view() && #[trigger] eval.ensures((a1,), q1)
            && #[trigger] eval.ensures((a2,), q2) ==> same_meaning(q1, q2) && deterministic(q1)
}

/// `then` is deterministic where its parser is and `eval` is steady.
pub proof fn lemma_then_deterministic<
    T: DeepView,
    U: DeepView,
    P: Parser<T>,
    Q: Parser<U>,
    F: Fn(T) -> Q,
>(
    parser: Then<T, P, F>,
)
    requires
        parser.inv(),
        deterministic(parser.parser),
        steady(parser.eval),
    ensures
        deterministic(parser),
{
    assert forall|input: Position, a: Outcome<U>, b: Outcome<U>|
        input.wf() && #[trigger] parser.yields(input, a) && #[trigger] parser.yields(
            input,
            b,
        ) implies a == b by {
        let ra = choose|r1: Outcome<T>| #[trigger]
            parser.parser.yields(input, r1) && then_rest(parser.eval, input, r1, a);
        let rb = choose|r1: Outcome<T>| #[trigger]
            parser.parser.yields(input, r1) && then_rest(parser.eval, input, r1, b);
        assert(ra == rb);
        parser.parser.yields_follows(input, ra);
        if let Verdict::Pass { value: v1, state: s1 } = ra {
            let (a1, qa, r2a) = choose|a1: T, q: Q, r2: Outcome<U>|
                a1.deep_view() == v1 && #[trigger] parser.eval.ensures((a1,), q)
                    && #[trigger] q.yields(s1, r2) && a == behind(r2, input);
            let (b1, qb, r2b) = choose|a1: T, q: Q, r2: Outcome<U>|
                a1.deep_view() == v1 && #[trigger] parser.eval.ensures((a1,), q)
                    && #[trigger] q.yields(s1, r2) && b == behind(r2, input);
            assert(same_meaning(qa, qb) && deterministic(qa));
            assert(qa.yields(s1, r2b));
            assert(r2a == r2b);
        }
    }
}

/// Called on two values that stand for the same, `eval` hands back
/// values that stand for the same.
pub open spec fn single_valued2<
    TA: DeepView,
    TB: DeepView,
    R: DeepView,
    F: Fn(TA, TB) -> R,
>(
    eval: F,
) -> bool {
    forall|a0: TA, a1: TB, b0: TA, b1: TB, ra: R, rb: R|
        a0.deep_view() == b0.deep_view()
            && a1.deep_view() == b1.deep_view()
            && #[trigger] eval.ensures((a0, a1), ra)
            && #[trigger] eval.ensures(
            (b0, b1),
            rb,
        ) ==> ra.deep_view() == rb.deep_view()
}

/// Called on three values that stand for the same, `eval` hands back
/// values that stand for the same.
pub open spec fn single_valued3<
    TA: DeepView,
    TB: DeepView,
    TC: DeepView,
    R: DeepView,
    F: Fn(TA, TB, TC) -> R,
>(
    eval: F,
) -> bool {
    forall|a0: TA, a1: TB, a2: TC, b0: TA, b1: TB, b2: TC, ra: R, rb: R|
        a0.deep_view() == b0.deep_view()
            && a1.deep_view() == b1.deep_view()
            && a2.deep_view() == b2.deep_view()
            && #[trigger] eval.ensures((a0, a1, a2), ra)
            && #[trigger] eval.ensures(
            (b0, b1, b2),
            rb,
        ) ==> ra.deep_view() == rb.deep_view()
}

/// Called on four values that stand for the same, `eval` hands back
/// values that stand for the same.
pub open spec fn single_valued4<
    TA: DeepView,
    TB: DeepView,
    TC: DeepView,
    TD: DeepView,
    R: DeepView,
    F: Fn(TA, TB, TC, TD) -> R,
>(
    eval: F,
) -> bool {
    forall|a0: TA, a1: TB, a2: TC, a3: TD, b0: TA, b1: TB, b2: TC, b3: TD, ra: R, rb: R|
        a0.deep_view() == b0.deep_view()
            && a1.deep_view() == b1.deep_view()
            && a2.deep_view() == b2.deep_view()
            && a3.deep_view() == b3.deep_view()
            && #[trigger] eval.ensures((a0, a1, a2, a3), ra)
            && #[trigger] eval.ensures(
            (b0, b1, b2, b3),
            rb,
        ) ==> ra.deep_view() == rb.deep_view()
}

/// `sequence2` is deterministic where its parsers are and `eval` is
/// single-valued: that holds of every parser `whole` that means what
/// `sequence2` of these parts means.
pub proof fn lemma_sequence2_deterministic<
    TA: DeepView,
    TB: DeepView,
    A: Parser<TA>,
    B: Parser<TB>,
    R: DeepView,
    F: Fn(TA, TB) -> R,
    S: Parser<R>,
>(
    parser0: A,
    parser1: B,
    eval: F,
    whole: S,
)
    requires
        parser0.inv(),
        parser1.inv(),
        deterministic(parser0),
        deterministic(parser1),
        single_valued2(eval),
        forall|input: Position, out: Outcome<R>| #[trigger]
            whole.yields(input, out) <==> sequence2_yields(parser0, parser1, eval, input, out),
    ensures
        deterministic(whole),
{
    let parts = Pair { first: parser0, second: parser1 };
    lemma_pair_deterministic(Pair { first: parser0, second: parser1 });
    assert forall|input: Position, a: Outcome<R>, b: Outcome<R>|
        input.wf() && #[trigger] whole.yields(input, a) && #[trigger] whole.yields(
            input,
            b,
        ) implies a == b by {
        let ra = choose|r: Outcome<(TA, TB)>| #[trigger]
            pair_yields(parser0, parser1, input, r) && applied2(eval, r, a);
        let rb = choose|r: Outcome<(TA, TB)>| #[trigger]
            pair_yields(parser0, parser1, input, r) && applied2(eval, r, b);
        assert(parts.yields(input, ra) && parts.yields(input, rb));
        assert(ra == rb);
    }
}

/// `sequence3` is deterministic where its parsers are and `eval` is
/// single-valued: that holds of every parser `whole` that means what
/// `sequence3` of these parts means.
pub proof fn lemma_sequence3_deterministic<
    TA: DeepView,
    TB: DeepView,
    TC: DeepView,
    A: Parser<TA>,
    B: Parser<TB>,
    C: Parser<TC>,
    R: DeepView,
    F: Fn(TA, TB, TC) -> R,
    S: Parser<R>,
>(
    parser0: A,
    parser1: B,
    parser2: C,
    eval: F,
    whole: S,
)
    requires
        parser0.inv(),
        parser1.inv(),
        parser2.inv(),
        deterministic(parser0),
        deterministic(parser1),
        deterministic(parser2),
        single_valued3(eval),
        forall|input: Position, out: Outcome<R>| #[trigger]
            whole.yields(input, out) <==> sequence3_yields(parser0, parser1, parser2, eval, input, out),
    ensures
        deterministic(whole),
{
    let parts = Pair { first: Pair { first: parser0, second: parser1 }, second: parser2 };
    lemma_pair_deterministic(Pair { first: parser0, second: parser1 });
    lemma_pair_deterministic(Pair { first: Pair { first: parser0, second: parser1 }, second: parser2 });
    assert forall|input: Position, a: Outcome<R>, b: Outcome<R>|
        input.wf() && #[trigger] whole.yields(input, a) && #[trigger] whole.yields(
            input,
            b,
        ) implies a == b by {
        let ra = choose|r: Outcome<((TA, TB), TC)>| #[trigger]
            row3(parser0, parser1, parser2, input, r) && applied3(eval, r, a);
        let rb = choose|r: Outcome<((TA, TB), TC)>| #[trigger]
            row3(parser0, parser1, parser2, input, r) && applied3(eval, r, b);
        lemma_row3(parser0, parser1, parser2, input, ra);
        lemma_row3(parser0, parser1, parser2, input, rb);
        assert(parts.yields(input, ra) && parts.yields(input, rb));
        assert(ra == rb);
    }
}

/// `sequence4` is deterministic where its parsers are and `eval` is
/// single-valued: that holds of every parser `whole` that means what
/// `sequence4` of these parts means.
pub proof fn lemma_sequence4_deterministic<
    TA: DeepView,
    TB: DeepView,
    TC: DeepView,
    TD: DeepView,
    A: Parser<TA>,
    B: Parser<TB>,
    C: Parser<TC>,
    D: Parser<TD>,
    R: DeepView,
    F: Fn(TA, TB, TC, TD) -> R,
    S: Parser<R>,
>(
    parser0: A,
    parser1: B,
    parser2: C,
    parser3: D,
    eval: F,
    whole: S,
)
    requires
        parser0.inv(),
        parser1.inv(),
        parser2.inv(),
        parser3.inv(),
        deterministic(parser0),
        deterministic(parser1),
        deterministic(parser2),
        deterministic(parser3),
        single_valued4(eval),
        forall|input: Position, out: Outcome<R>| #[trigger]
            whole.yields(input, out) <==> sequence4_yields(parser0, parser1, parser2, parser3, eval, input, out),
    ensures
        deterministic(whole),
{
    let parts = Pair { first: Pair { first: Pair { first: parser0, second: parser1 }, second: parser2 }, second: parser3 };
    lemma_pair_deterministic(Pair { first: parser0, second: parser1 });
    lemma_pair_deterministic(Pair { first: Pair { first: parser0, second: parser1 }, second: parser2 });
    lemma_pair_deterministic(Pair { first: Pair { first: Pair { first: parser0, second: parser1 }, second: parser2 }, second: parser3 });
    assert forall|input: Position, a: Outcome<R>, b: Outcome<R>|
        input.wf() && #[trigger] whole.yields(input, a) && #[trigger] whole.yields(
            input,
            b,
        ) implies a == b by {
        let ra = choose|r: Outcome<(((TA, TB), TC), TD)>| #[trigger]
            row4(parser0, parser1, parser2, parser3, input, r) && applied4(eval, r, a);
        let rb = choose|r: Outcome<(((TA, TB), TC), TD)>| #[trigger]
            row4(parser0, parser1, parser2, parser3, input, r) && applied4(eval, r, b);
        lemma_row4(parser0, parser1, parser2, parser3, input, ra);
        lemma_row4(parser0, parser1, parser2, parser3, input, rb);
        assert(parts.yields(input, ra) && parts.yields(input, rb));
        assert(ra == rb);
    }
}

/// On every input `step` reports at most one verdict.
pub open spec fn single_verdict<V>(step: Step<V>) -> bool {
    forall|input: Position, a: Verdict<V>, b: Verdict<V>|
        input.wf() && #[trigger] step(input, a) && #[trigger] step(input, b) ==> a == b
}

/// The verdicts of a deterministic parser are a step with one verdict per
/// input.
pub proof fn lemma_meaning_single<T: DeepView, P: Parser<T>>(parser: P)
    requires
        deterministic(parser),
    ensures
        single_verdict(meaning(parser)),
{
    assert forall|input: Position, a: Outcome<T>, b: Outcome<T>|
        input.wf() && #[trigger] meaning(parser)(input, a) && #[trigger] meaning(parser)(
            input,
            b,
        ) implies a == b by {
        assert(parser.yields(input, a) && parser.yields(input, b));
    }
}

/// Two runs of successes of the same step from the same input agree as far
/// as both go.
pub proof fn lemma_chained_agree<V>(
    step: Step<V>,
    input: Position,
    ra: Seq<Round<V>>,
    rb: Seq<Round<V>>,
    k: int,
)
    requires
        bounded(step),
        advances(step),
        single_verdict(step),
        input.wf(),
        chained(step, input, ra),
        chained(step, input, rb),
        0 <= k <= ra.len(),
        k <= rb.len(),
    ensures
        forall|j: int| 0 <= j < k ==> ra[j] == rb[j],
        state_before(ra, input, k) == state_before(rb, input, k),
    decreases k,
{
    if k > 0 {
        lemma_chained_agree(step, input, ra, rb, k - 1);
        lemma_chained_advances(step, input, ra, k - 1);
        let from = state_before(ra, input, k - 1);
        let a = ra[k - 1];
        let b = rb[k - 1];
        assert(step(from, Verdict::Pass { value: a.value, state: a.state }));
        assert(step(from, Verdict::Pass { value: b.value, state: b.state }));
    }
}

/// Repeating a step that reports one verdict per input has one result.
pub proof fn lemma_repeats_single<V>(
    step: Step<V>,
    input: Position,
    a: Verdict<Seq<V>>,
    b: Verdict<Seq<V>>,
)
    requires
        bounded(step),
        advances(step),
        single_verdict(step),
        input.wf(),
        repeats(step, input, a),
        repeats(step, input, b),
    ensures
        a == b,
{
    let (ra, sa) = choose|ra: Seq<Round<V>>, sa: Failure|
        {
            &&& chained(step, input, ra)
            &&& #[trigger] step(state_before(ra, input, ra.len() as int), Verdict::Fail(sa))
            &&& a == Verdict::Pass {
                value: values_of(ra),
                state: state_before(ra, input, ra.len() as int),
            }
        };
    let (rb, sb) = choose|rb: Seq<Round<V>>, sb: Failure|
        {
            &&& chained(step, input, rb)
            &&& #[trigger] step(state_before(rb, input, rb.len() as int), Verdict::Fail(sb))
            &&& b == Verdict::Pass {
                value: values_of(rb),
                state: state_before(rb, input, rb.len() as int),
            }
        };
    let k = if ra.len() <= rb.len() {
        ra.len() as int
    } else {
        rb.len() as int
    };
    lemma_chained_agree(step, input, ra, rb, k);
    lemma_chained_advances(step, input, ra, k);
    if ra.len() < rb.len() {
        let next = rb[k];
        assert(step(
            state_before(rb, input, k),
            Verdict::Pass { value: next.value, state: next.state },
        ));
        assert(false);
    }
    if rb.len() < ra.len() {
        let next = ra[k];
        assert(step(
            state_before(ra, input, k),
            Verdict::Pass { value: next.value, state: next.state },
        ));
        assert(false);
    }
    assert(ra =~= rb);
}

/// `repeat0` of a deterministic parser is deterministic.
pub proof fn lemma_repeat0_deterministic<T: DeepView, P: Parser<T>>(parser: Repeat0<P>)
    requires
        parser.inv(),
        deterministic(parser.item),
    ensures
        deterministic(parser),
{
    let step = meaning(parser.item);
    lemma_meaning_bounded(parser.item);
    lemma_meaning_single(parser.item);
    assert forall|input: Position, a: Outcome<Vec<T>>, b: Outcome<Vec<T>>|
        input.wf() && #[trigger] parser.yields(input, a) && #[trigger] parser.yields(
            input,
            b,
        ) implies a == b by {
        lemma_repeats_single(step, input, a, b);
    }
}

/// `repeat1` of a deterministic parser is deterministic.
pub proof fn lemma_repeat1_deterministic<T: DeepView, P: Parser<T>>(parser: Repeat1<P>)
    requires
        parser.inv(),
        deterministic(parser.item),
    ensures
        deterministic(parser),
{
    let step = meaning(parser.item);
    lemma_meaning_bounded(parser.item);
    lemma_meaning_single(parser.item);
    assert forall|input: Position, a: Outcome<Vec<T>>, b: Outcome<Vec<T>>|
        input.wf() && #[trigger] parser.yields(input, a) && #[trigger] parser.yields(
            input,
            b,
        ) implies a == b by {
        let ra = choose|r: Outcome<Vec<T>>| #[trigger]
            repeat0_yields(parser.item, input, r) && a == at_least_one(r, parser.mesg@, input);
        let rb = choose|r: Outcome<Vec<T>>| #[trigger]
            repeat0_yields(parser.item, input, r) && b == at_least_one(r, parser.mesg@, input);
        lemma_repeats_single(step, input, ra, rb);
    }
}

/// Separator and item of deterministic parsers report one verdict per
/// input.
pub proof fn lemma_separated_single<T: DeepView, U: DeepView, P: Parser<T>, S: Parser<U>>(
    item: P,
    sep: S,
)
    requires
        item.inv(),
        sep.inv(),
        deterministic(item),
        deterministic(sep),
    ensures
        single_verdict(separated(item, sep)),
{
    let unit = SkipThen::<U, S, P> { first: sep, second: item, dropped: PhantomData };
    lemma_skip_then_deterministic(unit);
    assert forall|input: Position, a: Outcome<T>, b: Outcome<T>|
        input.wf() && #[trigger] separated(item, sep)(input, a) && #[trigger] separated(
            item,
            sep,
        )(input, b) implies a == b by {
        assert(unit.yields(input, a) && unit.yields(input, b));
    }
}

/// Operator and operand of deterministic parsers report one verdict per
/// input.
pub proof fn lemma_operated_single<T: DeepView, U: DeepView, P: Parser<T>, O: Parser<U>>(
    item: P,
    op: O,
)
    requires
        item.inv(),
        op.inv(),
        deterministic(item),
        deterministic(op),
    ensures
        single_verdict(operated(item, op)),
{
    let unit = Pair { first: op, second: item };
    lemma_pair_deterministic(unit);
    assert forall|
        input: Position,
        a: Outcome<(U, T)>,
        b: Outcome<(U, T)>,
    | input.wf() && #[trigger] operated(item, op)(input, a) && #[trigger] operated(item, op)(
        input,
        b,
    ) implies a == b by {
        assert(unit.yields(input, a) && unit.yields(input, b));
    }
}

/// `chain_suffix` of deterministic parsers is deterministic.
pub proof fn lemma_chain_suffix_deterministic<T: DeepView, U: DeepView, P: Parser<T>, O: Parser<U>>(
    parser: Repeat0<Pair<O, P>>,
)
    requires
        parser.inv(),
        deterministic(parser.item.first),
        deterministic(parser.item.second),
    ensures
        deterministic(parser),
{
    lemma_pair_deterministic(parser.item);
    lemma_repeat0_deterministic(parser);
}

/// `list` of deterministic parsers is deterministic.
pub proof fn lemma_list_deterministic<T: DeepView, U: DeepView, P: Parser<T>, S: Parser<U>>(
    parser: List<U, P, S>,
)
    requires
        parser.inv(),
        deterministic(parser.item),
        deterministic(parser.sep),
    ensures
        deterministic(parser),
{
    let step = separated(parser.item, parser.sep);
    lemma_separated_bounded(parser.item, parser.sep);
    lemma_separated_single(parser.item, parser.sep);
    assert forall|input: Position, a: Outcome<Vec<T>>, b: Outcome<Vec<T>>|
        input.wf() && #[trigger] parser.yields(input, a) && #[trigger] parser.yields(
            input,
            b,
        ) implies a == b by {
        let ra = choose|r1: Outcome<T>| #[trigger]
            parser.item.yields(input, r1) && list_rest(parser.item, parser.sep, input, r1, a);
        let rb = choose|r1: Outcome<T>| #[trigger]
            parser.item.yields(input, r1) && list_rest(parser.item, parser.sep, input, r1, b);
        assert(ra == rb);
        parser.item.yields_follows(input, ra);
        if let Verdict::Pass { value: v1, state: s1 } = ra {
            let r2a = choose|r2: Outcome<Vec<T>>| #[trigger]
                repeats(step, s1, r2) && a == prepended(v1, r2);
            let r2b = choose|r2: Outcome<Vec<T>>| #[trigger]
                repeats(step, s1, r2) && b == prepended(v1, r2);
            lemma_repeats_single(step, s1, r2a, r2b);
        }
    }
}

/// What a cell hands out reports one verdict per input where the parser
/// handed out is deterministic: a forward reference adds no verdict of its
/// own to those of the rule it stands for.
pub proof fn lemma_held_deterministic<T: DeepView>(
    later: Option<&Boxed<T>>,
    initial: &Boxed<T>,
    input: Position,
    a: Outcome<T>,
    b: Outcome<T>,
)
    requires
        input.wf(),
        later matches Some(parser) ==> deterministic(*parser),
        later is None ==> deterministic(*initial),
        held_yields(later, initial, input, a),
        held_yields(later, initial, input, b),
    ensures
        a == b,
{
}

/// `alternative` of deterministic parsers is deterministic.
pub proof fn lemma_alternative_deterministic<T: DeepView>(parser: Alternative<T>)
    requires
        forall|k: int| 0 <= k < parser.parsers@.len()
            ==> deterministic(#[trigger] parser.parsers@[k]),
    ensures
        deterministic(parser),
{
    let parsers = parser.parsers@;
    assert forall|input: Position, a: Outcome<T>, b: Outcome<T>|
        input.wf() && #[trigger] parser.yields(input, a) && #[trigger] parser.yields(
            input,
            b,
        ) implies a == b by {
        let fa = choose|failures: Seq<Failure>|
            {
                &&& failures.len() <= parsers.len()
                &&& forall|k: int|
                    0 <= k < failures.len() ==> (#[trigger] parsers[k]).yields(
                        input,
                        Verdict::Fail(failures[k]),
                    )
                &&& if failures.len() == parsers.len() {
                    a == Verdict::<T::V>::Fail(combined(failures, input))
                } else {
                    a is Pass && parsers[failures.len() as int].yields(input, a)
                }
            };
        let fb = choose|failures: Seq<Failure>|
            {
                &&& failures.len() <= parsers.len()
                &&& forall|k: int|
                    0 <= k < failures.len() ==> (#[trigger] parsers[k]).yields(
                        input,
                        Verdict::Fail(failures[k]),
                    )
                &&& if failures.len() == parsers.len() {
                    b == Verdict::<T::V>::Fail(combined(failures, input))
                } else {
                    b is Pass && parsers[failures.len() as int].yields(input, b)
                }
            };
        if fa.len() < fb.len() {
            let k = fa.len() as int;
            assert(parsers[k].yields(input, Verdict::Fail(fb[k])));
            assert(false);
        }
        if fb.len() < fa.len() {
            let k = fb.len() as int;
            assert(parsers[k].yields(input, Verdict::Fail(fa[k])));
            assert(false);
        }
        assert forall|k: int| 0 <= k < fa.len() implies fa[k] == fb[k] by {
            assert(parsers[k].yields(input, Verdict::Fail(fa[k])));
            assert(parsers[k].yields(input, Verdict::Fail(fb[k])));
            assert(Verdict::<T::V>::Fail(fa[k]) == Verdict::<T::V>::Fail(fb[k]));
        }
        assert(fa =~= fb);
    }
}

/// Folding from the left with a single-valued `eval` has one result.
pub proof fn lemma_folds_left_single<T: DeepView, U: DeepView, F: Fn(T, U, T) -> T>(
    eval: F,
    seed: T::V,
    pairs: Seq<(U::V, T::V)>,
    a: T::V,
    b: T::V,
)
    requires
        single_valued3(eval),
        folds_left(eval, seed, pairs, a),
        folds_left(eval, seed, pairs, b),
    ensures
        a == b,
    decreases pairs.len(),
{
    if pairs.len() > 0 {
        let ma = choose|mid: T::V|
            folds_left(eval, seed, pairs.drop_last(), mid) && #[trigger] stepped(
                eval,
                mid,
                pairs.last().0,
                pairs.last().1,
                a,
            );
        let mb = choose|mid: T::V|
            folds_left(eval, seed, pairs.drop_last(), mid) && #[trigger] stepped(
                eval,
                mid,
                pairs.last().0,
                pairs.last().1,
                b,
            );
        lemma_folds_left_single(eval, seed, pairs.drop_last(), ma, mb);
    }
}

/// Folding from the right with a single-valued `eval` has one result.
pub proof fn lemma_folds_right_single<T: DeepView, U: DeepView, F: Fn(T, U, T) -> T>(
    eval: F,
    first: T::V,
    pairs: Seq<(U::V, T::V)>,
    a: T::V,
    b: T::V,
)
    requires
        single_valued3(eval),
        folds_right(eval, first, pairs, a),
        folds_right(eval, first, pairs, b),
    ensures
        a == b,
    decreases pairs.len(),
{
    if pairs.len() > 0 {
        let ra = choose|rest: T::V|
            folds_right(eval, pairs[0].1, pairs.drop_first(), rest) && #[trigger] stepped(
                eval,
                first,
                pairs[0].0,
                rest,
                a,
            );
        let rb = choose|rest: T::V|
            folds_right(eval, pairs[0].1, pairs.drop_first(), rest) && #[trigger] stepped(
                eval,
                first,
                pairs[0].0,
                rest,
                b,
            );
        lemma_folds_right_single(eval, pairs[0].1, pairs.drop_first(), ra, rb);
    }
}

/// `chainl1` is deterministic where its parsers are and `eval` is
/// single-valued.
pub proof fn lemma_chainl1_deterministic<
    T: DeepView,
    U: DeepView,
    P: Parser<T>,
    O: Parser<U>,
    F: Fn(T, U, T) -> T,
>(
    parser: ChainLeft<U, P, O, F>,
)
    requires
        parser.inv(),
        deterministic(parser.item),
        deterministic(parser.op),
        single_valued3(parser.eval),
    ensures
        deterministic(parser),
{
    let step = operated(parser.item, parser.op);
    lemma_operated_bounded(parser.item, parser.op);
    lemma_operated_single(parser.item, parser.op);
    assert forall|input: Position, a: Outcome<T>, b: Outcome<T>|
        input.wf() && #[trigger] parser.yields(input, a) && #[trigger] parser.yields(
            input,
            b,
        ) implies a == b by {
        let ra = choose|r1: Outcome<T>| #[trigger]
            parser.item.yields(input, r1) && chainl1_rest(
                parser.item,
                parser.op,
                parser.eval,
                input,
                r1,
                a,
            );
        let rb = choose|r1: Outcome<T>| #[trigger]
            parser.item.yields(input, r1) && chainl1_rest(
                parser.item,
                parser.op,
                parser.eval,
                input,
                r1,
                b,
            );
        assert(ra == rb);
        parser.item.yields_follows(input, ra);
        if let Verdict::Pass { value: v1, state: s1 } = ra {
            let r2a = choose|r2: Outcome<Vec<(U, T)>>| #[trigger]
                repeats(step, s1, r2) && chainl1_value(parser.eval, v1, r2, input, a);
            let r2b = choose|r2: Outcome<Vec<(U, T)>>| #[trigger]
                repeats(step, s1, r2) && chainl1_value(parser.eval, v1, r2, input, b);
            lemma_repeats_single(step, s1, r2a, r2b);
            if let Verdict::Pass { value: pairs, state } = r2a {
                lemma_folds_left_single(parser.eval, v1, pairs, a->value, b->value);
            }
        }
    }
}

/// `chainr1` is deterministic where its parsers are and `eval` is
/// single-valued.
pub proof fn lemma_chainr1_deterministic<
    T: DeepView,
    U: DeepView,
    P: Parser<T>,
    O: Parser<U>,
    F: Fn(T, U, T) -> T,
>(
    parser: ChainRight<U, P, O, F>,
)
    requires
        parser.inv(),
        deterministic(parser.item),
        deterministic(parser.op),
        single_valued3(parser.eval),
    ensures
        deterministic(parser),
{
    let step = operated(parser.item, parser.op);
    lemma_operated_bounded(parser.item, parser.op);
    lemma_operated_single(parser.item, parser.op);
    assert forall|input: Position, a: Outcome<T>, b: Outcome<T>|
        input.wf() && #[trigger] parser.yields(input, a) && #[trigger] parser.yields(
            input,
            b,
        ) implies a == b by {
        let ra = choose|r1: Outcome<T>| #[trigger]
            parser.item.yields(input, r1) && chainr1_rest(
                parser.item,
                parser.op,
                parser.eval,
                input,
                r1,
                a,
            );
        let rb = choose|r1: Outcome<T>| #[trigger]
            parser.item.yields(input, r1) && chainr1_rest(
                parser.item,
                parser.op,
                parser.eval,
                input,
                r1,
                b,
            );
        assert(ra == rb);
        parser.item.yields_follows(input, ra);
        if let Verdict::Pass { value: v1, state: s1 } = ra {
            let r2a = choose|r2: Outcome<Vec<(U, T)>>| #[trigger]
                repeats(step, s1, r2) && chainr1_value(parser.eval, v1, r2, input, a);
            let r2b = choose|r2: Outcome<Vec<(U, T)>>| #[trigger]
                repeats(step, s1, r2) && chainr1_value(parser.eval, v1, r2, input, b);
            lemma_repeats_single(step, s1, r2a, r2b);
            if let Verdict::Pass { value: pairs, state } = r2a {
                lemma_folds_right_single(parser.eval, v1, pairs, a->value, b->value);
            }
        }
    }
}

/// Parsing a text with a deterministic grammar has one outcome.
pub proof fn lemma_parse_deterministic<T: DeepView, P: Parser<T>>(
    parser: P,
    file: Seq<char>,
    text: Seq<char>,
    a: Outcome<T>,
    b: Outcome<T>,
)
    requires
        deterministic(parser),
        parse_yields(parser, file, text, a),
        parse_yields(parser, file, text, b),
    ensures
        a == b,
{
    assert(start(file, text).wf());
}

} // verus!
