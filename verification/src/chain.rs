//! Chains of operands and binary operators, folded from the left or from
//! the right.

use crate::parser::{apply, Outcome, Parser};
use crate::repeat::{
    advances, bounded, chained, lemma_chained_advances, lemma_meaning_bounded, meaning, repeats,
    run_repeat0, state_before, values_of, Repeat0, Round, Step,
};
use crate::sequence::{callable3, lemma_pair_borrowed, pair_yields, Pair};
use crate::state::{Position, State};
use crate::status::{reframe, verdict, Failure, Status, Succeeded, Verdict};
use std::marker::PhantomData;
use vstd::prelude::*;

verus! {

/// What follows the first operand of a chain, as a step: an operator, then
/// an operand, both of which are kept.
pub open spec fn operated<T: DeepView, U: DeepView, P: Parser<T>, O: Parser<U>>(
    item: P,
    op: O,
) -> Step<(U::V, T::V)> {
    |input: Position, out: Outcome<(U, T)>| pair_yields(op, item, input, out)
}

/// Operator and operand of well-built parsers stay within their input.
pub proof fn lemma_operated_bounded<
    T: DeepView,
    U: DeepView,
    P: Parser<T>,
    O: Parser<U>,
>(
    item: P,
    op: O,
)
    requires
        item.inv(),
        op.inv(),
    ensures
        bounded(operated(item, op)),
{
    let unit = Pair { first: op, second: item };
    assert forall|input: Position, out: Outcome<(U, T)>|
        input.wf() && #[trigger] operated(item, op)(input, out) implies out.follows(input) by {
        unit.yields_follows(input, out);
    }
}

/// `chain_suffix := (op e)*`
///
/// Parses operator and operand as often as both succeed and hands back the
/// pairs in order. Operator and operand together have to consume input.
pub fn chain_suffix<
    T: DeepView,
    U: DeepView,
    P: Parser<T>,
    O: Parser<U>,
>(
    parser: P,
    op: O,
) -> (r: Repeat0<Pair<O, P>>)
    ensures
        r.item == (Pair { first: op, second: parser }),
        r.inv() <==> parser.inv() && op.inv() && advances(operated(parser, op)),
        forall|input: Position, out: Outcome<Vec<(U, T)>>| #[trigger]
            r.yields(input, out) <==> repeats(operated(parser, op), input, out),
{
    let r = Repeat0 { item: Pair { first: op, second: parser } };
    proof {
        assert forall|i: Position, o: Outcome<(U, T)>| #[trigger]
            meaning(r.item)(i, o) == operated(parser, op)(i, o) by {}
        assert(meaning(r.item) =~= operated(parser, op));
        if r.item.inv() {
            lemma_meaning_bounded(r.item);
        }
    }
    r
}

/// `out` stands for a value that `eval` may return when called on values
/// that `lhs`, `op` and `rhs` stand for.
pub open spec fn stepped<T: DeepView, U: DeepView, F: Fn(T, U, T) -> T>(
    eval: F,
    lhs: T::V,
    op: U::V,
    rhs: T::V,
    out: T::V,
) -> bool {
    exists|a: T, u: U, b: T, r: T|
        a.deep_view() == lhs && u.deep_view() == op && b.deep_view() == rhs
            && #[trigger] eval.ensures((a, u, b), r) && r.deep_view() == out
}

/// `out` is `seed` with `pairs` folded onto it from the left: for the pairs
/// `(o1, e1), (o2, e2)` it is `eval(eval(seed, o1, e1), o2, e2)`.
pub open spec fn folds_left<T: DeepView, U: DeepView, F: Fn(T, U, T) -> T>(
    eval: F,
    seed: T::V,
    pairs: Seq<(U::V, T::V)>,
    out: T::V,
) -> bool
    decreases pairs.len(),
{
    if pairs.len() == 0 {
        out == seed
    } else {
        exists|mid: T::V|
            folds_left(eval, seed, pairs.drop_last(), mid) && #[trigger] stepped(
                eval,
                mid,
                pairs.last().0,
                pairs.last().1,
                out,
            )
    }
}

/// `out` is `first` and `pairs` folded from the right: for the pairs
/// `(o1, e1), (o2, e2)` it is `eval(first, o1, eval(e1, o2, e2))`.
pub open spec fn folds_right<T: DeepView, U: DeepView, F: Fn(T, U, T) -> T>(
    eval: F,
    first: T::V,
    pairs: Seq<(U::V, T::V)>,
    out: T::V,
) -> bool
    decreases pairs.len(),
{
    if pairs.len() == 0 {
        out == first
    } else {
        exists|rest: T::V|
            folds_right(eval, pairs[0].1, pairs.drop_first(), rest) && #[trigger] stepped(
                eval,
                first,
                pairs[0].0,
                rest,
                out,
            )
    }
}

/// The items of `items` in reverse order.
pub fn flip<T>(items: Vec<T>) -> (r: Vec<T>)
    ensures
        r@ == items@.reverse(),
{
    let ghost all = items@;
    let mut items = items;
    let mut r: Vec<T> = Vec::new();
    while items.len() > 0
        invariant
            items@.len() + r@.len() == all.len(),
            items@ == all.take(items@.len() as int),
            forall|j: int| 0 <= j < r@.len() ==> r@[j] == all[all.len() - 1 - j],
        decreases items.len(),
    {
        let item = items.pop().unwrap();
        r.push(item);
    }
    proof {
        assert(r@ =~= all.reverse());
    }
    r
}

/// Folds `pairs` onto `seed` from the left.
pub fn fold_left<T: DeepView, U: DeepView, F: Fn(T, U, T) -> T>(
    eval: &F,
    seed: T,
    pairs: Vec<(U, T)>,
) -> (r: T)
    requires
        callable3(*eval),
    ensures
        folds_left(*eval, seed.deep_view(), pairs.deep_view(), r.deep_view()),
{
    let ghost all = pairs.deep_view();
    let ghost start = seed.deep_view();
    let mut stack = flip(pairs);
    let mut acc = seed;
    let ghost mut done: int = 0;
    proof {
        assert(all.take(0) =~= Seq::<(U::V, T::V)>::empty());
    }
    while stack.len() > 0
        invariant
            callable3(*eval),
            0 <= done <= all.len(),
            stack@.len() == all.len() - done,
            forall|j: int|
                0 <= j < stack@.len() ==> (#[trigger] stack@[j]).deep_view() == all[all.len() - 1
                    - j],
            folds_left(*eval, start, all.take(done), acc.deep_view()),
        decreases stack.len(),
    {
        let ghost mid = acc.deep_view();
        let (op, rhs) = stack.pop().unwrap();
        let ghost upto = all.take(done + 1);
        proof {
            assert(upto.drop_last() =~= all.take(done));
            assert(upto.last() == (op.deep_view(), rhs.deep_view()));
        }
        acc = eval(acc, op, rhs);
        proof {
            assert(stepped(*eval, mid, upto.last().0, upto.last().1, acc.deep_view()));
            assert(folds_left(*eval, start, upto.drop_last(), mid));
            assert(folds_left(*eval, start, upto, acc.deep_view()));
            done = done + 1;
        }
    }
    proof {
        assert(all.take(done) =~= all);
    }
    acc
}

/// Folds `first` and `pairs` from the right.
pub fn fold_right<T: DeepView, U: DeepView, F: Fn(T, U, T) -> T>(
    eval: &F,
    first: T,
    pairs: Vec<(U, T)>,
) -> (r: T)
    requires
        callable3(*eval),
    ensures
        folds_right(*eval, first.deep_view(), pairs.deep_view(), r.deep_view()),
{
    let ghost all = pairs.deep_view();
    let mut stack = pairs;
    match stack.pop() {
        None => {
            assert(all.len() == 0);
            first
        },
        Some((last_op, last)) => {
            let mut op = last_op;
            let mut acc = last;
            proof {
                assert(all.skip(all.len() as int) =~= Seq::<(U::V, T::V)>::empty());
            }
            while stack.len() > 0
                invariant
                    callable3(*eval),
                    stack@.len() < all.len(),
                    forall|j: int|
                        0 <= j < stack@.len() ==> (#[trigger] stack@[j]).deep_view() == all[j],
                    op.deep_view() == all[stack@.len() as int].0,
                    folds_right(
                        *eval,
                        all[stack@.len() as int].1,
                        all.skip(stack@.len() as int + 1),
                        acc.deep_view(),
                    ),
                decreases stack.len(),
            {
                let ghost m = stack@.len() as int;
                let ghost rest = acc.deep_view();
                let (before_op, operand) = stack.pop().unwrap();
                let ghost tail = all.skip(m);
                proof {
                    assert(tail.drop_first() =~= all.skip(m + 1));
                    assert(tail[0] == all[m]);
                }
                acc = eval(operand, op, acc);
                op = before_op;
                proof {
                    assert(stepped(*eval, all[m - 1].1, tail[0].0, rest, acc.deep_view()));
                    assert(folds_right(*eval, tail[0].1, tail.drop_first(), rest));
                    assert(folds_right(*eval, all[m - 1].1, tail, acc.deep_view()));
                }
            }
            let ghost rest = acc.deep_view();
            proof {
                assert(all.drop_first() =~= all.skip(1));
                assert(all.skip(0) =~= all);
            }
            let r = eval(first, op, acc);
            proof {
                assert(stepped(*eval, first.deep_view(), all[0].0, rest, r.deep_view()));
                assert(folds_right(*eval, all[0].1, all.drop_first(), rest));
            }
            r
        },
    }
}

/// What a chain needs of its parts: the parsers are well built, operator
/// and operand together consume input, and `eval` can be called on every
/// three values.
pub open spec fn chain_inv<
    T: DeepView,
    U: DeepView,
    P: Parser<T>,
    O: Parser<U>,
    F: Fn(T, U, T) -> T,
>(
    item: P,
    op: O,
    eval: F,
) -> bool {
    &&& item.inv()
    &&& op.inv()
    &&& advances(operated(item, op))
    &&& callable3(eval)
}

/// The pairs that follow the first operand end within the input.
pub proof fn lemma_suffix_follows<T: DeepView, U: DeepView, P: Parser<T>, O: Parser<U>>(
    item: P,
    op: O,
    input: Position,
    out: Outcome<Vec<(U, T)>>,
)
    requires
        item.inv(),
        op.inv(),
        advances(operated(item, op)),
        input.wf(),
        repeats(operated(item, op), input, out),
    ensures
        out.follows(input),
{
    let step = operated(item, op);
    let (rounds, stop) = choose|
        rounds: Seq<Round<(U::V, T::V)>>,
        stop: Failure,
    |
        {
            &&& chained(step, input, rounds)
            &&& #[trigger] step(
                state_before(rounds, input, rounds.len() as int),
                Verdict::Fail(stop),
            )
            &&& out == Verdict::Pass {
                value: values_of(rounds),
                state: state_before(rounds, input, rounds.len() as int),
            }
        };
    lemma_operated_bounded(item, op);
    lemma_chained_advances(step, input, rounds, rounds.len() as int);
}

/// Parses operator and operand as often as both succeed.
pub fn run_suffix<T: DeepView, U: DeepView, P: Parser<T>, O: Parser<U>>(
    item: &P,
    op: &O,
    input: &State,
) -> (out: Status<Vec<(U, T)>>)
    requires
        item.inv(),
        op.inv(),
        advances(operated(*item, *op)),
        input@.wf(),
    ensures
        repeats(operated(*item, *op), input@, verdict(out)),
{
    let unit = Pair { first: op, second: item };
    proof {
        assert forall|i: Position, o: Outcome<(U, T)>| #[trigger]
            meaning(unit)(i, o) == operated(*item, *op)(i, o) by {
            lemma_pair_borrowed(*op, *item, i, o);
        }
        assert(meaning(unit) =~= operated(*item, *op));
        lemma_meaning_bounded(unit);
    }
    run_repeat0(&unit, input)
}

/// What [`chainl1`] makes of the verdict `r2` of the operator-operand
/// pairs that followed the first operand `v1`: the pairs are folded onto `v1` from the left.
pub open spec fn chainl1_value<T: DeepView, U: DeepView, F: Fn(T, U, T) -> T>(
    eval: F,
    v1: T::V,
    r2: Verdict<Seq<(U::V, T::V)>>,
    input: Position,
    out: Outcome<T>,
) -> bool {
    match r2 {
        Verdict::Fail(f2) => out == Verdict::<T::V>::Fail(f2.reframed(input)),
        Verdict::Pass { value: pairs, state } => match out {
            Verdict::Pass { value, state: end } => end == state && folds_left(
                eval,
                v1,
                pairs,
                value,
            ),
            Verdict::Fail(_) => false,
        },
    }
}

/// How [`chainl1`] goes on after the first operand reported `r1`.
pub open spec fn chainl1_rest<
    T: DeepView,
    U: DeepView,
    P: Parser<T>,
    O: Parser<U>,
    F: Fn(T, U, T) -> T,
>(
    item: P,
    op: O,
    eval: F,
    input: Position,
    r1: Outcome<T>,
    out: Outcome<T>,
) -> bool {
    match r1 {
        Verdict::Fail(_) => out == r1,
        Verdict::Pass { value: v1, state: s1 } => exists|
            r2: Outcome<Vec<(U, T)>>,
        | #[trigger]
            repeats(operated(item, op), s1, r2) && chainl1_value(eval, v1, r2, input, out),
    }
}

/// Meaning of [`chainl1`].
pub open spec fn chainl1_yields<
    T: DeepView,
    U: DeepView,
    P: Parser<T>,
    O: Parser<U>,
    F: Fn(T, U, T) -> T,
>(
    item: P,
    op: O,
    eval: F,
    input: Position,
    out: Outcome<T>,
) -> bool {
    exists|r1: Outcome<T>| #[trigger]
        item.yields(input, r1) && chainl1_rest(item, op, eval, input, r1, out)
}

/// Parser made by [`chainl1`]. `U` is the type of what the operator yields.
pub struct ChainLeft<U, P, O, F> {
    pub item: P,
    pub op: O,
    pub eval: F,
    pub operator: PhantomData<U>,
}

impl<T: DeepView, U: DeepView, P: Parser<T>, O: Parser<U>, F: Fn(T, U, T) -> T> Parser<
    T,
> for ChainLeft<U, P, O, F> {
    open spec fn inv(&self) -> bool {
        chain_inv(self.item, self.op, self.eval)
    }

    open spec fn yields(&self, input: Position, out: Outcome<T>) -> bool {
        chainl1_yields(self.item, self.op, self.eval, input, out)
    }

    proof fn yields_follows(&self, input: Position, out: Outcome<T>) {
        let r1 = choose|r1: Outcome<T>| #[trigger]
            self.item.yields(input, r1) && chainl1_rest(
                self.item,
                self.op,
                self.eval,
                input,
                r1,
                out,
            );
        self.item.yields_follows(input, r1);
        if let Verdict::Pass { value: v1, state: s1 } = r1 {
            let r2 = choose|r2: Outcome<Vec<(U, T)>>| #[trigger]
                repeats(operated(self.item, self.op), s1, r2) && chainl1_value(
                    self.eval,
                    v1,
                    r2,
                    input,
                    out,
                );
            lemma_suffix_follows(self.item, self.op, s1, r2);
        }
    }

    fn run(&self, input: &State) -> (out: Status<T>) {
        match apply(&self.item, input) {
            Err(failure) => Err(failure),
            Ok(pass1) => {
                match run_suffix(&self.item, &self.op, &pass1.new_state) {
                    Err(failure) => Err(reframe(failure, input)),
                    Ok(pass2) => {
                        let value = fold_left(&self.eval, pass1.value, pass2.value);
                        Ok(Succeeded { new_state: pass2.new_state, value })
                    },
                }
            },
        }
    }
}

/// `chainl1 := e (op e)*`
///
/// Left associative binary operator: parses one `parser`, then `op` and `parser`
/// as often as both succeed, and folds the operands with `eval` from the
/// left, so that `a - b - c` is read as `(a - b) - c`.
pub fn chainl1<
    T: DeepView,
    U: DeepView,
    P: Parser<T>,
    O: Parser<U>,
    F: Fn(T, U, T) -> T,
>(
    parser: P,
    op: O,
    eval: F,
) -> (r: ChainLeft<U, P, O, F>)
    ensures
        r.item == parser,
        r.op == op,
        r.eval == eval,
        r.inv() <==> chain_inv(parser, op, eval),
        forall|input: Position, out: Outcome<T>| #[trigger]
            r.yields(input, out) <==> chainl1_yields(parser, op, eval, input, out),
{
    let r = ChainLeft { item: parser, op, eval, operator: PhantomData };
    proof {
        assert(r.inv() <==> chain_inv(r.item, r.op, r.eval));
        assert forall|input: Position, out: Outcome<T>| #[trigger]
            r.yields(input, out) <==> chainl1_yields(r.item, r.op, r.eval, input, out) by {}
    }
    r
}

/// What [`chainr1`] makes of the verdict `r2` of the operator-operand
/// pairs that followed the first operand `v1`: `v1` and the pairs are folded from the right.
pub open spec fn chainr1_value<T: DeepView, U: DeepView, F: Fn(T, U, T) -> T>(
    eval: F,
    v1: T::V,
    r2: Verdict<Seq<(U::V, T::V)>>,
    input: Position,
    out: Outcome<T>,
) -> bool {
    match r2 {
        Verdict::Fail(f2) => out == Verdict::<T::V>::Fail(f2.reframed(input)),
        Verdict::Pass { value: pairs, state } => match out {
            Verdict::Pass { value, state: end } => end == state && folds_right(
                eval,
                v1,
                pairs,
                value,
            ),
            Verdict::Fail(_) => false,
        },
    }
}

/// How [`chainr1`] goes on after the first operand reported `r1`.
pub open spec fn chainr1_rest<
    T: DeepView,
    U: DeepView,
    P: Parser<T>,
    O: Parser<U>,
    F: Fn(T, U, T) -> T,
>(
    item: P,
    op: O,
    eval: F,
    input: Position,
    r1: Outcome<T>,
    out: Outcome<T>,
) -> bool {
    match r1 {
        Verdict::Fail(_) => out == r1,
        Verdict::Pass { value: v1, state: s1 } => exists|
            r2: Outcome<Vec<(U, T)>>,
        | #[trigger]
            repeats(operated(item, op), s1, r2) && chainr1_value(eval, v1, r2, input, out),
    }
}

/// Meaning of [`chainr1`].
pub open spec fn chainr1_yields<
    T: DeepView,
    U: DeepView,
    P: Parser<T>,
    O: Parser<U>,
    F: Fn(T, U, T) -> T,
>(
    item: P,
    op: O,
    eval: F,
    input: Position,
    out: Outcome<T>,
) -> bool {
    exists|r1: Outcome<T>| #[trigger]
        item.yields(input, r1) && chainr1_rest(item, op, eval, input, r1, out)
}

/// Parser made by [`chainr1`]. `U` is the type of what the operator yields.
pub struct ChainRight<U, P, O, F> {
    pub item: P,
    pub op: O,
    pub eval: F,
    pub operator: PhantomData<U>,
}

impl<T: DeepView, U: DeepView, P: Parser<T>, O: Parser<U>, F: Fn(T, U, T) -> T> Parser<
    T,
> for ChainRight<U, P, O, F> {
    open spec fn inv(&self) -> bool {
        chain_inv(self.item, self.op, self.eval)
    }

    open spec fn yields(&self, input: Position, out: Outcome<T>) -> bool {
        chainr1_yields(self.item, self.op, self.eval, input, out)
    }

    proof fn yields_follows(&self, input: Position, out: Outcome<T>) {
        let r1 = choose|r1: Outcome<T>| #[trigger]
            self.item.yields(input, r1) && chainr1_rest(
                self.item,
                self.op,
                self.eval,
                input,
                r1,
                out,
            );
        self.item.yields_follows(input, r1);
        if let Verdict::Pass { value: v1, state: s1 } = r1 {
            let r2 = choose|r2: Outcome<Vec<(U, T)>>| #[trigger]
                repeats(operated(self.item, self.op), s1, r2) && chainr1_value(
                    self.eval,
                    v1,
                    r2,
                    input,
                    out,
                );
            lemma_suffix_follows(self.item, self.op, s1, r2);
        }
    }

    fn run(&self, input: &State) -> (out: Status<T>) {
        match apply(&self.item, input) {
            Err(failure) => Err(failure),
            Ok(pass1) => {
                match run_suffix(&self.item, &self.op, &pass1.new_state) {
                    Err(failure) => Err(reframe(failure, input)),
                    Ok(pass2) => {
                        let value = fold_right(&self.eval, pass1.value, pass2.value);
                        Ok(Succeeded { new_state: pass2.new_state, value })
                    },
                }
            },
        }
    }
}

/// `chainr1 := e (op e)*`
///
/// Right associative binary operator: parses one `parser`, then `op` and `parser`
/// as often as both succeed, and folds the operands with `eval` from the
/// right, so that `a ^ b ^ c` is read as `a ^ (b ^ c)`.
pub fn chainr1<
    T: DeepView,
    U: DeepView,
    P: Parser<T>,
    O: Parser<U>,
    F: Fn(T, U, T) -> T,
>(
    parser: P,
    op: O,
    eval: F,
) -> (r: ChainRight<U, P, O, F>)
    ensures
        r.item == parser,
        r.op == op,
        r.eval == eval,
        r.inv() <==> chain_inv(parser, op, eval),
        forall|input: Position, out: Outcome<T>| #[trigger]
            r.yields(input, out) <==> chainr1_yields(parser, op, eval, input, out),
{
    let r = ChainRight { item: parser, op, eval, operator: PhantomData };
    proof {
        assert(r.inv() <==> chain_inv(r.item, r.op, r.eval));
        assert forall|input: Position, out: Outcome<T>| #[trigger]
            r.yields(input, out) <==> chainr1_yields(r.item, r.op, r.eval, input, out) by {}
    }
    r
}

} // verus!
