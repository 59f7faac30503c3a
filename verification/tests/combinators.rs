// The combinators one by one, over two small lexical rules.

use rparse::basic::{fails, return_value};
use rparse::chain::{chain_suffix, chainl1, chainr1, flip, fold_left, fold_right, run_suffix};
use rparse::choice::{alternative, merge_failures, optional, or, tag};
use rparse::entry::{chars_with_eot, initial_state, parse};
use rparse::fluent::Fluent;
use rparse::forward::{forward_ref, run_held, Slot, Unconstrained};
use rparse::message::connect;
use rparse::parser::{apply, boxed, from_fn, Boxed, Parser};
use rparse::repeat::{list, repeat0, repeat1, run_repeat0};
use rparse::sequence::{_then, pair, sequence2, sequence3, sequence4, then};
use rparse::state::{State, EOT};
use rparse::status::{reframe, Failed, Status, Succeeded};
use vstd::view::DeepView;

fn failed<T>(input: &State, at: usize, mesg: &str) -> Status<T> {
    Err(Failed { old_state: input.duplicate(), err_state: input.with_index(at), mesg: mesg.to_string() })
}

// Matches `s` exactly. The failure points at the first character that
// differs, so a partial match fails behind the input.
fn lit(s: &'static str) -> Boxed<String> {
    boxed(from_fn(move |input: State| {
        let mut at = input.index;
        for c in s.chars() {
            if at < input.text.len() && input.text[at] == c {
                at += 1;
            } else {
                return failed(&input, at, &format!("'{}'", s));
            }
        }
        Ok(Succeeded { new_state: input.with_index(at), value: s.to_string() })
    }))
}

// One decimal digit.
fn digit() -> Boxed<i64> {
    boxed(from_fn(|input: State| {
        if input.index < input.text.len() && input.text[input.index].is_ascii_digit() {
            let value = input.text[input.index].to_digit(10).unwrap() as i64;
            Ok(Succeeded { new_state: input.with_index(input.index + 1), value })
        } else {
            failed(&input, input.index, "digit")
        }
    }))
}

fn run<T: DeepView, P: Parser<T>>(parser: &P, text: &str) -> Status<T> {
    parser.run(&initial_state("test", text))
}

fn value_of<T>(status: Status<T>) -> (T, usize) {
    match status {
        Ok(pass) => (pass.value, pass.new_state.index),
        Err(failure) => panic!("failed with '{}' at {}", failure.mesg, failure.err_state.index),
    }
}

fn failure_of<T>(status: Status<T>) -> (String, usize, usize) {
    match status {
        Ok(pass) => panic!("succeeded at {}", pass.new_state.index),
        Err(failure) => (failure.mesg, failure.old_state.index, failure.err_state.index),
    }
}

#[test]
fn chars_with_eot_appends_the_marker() {
    assert_eq!(chars_with_eot("ab"), vec!['a', 'b', EOT]);
    assert_eq!(chars_with_eot(""), vec![EOT]);
    assert_eq!(EOT, '\u{3}');
}

#[test]
fn initial_state_is_at_the_start() {
    let state = initial_state("here", "x\ny");
    assert_eq!(*state.file, "here");
    assert_eq!(*state.text, vec!['x', '\n', 'y', EOT]);
    assert_eq!(state.index, 0);
    assert_eq!(state.line, 1);
}

#[test]
fn duplicate_and_with_index_keep_the_input() {
    let state = initial_state("here", "abc");
    let copy = state.duplicate();
    assert_eq!((copy.index, copy.line), (0, 1));
    assert_eq!(*copy.text, *state.text);
    let moved = state.with_index(2);
    assert_eq!((moved.index, moved.line), (2, 1));
    assert_eq!(*moved.text, *state.text);
    assert_eq!(*moved.file, "here");
}

#[test]
fn advance_counts_line_feeds() {
    let state = initial_state("here", "a\nb\r\n\nc");
    let moved = state.advance(0);
    assert_eq!((moved.index, moved.line), (0, 1));
    let moved = state.advance(1);
    assert_eq!((moved.index, moved.line), (1, 1));
    let moved = state.advance(2);
    assert_eq!((moved.index, moved.line), (2, 2));
    // A carriage return alone does not end a line.
    let moved = moved.advance(2);
    assert_eq!((moved.index, moved.line), (4, 2));
    let moved = state.advance(7);
    assert_eq!((moved.index, moved.line), (7, 4));
    assert_eq!(moved.text[7], EOT);
    assert_eq!(*moved.file, "here");
}

#[test]
fn connect_joins_with_separator() {
    assert_eq!(connect(&vec![], " or "), "");
    assert_eq!(connect(&vec!["a".to_string()], " or "), "a");
    assert_eq!(connect(&vec!["a".to_string(), "b".to_string(), "c".to_string()], " or "), "a or b or c");
}

#[test]
fn fails_always_fails_at_the_input() {
    let p = fails::<i64>("nothing");
    assert_eq!(failure_of(run(&p, "abc")), ("nothing".to_string(), 0, 0));
    let at = initial_state("test", "abc").with_index(2);
    assert_eq!(failure_of(p.run(&at)), ("nothing".to_string(), 2, 2));
}

#[test]
fn return_value_succeeds_without_consuming() {
    let p = return_value(7i64);
    assert_eq!(value_of(run(&p, "abc")), (7, 0));
    assert_eq!(value_of(run(&p, "")), (7, 0));
}

#[test]
fn apply_runs_the_parser() {
    assert_eq!(value_of(apply(&digit(), &initial_state("test", "5"))), (5, 1));
}

#[test]
fn reframe_replaces_the_frame_only() {
    let input = initial_state("test", "abcdef");
    let failure = Failed { old_state: input.with_index(3), err_state: input.with_index(5), mesg: "m".to_string() };
    let r = reframe(failure, &input.with_index(1));
    assert_eq!((r.old_state.index, r.err_state.index, r.mesg.as_str()), (1, 5, "m"));
}

#[test]
fn then_feeds_the_value_to_eval() {
    // A digit n, then n times the letter x.
    let p = then(digit(), |n: i64| if n == 2 { lit("xx") } else { lit("x") });
    assert_eq!(value_of(run(&p, "2xx")), ("xx".to_string(), 3));
    assert_eq!(value_of(run(&p, "1x")), ("x".to_string(), 2));
}

#[test]
fn then_does_not_call_eval_on_failure() {
    let p = then(digit(), |_n: i64| -> Boxed<String> { panic!("eval was called") });
    assert_eq!(failure_of(run(&p, "x")), ("digit".to_string(), 0, 0));
}

#[test]
fn then_rebases_the_second_failure() {
    let p = then(digit(), |_n: i64| lit("xy"));
    // The second parser starts at 1 and gets as far as 2.
    assert_eq!(failure_of(run(&p, "1xz")), ("'xy'".to_string(), 0, 2));
}

#[test]
fn skip_then_drops_the_first_value() {
    let p = _then(lit("a"), digit());
    assert_eq!(value_of(run(&p, "a7")), (7, 2));
    assert_eq!(failure_of(run(&p, "b7")), ("'a'".to_string(), 0, 0));
    assert_eq!(failure_of(run(&p, "ab")), ("digit".to_string(), 0, 1));
}

#[test]
fn pair_keeps_both_values() {
    let p = pair(lit("a"), digit());
    assert_eq!(value_of(run(&p, "a7")), (("a".to_string(), 7), 2));
    assert_eq!(failure_of(run(&p, "ab")), ("digit".to_string(), 0, 1));
}

#[test]
fn sequence2_combines_two_values() {
    let p = sequence2(digit(), digit(), |a: i64, b: i64| a * 10 + b);
    assert_eq!(value_of(run(&p, "42")), (42, 2));
    assert_eq!(failure_of(run(&p, "4x")), ("digit".to_string(), 0, 1));
    assert_eq!(failure_of(run(&p, "x")), ("digit".to_string(), 0, 0));
}

#[test]
fn sequence3_combines_three_values() {
    let p = sequence3(digit(), lit("+"), digit(), |a: i64, _op: String, b: i64| a + b);
    assert_eq!(value_of(run(&p, "4+5")), (9, 3));
    assert_eq!(failure_of(run(&p, "4+x")), ("digit".to_string(), 0, 2));
    assert_eq!(failure_of(run(&p, "4-5")), ("'+'".to_string(), 0, 1));
}

#[test]
fn sequence4_combines_four_values() {
    let p = sequence4(lit("("), digit(), digit(), lit(")"), |_l: String, a: i64, b: i64, _r: String| a * b);
    assert_eq!(value_of(run(&p, "(34)")), (12, 4));
    assert_eq!(failure_of(run(&p, "(34")), ("')'".to_string(), 0, 3));
    assert_eq!(failure_of(run(&p, "(3)")), ("digit".to_string(), 0, 2));
}

#[test]
fn or_takes_the_first_success() {
    let p = or(lit("ab"), lit("a"));
    assert_eq!(value_of(run(&p, "abc")), ("ab".to_string(), 2));
    assert_eq!(value_of(run(&p, "ac")), ("a".to_string(), 1));
}

#[test]
fn or_reports_the_furthest_failure() {
    // The first alternative consumes three characters before it fails, the
    // second none.
    let p = or(lit("abcd"), lit("x"));
    assert_eq!(failure_of(run(&p, "abcz")), ("'abcd'".to_string(), 0, 3));
    let q = or(lit("x"), lit("abcd"));
    assert_eq!(failure_of(run(&q, "abcz")), ("'abcd'".to_string(), 0, 3));
}

#[test]
fn or_merges_messages_on_a_tie() {
    let p = or(lit("x"), lit("y"));
    assert_eq!(failure_of(run(&p, "z")), ("'x' or 'y'".to_string(), 0, 0));
}

#[test]
fn merge_failures_picks_or_merges() {
    let input = initial_state("test", "abcdef");
    let make = |at: usize, mesg: &str| Failed { old_state: input.duplicate(), err_state: input.with_index(at), mesg: mesg.to_string() };
    let r = merge_failures(make(3, "a"), make(1, "b"));
    assert_eq!((r.mesg.as_str(), r.err_state.index), ("a", 3));
    let r = merge_failures(make(1, "a"), make(3, "b"));
    assert_eq!((r.mesg.as_str(), r.err_state.index), ("b", 3));
    let r = merge_failures(make(2, "a"), make(2, "b"));
    assert_eq!((r.mesg.as_str(), r.err_state.index), ("a or b", 2));
}

#[test]
fn alternative_takes_the_first_success() {
    let p = alternative(vec![lit("x"), lit("ab"), lit("a")]);
    assert_eq!(value_of(run(&p, "abc")), ("ab".to_string(), 2));
}

#[test]
fn alternative_reports_the_furthest_failure() {
    let p = alternative(vec![lit("x"), lit("abcd"), lit("ay")]);
    // 'x' stops at 0, 'abcd' at 3, 'ay' at 1.
    assert_eq!(failure_of(run(&p, "abcz")), ("'abcd'".to_string(), 0, 3));
}

#[test]
fn alternative_joins_the_messages_tied_at_the_furthest() {
    let p = alternative(vec![lit("x"), lit("ab"), lit("y"), lit("ac")]);
    // 'ab' and 'ac' both stop at 1; the two that stop at 0 are dropped.
    assert_eq!(failure_of(run(&p, "az")), ("'ab' or 'ac'".to_string(), 0, 1));
    let q = alternative(vec![lit("x"), lit("y"), lit("z")]);
    assert_eq!(failure_of(run(&q, "a")), ("'x' or 'y' or 'z'".to_string(), 0, 0));
}

// Matches `s` as `lit` does, and counts the lines it crossed before it
// failed.
fn lit_with_lines(s: &'static str) -> Boxed<String> {
    boxed(from_fn(move |input: State| {
        let mut matched = 0;
        for c in s.chars() {
            if input.index + matched < input.text.len() && input.text[input.index + matched] == c {
                matched += 1;
            } else {
                return Err(Failed {
                    old_state: input.duplicate(),
                    err_state: input.advance(matched),
                    mesg: format!("'{}'", s),
                });
            }
        }
        Ok(Succeeded { new_state: input.advance(matched), value: s.to_string() })
    }))
}

#[test]
fn alternative_failure_has_the_line_of_the_deepest_failure() {
    // The second alternative crosses a line end before it fails; the first
    // and the third stop earlier, on the line of the input.
    let p = alternative(vec![lit_with_lines("ax"), lit_with_lines("a\nbc"), lit_with_lines("x")]);
    match run(&p, "a\nbz") {
        Ok(_) => panic!("succeeded"),
        Err(failure) => {
            assert_eq!((failure.err_state.index, failure.err_state.line), (3, 2));
            assert_eq!((failure.old_state.index, failure.old_state.line), (0, 1));
            assert_eq!(failure.mesg, "'a\nbc'");
        }
    }
    // Of two that get equally far, the point is that of the first.
    let q = alternative(vec![lit_with_lines("a\nx"), lit_with_lines("a\ny")]);
    match run(&q, "a\nbz") {
        Ok(_) => panic!("succeeded"),
        Err(failure) => {
            assert_eq!((failure.err_state.index, failure.err_state.line), (2, 2));
            assert_eq!(failure.mesg, "'a\nx' or 'a\ny'");
        }
    }
    // Where nothing gets past the input, the point is on the input's line.
    let input = State { line: 4, ..initial_state("test", "az") };
    match alternative(vec![lit("x"), lit("y")]).run(&input) {
        Ok(_) => panic!("succeeded"),
        Err(failure) => {
            assert_eq!((failure.err_state.index, failure.err_state.line), (0, 4));
            assert_eq!(failure.mesg, "'x' or 'y'");
        }
    }
}

#[test]
fn optional_never_fails() {
    let p = optional(lit("abcd"), "none".to_string());
    assert_eq!(value_of(run(&p, "abcd")), ("abcd".to_string(), 4));
    // Three characters matched before the failure; nothing is consumed.
    assert_eq!(value_of(run(&p, "abcz")), ("none".to_string(), 0));
    assert_eq!(value_of(run(&p, "")), ("none".to_string(), 0));
}

#[test]
fn repeat0_collects_until_failure() {
    let p = repeat0(digit());
    assert_eq!(value_of(run(&p, "123a")), (vec![1, 2, 3], 3));
    assert_eq!(value_of(run(&p, "a")), (vec![], 0));
    assert_eq!(value_of(run(&p, "")), (vec![], 0));
}

#[test]
fn repeat0_consumes_in_every_round() {
    // Each round of a two-character item moves the cursor by two.
    let p = repeat0(lit("ab"));
    let (values, index) = value_of(run(&p, "abababa"));
    assert_eq!(values.len(), 3);
    assert_eq!(index, 6);
    let from = initial_state("test", "xxabab").with_index(2);
    let (values, index) = value_of(p.run(&from));
    assert_eq!(values.len(), 2);
    assert_eq!(index, 6);
}

#[test]
fn run_repeat0_and_run_suffix_collect() {
    let input = initial_state("test", "12+3+");
    assert_eq!(value_of(run_repeat0(&digit(), &input)), (vec![1, 2], 2));
    let behind = input.with_index(2);
    assert_eq!(
        value_of(run_suffix(&digit(), &lit("+"), &behind)),
        (vec![("+".to_string(), 3)], 4)
    );
}

#[test]
fn repeat1_needs_one_success() {
    let p = repeat1(digit(), "digits");
    assert_eq!(value_of(run(&p, "123a")), (vec![1, 2, 3], 3));
    assert_eq!(value_of(run(&p, "1")), (vec![1], 1));
    assert_eq!(failure_of(run(&p, "a")), ("digits".to_string(), 0, 0));
}

#[test]
fn list_with_no_separator_has_one_element() {
    let p = list(digit(), lit(","));
    assert_eq!(value_of(run(&p, "7")), (vec![7], 1));
    assert_eq!(value_of(run(&p, "7;8")), (vec![7], 1));
}

#[test]
fn list_collects_items_and_drops_separators() {
    let p = list(digit(), lit(","));
    assert_eq!(value_of(run(&p, "1,2,3")), (vec![1, 2, 3], 5));
    // A separator without an item behind it is not consumed.
    assert_eq!(value_of(run(&p, "1,2,")), (vec![1, 2], 3));
}

#[test]
fn list_fails_only_if_the_first_item_fails() {
    let p = list(digit(), lit(","));
    assert_eq!(failure_of(run(&p, ",1")), ("digit".to_string(), 0, 0));
    assert_eq!(failure_of(run(&p, "")), ("digit".to_string(), 0, 0));
}

#[test]
fn chain_suffix_collects_operator_operand_pairs() {
    let p = chain_suffix(digit(), lit("-"));
    assert_eq!(value_of(run(&p, "-3-2")), (vec![("-".to_string(), 3), ("-".to_string(), 2)], 4));
    assert_eq!(value_of(run(&p, "3")), (vec![], 0));
    assert_eq!(value_of(run(&p, "-3-")), (vec![("-".to_string(), 3)], 2));
}

#[test]
fn chainl1_is_left_associative() {
    let p = chainl1(digit(), lit("-"), |lhs: i64, _op: String, rhs: i64| lhs - rhs);
    assert_eq!(value_of(run(&p, "9-3-2")), (4, 5));
    assert_eq!(value_of(run(&p, "9")), (9, 1));
    assert_eq!(value_of(run(&p, "9-")), (9, 1));
    assert_eq!(failure_of(run(&p, "-")), ("digit".to_string(), 0, 0));
}

#[test]
fn chainr1_is_right_associative() {
    let p = chainr1(digit(), lit("^"), |lhs: i64, _op: String, rhs: i64| lhs.pow(rhs as u32));
    assert_eq!(value_of(run(&p, "2^3^2")), (512, 5));
    assert_eq!(value_of(run(&p, "2^3")), (8, 3));
    assert_eq!(value_of(run(&p, "2")), (2, 1));
    assert_eq!(failure_of(run(&p, "^")), ("digit".to_string(), 0, 0));
}

#[test]
fn chainr1_pairs_each_operator_with_its_operands() {
    let p = chainr1(digit(), or(lit("-"), lit("+")), |lhs: i64, op: String, rhs: i64| if op == "-" { lhs - rhs } else { lhs + rhs });
    // 9 - (3 + (2 - 1))
    assert_eq!(value_of(run(&p, "9-3+2-1")), (5, 7));
}

#[test]
fn fold_left_and_fold_right_group_differently() {
    let sub = |lhs: i64, _op: char, rhs: i64| lhs - rhs;
    assert_eq!(fold_left(&sub, 9, vec![('-', 3), ('-', 2)]), 4);
    assert_eq!(fold_right(&sub, 9, vec![('-', 3), ('-', 2)]), 8);
    assert_eq!(fold_left(&sub, 9, vec![]), 9);
    assert_eq!(fold_right(&sub, 9, vec![]), 9);
    assert_eq!(fold_left(&sub, 9, vec![('-', 3)]), 6);
    assert_eq!(fold_right(&sub, 9, vec![('-', 3)]), 6);
}

#[test]
fn flip_reverses() {
    assert_eq!(flip(vec![1, 2, 3]), vec![3, 2, 1]);
    assert_eq!(flip(Vec::<i64>::new()), vec![]);
}

#[test]
fn tag_overrides_only_failures_without_progress() {
    let p = tag(lit("abcd"), "X");
    assert_eq!(failure_of(run(&p, "zbcd")), ("X".to_string(), 0, 0));
    assert_eq!(failure_of(run(&p, "abcz")), ("'abcd'".to_string(), 0, 3));
    assert_eq!(value_of(run(&p, "abcd")), ("abcd".to_string(), 4));
}

#[test]
fn forward_ref_runs_what_the_cell_holds() {
    let cell: Slot<i64, Unconstrained> = Slot::new(boxed(return_value(0i64)));
    let p = forward_ref(&cell);
    // Before the assignment the cell holds what it was made with.
    assert_eq!(value_of(run(&p, "5")), (0, 0));
    assert!(cell.assign(digit()).is_ok());
    assert_eq!(value_of(run(&p, "5")), (5, 1));
    // The cell is written once; what it does not take comes back.
    match cell.assign(boxed(return_value(9i64))) {
        Ok(_) => panic!("a second assignment was taken"),
        Err(back) => assert_eq!(value_of(run(&back, "5")), (9, 0)),
    }
    assert_eq!(value_of(run(&p, "5")), (5, 1));
    let other = forward_ref(&cell.duplicate());
    assert_eq!(value_of(run(&other, "6")), (6, 1));
}

#[test]
fn run_held_runs_the_later_parser_if_there_is_one() {
    let first = boxed(return_value(0i64));
    let later = boxed(return_value(5i64));
    let input = initial_state("test", "x");
    assert_eq!(value_of(run_held::<i64, Unconstrained>(Some(&later), &first, &input)), (5, 0));
    assert_eq!(value_of(run_held::<i64, Unconstrained>(None, &first, &input)), (0, 0));
    // A failure of the later parser is reported; the first is not tried.
    assert_eq!(
        failure_of(run_held::<i64, Unconstrained>(Some(&digit()), &first, &input)),
        ("digit".to_string(), 0, 0)
    );
}

#[test]
fn forward_ref_runs_the_parser_assigned_after_it_was_made() {
    // The reference is made while the cell holds its first parser, and run
    // after the cell was assigned to.
    let cell: Slot<i64, Unconstrained> = Slot::new(boxed(return_value(0i64)));
    let r = forward_ref(&cell);
    assert!(cell.assign(boxed(return_value(5i64))).is_ok());
    assert_eq!(value_of(run(&r, "x")), (5, 0));
}

#[test]
fn forward_ref_closes_a_cycle() {
    // nested := digit | '(' nested ')'
    let cell: Slot<i64, Unconstrained> = Slot::new(boxed(fails::<i64>("nested")));
    let inner = sequence3(lit("("), forward_ref(&cell), lit(")"), |_l: String, v: i64, _r: String| v + 1);
    assert!(cell.assign(boxed(or(digit(), inner))).is_ok());
    let p = forward_ref(&cell);
    assert_eq!(value_of(run(&p, "((7))")), (9, 5));
    assert_eq!(failure_of(run(&p, "((7)")), ("')'".to_string(), 0, 4));
}

#[test]
fn parse_prefixes_the_message() {
    match parse(&digit(), "file", "x") {
        Ok(_) => panic!("succeeded"),
        Err(failure) => {
            assert_eq!(failure.mesg, "Expected digit");
            assert_eq!((failure.err_state.index, failure.err_state.line), (0, 1));
            assert_eq!(*failure.err_state.file, "file");
        }
    }
}

#[test]
fn parse_hands_back_the_value() {
    match parse(&repeat1(digit(), "digits"), "file", "12") {
        Ok(pass) => {
            assert_eq!(pass.value, vec![1, 2]);
            assert_eq!(pass.new_state.index, 2);
            assert_eq!(pass.new_state.text[2], EOT);
        }
        Err(failure) => panic!("failed with '{}'", failure.mesg),
    }
}

#[test]
fn parsing_twice_gives_the_same_result() {
    let p = chainl1(digit(), or(lit("-"), lit("+")), |lhs: i64, op: String, rhs: i64| if op == "-" { lhs - rhs } else { lhs + rhs });
    let first = value_of(parse(&p, "file", "9-3+2"));
    let second = value_of(parse(&p, "file", "9-3+2"));
    assert_eq!(first, (8, 5));
    assert_eq!(first, second);
    let q = sequence2(digit(), lit("!"), |a: i64, _b: String| a);
    assert_eq!(failure_of(parse(&q, "file", "1?")), failure_of(parse(&q, "file", "1?")));
    assert_eq!(failure_of(parse(&q, "file", "1?")), ("Expected '!'".to_string(), 0, 1));
}

#[test]
fn methods_do_what_the_functions_do() {
    assert_eq!(value_of(run(&digit().then(|n: i64| if n == 2 { lit("xx") } else { lit("x") }), "2xx")), ("xx".to_string(), 3));
    assert_eq!(value_of(run(&lit("a")._then(digit()), "a7")), (7, 2));
    assert_eq!(failure_of(run(&lit("x").or(lit("y")), "z")), ("'x' or 'y'".to_string(), 0, 0));
    assert_eq!(value_of(run(&lit("abcd").optional("none".to_string()), "abcz")), ("none".to_string(), 0));
    assert_eq!(value_of(run(&digit().repeat0(), "12a")), (vec![1, 2], 2));
    assert_eq!(failure_of(run(&digit().repeat1("digits"), "a")), ("digits".to_string(), 0, 0));
    assert_eq!(value_of(run(&digit().list(lit(",")), "1,2,")), (vec![1, 2], 3));
    assert_eq!(value_of(run(&digit().chain_suffix(lit("-")), "-3-")), (vec![("-".to_string(), 3)], 2));
    assert_eq!(value_of(run(&digit().chainl1(lit("-"), |lhs: i64, _op: String, rhs: i64| lhs - rhs), "9-3-2")), (4, 5));
    assert_eq!(value_of(run(&digit().chainr1(lit("-"), |lhs: i64, _op: String, rhs: i64| lhs - rhs), "9-3-2")), (8, 5));
    assert_eq!(failure_of(run(&lit("abcd").tag("X"), "zbcd")), ("X".to_string(), 0, 0));
    assert_eq!(failure_of(digit().parse("file", "x")), ("Expected digit".to_string(), 0, 0));
    assert_eq!(value_of(digit().parse("file", "4")), (4, 1));
}
