//! Running a grammar on a text.

use crate::parser::{apply, Outcome, Parser};
use crate::state::{Position, State, EOT};
use crate::status::{verdict, Failed, Status, Verdict};
use std::rc::Rc;
use vstd::prelude::*;

verus! {

/// The characters of `text` with the end marker behind them.
pub fn chars_with_eot(text: &str) -> (r: Vec<char>)
    ensures
        r@ == text@.push(EOT),
{
    let mut chars: Vec<char> = Vec::new();
    for c in it: text.chars()
        invariant
            it.seq() == text@,
            chars@ == it.seq().take(it.index() as int),
    {
        chars.push(c);
    }
    chars.push(EOT);
    chars
}

/// Where parsing of `text` from `file` starts: at the first character, on
/// line one, with the end marker behind the text.
pub open spec fn start(file: Seq<char>, text: Seq<char>) -> Position {
    Position { file, text: text.push(EOT), index: 0, line: 1 }
}

/// What opens every message that [`parse`] hands to the user.
pub open spec fn expected_prefix() -> Seq<char> {
    "Expected "@
}

/// The verdict `r` as [`parse`] reports it: the message of a failure is
/// prefixed.
pub open spec fn reported<V>(r: Verdict<V>) -> Verdict<V> {
    match r {
        Verdict::Pass { .. } => r,
        Verdict::Fail(failure) => Verdict::Fail(
            failure.relabelled(expected_prefix() + failure.mesg),
        ),
    }
}

/// Meaning of [`parse`]: the verdict of `parser` on the start of the text,
/// as reported to the user.
pub open spec fn parse_yields<T: DeepView, P: Parser<T>>(
    parser: P,
    file: Seq<char>,
    text: Seq<char>,
    out: Outcome<T>,
) -> bool {
    exists|r: Outcome<T>| #[trigger]
        parser.yields(start(file, text), r) && out == reported(r)
}

/// The state on which the parsing of `text` from `file` starts.
pub fn initial_state(file: &str, text: &str) -> (r: State)
    ensures
        r@ == start(file@, text@),
        r@.wf(),
{
    State {
        file: Rc::new(String::from_str(file)),
        text: Rc::new(chars_with_eot(text)),
        index: 0,
        line: 1,
    }
}

/// Uses `parser` to parse `text`, which came from `file`. The outcome is
/// that of `parser` on the whole text; the message of a failure gets
/// `"Expected "` in front.
pub fn parse<T: DeepView, P: Parser<T>>(parser: &P, file: &str, text: &str) -> (out: Status<T>)
    requires
        parser.inv(),
    ensures
        parse_yields(*parser, file@, text@, verdict(out)),
{
    let input = initial_state(file, text);
    match apply(parser, &input) {
        Ok(pass) => Ok(pass),
        Err(failure) => {
            let mesg = String::from_str("Expected ").concat(failure.mesg.as_str());
            Err(Failed { old_state: failure.old_state, err_state: failure.err_state, mesg })
        },
    }
}

} // verus!
