// A grammar that evaluates simple arithmetic expressions, built from the
// combinators and a handful of lexical rules written as plain functions.

use rparse::choice::{alternative, or};
use rparse::fluent::Fluent;
use rparse::forward::{forward_ref, Slot, Unconstrained};
use rparse::parser::{boxed, from_fn, Boxed};
use rparse::basic::return_value;
use rparse::sequence::{_then, sequence2, sequence3, sequence4};
use rparse::state::{State, EOT};
use rparse::status::{Failed, Status, Succeeded};

fn failed<T>(input: &State, mesg: &str) -> Status<T> {
    Err(Failed { old_state: input.duplicate(), err_state: input.duplicate(), mesg: mesg.to_string() })
}

// The state behind the characters up to `from` and the blanks that follow
// them.
fn skip_blanks(input: &State, from: usize) -> State {
    let mut index = from;
    while index < input.text.len() && matches!(input.text[index], ' ' | '\t' | '\r' | '\n') {
        index += 1;
    }
    input.advance(index - input.index)
}

// literal := s [ \t\r\n]*
fn text(s: &'static str) -> Boxed<String> {
    boxed(from_fn(move |input: State| {
        let chars: Vec<char> = s.chars().collect();
        let end = input.index + chars.len();
        if end <= input.text.len() && input.text[input.index..end] == chars[..] {
            Ok(Succeeded { new_state: skip_blanks(&input, end), value: s.to_string() })
        } else {
            failed(&input, &format!("'{}'", s))
        }
    }))
}

// digits := [0-9]+ [ \t\r\n]*
fn digits() -> Boxed<i64> {
    boxed(from_fn(|input: State| {
        let mut end = input.index;
        let mut value: i64 = 0;
        while end < input.text.len() && input.text[end].is_ascii_digit() {
            value = value * 10 + input.text[end].to_digit(10).unwrap() as i64;
            end += 1;
        }
        if end > input.index {
            Ok(Succeeded { new_state: skip_blanks(&input, end), value })
        } else {
            failed(&input, "digits")
        }
    }))
}

// integer := [+-]? digits
fn int_literal() -> Boxed<i64> {
    let signed_plus = _then(text("+"), digits());
    let signed_minus = sequence2(text("-"), digits(), |_sign: String, value: i64| -value);
    let unsigned = digits();
    boxed(or(signed_plus, or(signed_minus, unsigned)))
}

// Succeeds, without a value worth having, at the end of the input only.
fn eot() -> Boxed<()> {
    boxed(from_fn(|input: State| {
        if input.text[input.index] == EOT {
            Ok(Succeeded { new_state: input.duplicate(), value: () })
        } else {
            failed(&input, "EOT")
        }
    }))
}

// Blanks in front of everything else.
fn leading_blanks() -> Boxed<i64> {
    boxed(from_fn(|input: State| Ok(Succeeded { new_state: skip_blanks(&input, input.index), value: 0 })))
}

fn plus_sign() -> Boxed<String> {
    text("+")
}

fn minus_sign() -> Boxed<String> {
    text("-")
}

fn mult_sign() -> Boxed<String> {
    text("*")
}

fn div_sign() -> Boxed<String> {
    text("/")
}

fn left_paren() -> Boxed<String> {
    text("(")
}

fn right_paren() -> Boxed<String> {
    text(")")
}

fn expr_parser() -> Boxed<i64> {
    // Parenthesized expressions need the expr parser before it exists: the
    // cell starts out with a stand-in and gets the real rule further down.
    let expr_ptr: Slot<i64, Unconstrained> = Slot::new(boxed(return_value(0i64)));

    // sub_expr := [-+]? '(' expr ')'
    let sub_expr = alternative(vec![
        boxed(sequence4(plus_sign(), left_paren(), forward_ref(&expr_ptr), right_paren(), |_a: String, _b: String, c: i64, _d: String| c)),
        boxed(sequence4(minus_sign(), left_paren(), forward_ref(&expr_ptr), right_paren(), |_a: String, _b: String, c: i64, _d: String| -c)),
        boxed(sequence3(left_paren(), forward_ref(&expr_ptr), right_paren(), |_a: String, b: i64, _c: String| b)),
    ]);

    // factor := integer | sub_expr
    // The tag gives a better message if factor fails on the very first
    // character.
    let factor = int_literal().or(sub_expr).tag("integer or sub-expression");

    // term := factor ([*/] factor)*
    let term = factor.chainl1(mult_sign().or(div_sign()), |lhs: i64, op: String, rhs: i64| {
        if op == "*" {
            lhs * rhs
        } else {
            lhs / rhs
        }
    });

    // expr := term ([+-] term)*
    let expr = term.chainl1(plus_sign().or(minus_sign()), |lhs: i64, op: String, rhs: i64| {
        if op == "+" {
            lhs + rhs
        } else {
            lhs - rhs
        }
    });
    assert!(expr_ptr.assign(boxed(expr)).is_ok());

    // start := space0 expr EOT
    boxed(sequence3(leading_blanks(), forward_ref(&expr_ptr), eot(), |_a: i64, b: i64, _c: ()| b))
}

fn check_int_ok(text: &str, parser: &Boxed<i64>, expected: i64) -> bool {
    match parser.parse("unit test", text) {
        Ok(pass) => {
            if pass.value != expected {
                println!("Expected {} but found {}", expected, pass.value);
            }
            pass.value == expected
        }
        Err(failure) => {
            println!("Error: {}", failure.mesg);
            false
        }
    }
}

fn check_int_failed(text: &str, parser: &Boxed<i64>, expected: &str, line: usize) -> bool {
    match parser.parse("unit test", text) {
        Ok(pass) => {
            println!("Expected error '{}' but found {}", expected, pass.value);
            false
        }
        Err(failure) => {
            if failure.err_state.line != line {
                println!("Expected error '{}' on line {} but it is on line {}", expected, line, failure.err_state.line);
            }
            if failure.mesg != format!("Expected {}", expected) {
                println!("Expected error '{}' but found error '{}'", expected, failure.mesg);
            }
            failure.err_state.line == line && failure.mesg == format!("Expected {}", expected)
        }
    }
}

#[test]
fn test_factor() {
    let p = expr_parser();

    assert!(check_int_failed("", &p, "integer or sub-expression", 1));
    assert!(check_int_ok("23", &p, 23));
    assert!(check_int_ok(" 57   ", &p, 57));
    assert!(check_int_ok("\t\t\n-100", &p, -100));
    assert!(check_int_ok("+1", &p, 1));
    assert!(check_int_failed("+", &p, "digits or '('", 1));
    assert!(check_int_failed(" 57   200", &p, "EOT", 1));

    assert!(check_int_ok("(23)", &p, 23));
    assert!(check_int_ok("((23))", &p, 23));
    assert!(check_int_failed("(23", &p, "')'", 1));
    assert!(check_int_failed("((23)", &p, "')'", 1));

    assert!(check_int_ok("-(23)", &p, -23));
    assert!(check_int_ok("+(5)", &p, 5));
}

#[test]
fn test_term() {
    let p = expr_parser();

    assert!(check_int_ok("2*3", &p, 6));
    assert!(check_int_ok(" 4 / 2   ", &p, 2));
    assert!(check_int_failed("4 * ", &p, "EOT", 1));
    assert!(check_int_failed("4 ** 1", &p, "EOT", 1));
    assert!(check_int_failed("4 % 1", &p, "EOT", 1));

    assert!(check_int_ok("2 * 3 / 6", &p, 1));
}

#[test]
fn test_expr() {
    let p = expr_parser();

    assert!(check_int_ok("3+2", &p, 5));
    assert!(check_int_ok(" 3\t-2  ", &p, 1));
    assert!(check_int_ok("2 + 3*4", &p, 14));
    assert!(check_int_ok("(2 + 3)*4", &p, 20));
}
