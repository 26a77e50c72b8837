use rdc::eval::{is_hex_digit, Error, Fault, Machine, Step};
use rdc::fixed::{char_from_digit, to_digit};
use rdc::memory::Memory;

/// What a run of a script produced.
#[derive(Debug, PartialEq)]
enum End {
    Done,
    Failed(Error),
    Quit,
    Aborted(Fault),
}

fn run_in(memory: &mut Memory, script: &str, fail: bool) -> (String, Vec<Error>, End) {
    let mut machine = Machine::new(script.as_bytes(), fail);
    let mut out = Vec::new();
    let mut errors = Vec::new();
    for _ in 0..100_000 {
        match machine.step(memory) {
            Step::Continue => {}
            Step::Print(bytes) => out.extend_from_slice(&bytes),
            Step::Warn(e) => errors.push(e),
            Step::Fail(e) => return (String::from_utf8(out).unwrap(), errors, End::Failed(e)),
            Step::Done => return (String::from_utf8(out).unwrap(), errors, End::Done),
            Step::Quit => return (String::from_utf8(out).unwrap(), errors, End::Quit),
            Step::Abort(f) => return (String::from_utf8(out).unwrap(), errors, End::Aborted(f)),
        }
    }
    panic!("script did not finish");
}

fn run(script: &str) -> (String, Vec<Error>, End) {
    let mut memory = Memory::default();
    run_in(&mut memory, script, false)
}

fn output(script: &str) -> String {
    let (out, errors, end) = run(script);
    assert!(errors.is_empty(), "unexpected errors {:?}", errors);
    assert_eq!(end, End::Done);
    out
}

fn errors(script: &str) -> Vec<Error> {
    run(script).1
}

#[test]
fn add_and_print() {
    assert_eq!(output("2 3 + p"), "5\n");
}

#[test]
fn arithmetic_commands() {
    assert_eq!(output("7 2 - p"), "5\n");
    assert_eq!(output("7 6 * p"), "42\n");
    assert_eq!(output("84 2 / p"), "42\n");
    assert_eq!(output("53 22 % p"), "9\n");
    assert_eq!(output("2 10 ^ p"), "1024\n");
}

#[test]
fn negative_numbers() {
    assert_eq!(output("_5 p"), "-5\n");
    assert_eq!(output("_1.5 p"), "-1.5\n");
    assert_eq!(output("_7 2 % p"), "-1\n");
    assert_eq!(output("_7 2 / p"), "-3\n");
}

#[test]
fn precision_applies_to_division() {
    assert_eq!(output("2 k 1 3 / p"), ".33\n");
    assert_eq!(output("8 k 13.34 7.892 / p"), "1.69031931\n");
}

#[test]
fn precision_applies_to_square_root() {
    assert_eq!(output("4 k 2 v p"), "1.4142\n");
    assert_eq!(output("16 v p"), "4\n");
}

#[test]
fn output_radix() {
    assert_eq!(output("16 o 255 p"), "FF\n");
    assert_eq!(output("2 o 10 p"), "1010\n");
    assert_eq!(output("2 o 0.5 p"), ".1\n");
    assert_eq!(output("16 o _255 p"), "-FF\n");
    assert_eq!(output("100 o 10 p"), "A\n");
}

#[test]
fn input_radix() {
    assert_eq!(output("16 i FF p"), "255\n");
    assert_eq!(output("2 i 1010 p"), "10\n");
    assert_eq!(output("1 i 11 p"), "3\n");
}

#[test]
fn print_without_newline() {
    assert_eq!(output("1 n 2 n"), "12");
}

#[test]
fn print_stack() {
    assert_eq!(output("1 2 3 f"), "1 2 3\n");
    assert_eq!(output("f"), "");
    assert_eq!(output("1 [ab] f"), "1 ab\n");
}

#[test]
fn duplicate_clear_reverse() {
    assert_eq!(output("3 d * p"), "9\n");
    assert_eq!(output("1 2 c f"), "");
    assert_eq!(output("2 3 r f"), "3 2\n");
    assert_eq!(output("2 3 r r f"), "2 3\n");
}

#[test]
fn registers() {
    assert_eq!(output("5 sa la la * p"), "25\n");
    assert_eq!(output("la p"), "0\n");
    assert_eq!(output("5 sx 6 sy lx p ly p"), "5\n6\n");
}

#[test]
fn execute_strings() {
    assert_eq!(output("[2 3 +] x p"), "5\n");
    assert_eq!(output("4 x p"), "4\n");
    assert_eq!(output("[[hello] p] x"), "hello\n");
}

#[test]
fn macros_resume_the_caller() {
    assert_eq!(output("[1 p] sa la x 2 p"), "1\n2\n");
}

#[test]
fn comparisons() {
    assert_eq!(output("[10 p] sa 1 2 >a"), "10\n");
    assert_eq!(output("[10 p] sa 2 1 >a"), "");
    assert_eq!(output("[10 p] sa 2 1 <a"), "10\n");
    assert_eq!(output("[10 p] sa 2 2.0 =a"), "10\n");
    assert_eq!(output("[10 p] sa 2 2 !>a"), "10\n");
    assert_eq!(output("[10 p] sa 3 2 !<a"), "");
    assert_eq!(output("[10 p] sa 2 3 !=a"), "10\n");
}

#[test]
fn loop_with_macro() {
    // count down from 3
    assert_eq!(output("[d p 1 - d 0 <a] sa 3 la x"), "3\n2\n1\n");
}

#[test]
fn strings_and_escapes() {
    assert_eq!(output("[a\\nb] p"), "a\nb\n");
    assert_eq!(output("[x[y]z] p"), "x[y]z\n");
    assert_eq!(output("[hello, world!] p"), "hello, world!\n");
    assert_eq!(output("[unterminated p"), "");
}

#[test]
fn comments() {
    assert_eq!(output("# a comment\n1 p"), "1\n");
    assert_eq!(output("1 # p\np"), "1\n");
}

#[test]
fn random_numbers() {
    assert_eq!(output("0 j ' p"), "1013904223\n");
    assert_eq!(output("1 j ' p"), "1015568748\n");
}

#[test]
fn error_empty_stack() {
    assert_eq!(errors("p"), vec![Error::EmptyStack]);
    assert_eq!(errors("1 +"), vec![Error::EmptyStack]);
    assert_eq!(errors("r"), vec![Error::EmptyStack]);
    assert_eq!(errors("d"), vec![Error::EmptyStack]);
    assert_eq!(errors("x"), vec![Error::EmptyStack]);
    assert_eq!(errors("[a] k"), vec![Error::EmptyStack]);
}

#[test]
fn error_not_a_number() {
    assert_eq!(errors("[a] 1 +"), vec![Error::NaN]);
    assert_eq!(errors("[a] v"), vec![Error::NaN]);
}

#[test]
fn error_division_by_zero() {
    assert_eq!(errors("1 0 /"), vec![Error::ZeroDivision]);
    assert_eq!(errors("1 0 %"), vec![Error::ZeroDivision]);
}

#[test]
fn error_negative_number() {
    assert_eq!(errors("_4 v"), vec![Error::NegativeNumber]);
}

#[test]
fn error_invalid_exponent() {
    assert_eq!(errors("2 _1 ^"), vec![Error::InvalidExponent]);
}

#[test]
fn error_end_of_input() {
    assert_eq!(errors("1 s"), vec![Error::EoF]);
    assert_eq!(errors("l"), vec![Error::EoF]);
    assert_eq!(errors("1 2 >"), vec![Error::EoF]);
    // the `!` and then the `>` each find the input ended
    assert_eq!(errors("!>"), vec![Error::EoF, Error::EoF]);
}

#[test]
fn error_unexpected() {
    assert_eq!(errors("@"), vec![Error::Unexpected(b'@')]);
    // after the error the `x` runs as a command; then `a` is unexpected
    assert_eq!(errors("1 2 !xa"), vec![Error::Unexpected(b'x'), Error::Unexpected(b'a')]);
}

#[test]
fn errors_do_not_stop_without_fail() {
    let (out, errs, end) = run("p 1 p");
    assert_eq!(out, "1\n");
    assert_eq!(errs, vec![Error::EmptyStack]);
    assert_eq!(end, End::Done);
}

#[test]
fn errors_stop_with_fail() {
    let mut memory = Memory::default();
    let (out, errs, end) = run_in(&mut memory, "p 1 p", true);
    assert_eq!(out, "");
    assert!(errs.is_empty());
    assert_eq!(end, End::Failed(Error::EmptyStack));
}

#[test]
fn quit() {
    let (out, _, end) = run("1 p q 2 p");
    assert_eq!(out, "1\n");
    assert_eq!(end, End::Quit);
}

#[test]
fn escape_at_end_aborts() {
    assert_eq!(run("[a\\").2, End::Aborted(Fault::EscapeAtEnd));
}

#[test]
fn memory_survives_between_runs() {
    let mut memory = Memory::default();
    run_in(&mut memory, "42 sa 3 k", false);
    let (out, _, _) = run_in(&mut memory, "la p 1 3 / p", false);
    assert_eq!(out, "42\n.333\n");
}

#[test]
fn hex_digits() {
    assert!(is_hex_digit(b'0'));
    assert!(is_hex_digit(b'9'));
    assert!(is_hex_digit(b'A'));
    assert!(is_hex_digit(b'F'));
    assert!(!is_hex_digit(b'G'));
    assert!(!is_hex_digit(b'a'));
    assert!(!is_hex_digit(b'.'));
}

#[test]
fn digit_conversions() {
    assert_eq!(char_from_digit(0, 10), '0');
    assert_eq!(char_from_digit(9, 10), '9');
    assert_eq!(char_from_digit(10, 16), 'A');
    assert_eq!(char_from_digit(15, 16), 'F');
    assert_eq!(to_digit(b'7'), 7);
    assert_eq!(to_digit(b'C'), 12);
    assert_eq!(to_digit(b'x'), 0);
}
