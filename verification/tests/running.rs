use std::cell::RefCell;

use rockscript::interpreter::arithmetic::{kind_name, repeat_text, text_less};
use rockscript::interpreter::{throw, HostReply, HostRequest, Interpreter, Value};
use rockscript::lexer::tokenize;
use rockscript::parser::expression::BinaryOp;
use rockscript::parser::Parser;
use rockscript::pipeline::{run, Failure};

fn answer(q: HostRequest) -> HostReply {
    match q {
        HostRequest::ParseNumber(s) => HostReply::Number(s.parse::<f64>().unwrap().to_bits()),
        HostRequest::NumberDebug(s) => HostReply::Text(format!("{:?}", s.parse::<f64>().unwrap())),
        HostRequest::Arithmetic(op, a, b) => {
            let (x, y) = (f64::from_bits(a), f64::from_bits(b));
            let r = match op {
                BinaryOp::Add => x + y,
                BinaryOp::Sub => x - y,
                BinaryOp::Mul => x * y,
                BinaryOp::Div => x / y,
            };
            HostReply::Number(r.to_bits())
        }
        HostRequest::NumberText(n) => HostReply::Text(f64::from_bits(n).to_string()),
        HostRequest::AtLeast(a, b) => HostReply::Truth(f64::from_bits(a) >= f64::from_bits(b)),
        HostRequest::RepeatCount(n) => HostReply::Count(f64::from_bits(n) as usize),
        HostRequest::Print(_) => HostReply::Done,
    }
}

fn number(x: f64) -> Value {
    Value::Number(x.to_bits())
}

fn program(source: &str) -> Vec<rockscript::parser::expression::SpannedStatement> {
    Parser::new(tokenize(source, false, &answer).unwrap(), false).parse().unwrap()
}

fn run_err(source: &str) -> (String, std::ops::Range<usize>) {
    let e = Interpreter::new().run(program(source), &answer).unwrap_err();
    (e.desc, e.span)
}

/// Runs `source` and gives what it printed.
fn printed(source: &str) -> Vec<String> {
    let out = RefCell::new(Vec::new());
    let host = |q: HostRequest| match q {
        HostRequest::Print(s) => {
            out.borrow_mut().push(s);
            HostReply::Done
        }
        other => answer(other),
    };
    Interpreter::new().run(program(source), &host).unwrap();
    out.into_inner()
}

#[test]
fn present_prints_each_kind_of_value() {
    assert_eq!(
        printed("present 12\npresent \"Hello world!\"\npresent big\npresent small\ncarve instruction into f\nenough\npresent follow f"),
        vec!["12", "Hello world!", "big", "small", "nil"]
    );
}

#[test]
fn readme_programs_print_what_it_says() {
    assert_eq!(printed("throw 5 rocks at x\nsmash 2 into x\npresent x"), vec!["7"]);
    assert_eq!(printed("throw 4 rocks at x\nchip 3 off x\npresent x"), vec!["-1"]);
    assert_eq!(printed("throw 12 rocks at x\nthrow 3 rocks at y\nsplit y from x\npresent x"), vec!["0.25"]);
    assert_eq!(printed("throw rock named \"rock \" at x\nmate 3 with x\npresent x"), vec!["rock rock rock "]);
    assert_eq!(
        printed("carve instruction into add\n  retrieve x\n  retrieve y\n  smash x into y\n  engrave y\nenough\npresent follow add with 5 and 6"),
        vec!["11"]
    );
    assert_eq!(printed("throw 3 rocks at x\nthrow 2 rocks at y\npresent weigh x against y"), vec!["big"]);
    assert_eq!(
        printed("throw 4 rocks at x\nthrow 5 rocks at y\ninspect weigh x against y\n present \"x >= y\"\nrefine\n present \"x < y\"\nenough"),
        vec!["x < y"]
    );
}

#[test]
fn string_smash_puts_the_value_after_the_string() {
    let v = Interpreter::new().run(program("4 smashed into \"n=\""), &answer).unwrap();
    assert_eq!(v, Value::String("n=4".to_string()));
    let v = Interpreter::new().run(program("big smashed into \"is \""), &answer).unwrap();
    assert_eq!(v, Value::String("is true".to_string()));
}

#[test]
fn mismatched_kinds_name_both_sides() {
    assert_eq!(run_err("big smashed into small").0, "attempted to add boolean to boolean");
    assert_eq!(run_err("\"a\" chipped off 1").0, "attempted to subtract number from string");
    assert_eq!(run_err("big split from 2").0, "attempted to divide number by boolean");
    assert_eq!(run_err("\"a\" mated with \"b\"").0, "attempted to multiply string by string");
}

#[test]
fn unknown_names_are_errors() {
    assert_eq!(run_err("present nothing"), ("unknown variable".to_string(), 8..15));
    assert_eq!(run_err("follow nothing").0, "unknown function");
    assert_eq!(run_err("smash 1 into nothing").0, "unknown variable");
}

#[test]
fn destroy_inside_a_function_is_an_error() {
    assert_eq!(
        run_err("carve instruction into f\n destroy\nenough\nfollow f").0,
        "attempted to break form function"
    );
}

#[test]
fn destroy_leaves_a_loop() {
    let v = Interpreter::new()
        .run(program("throw 0 rocks at x\nroll while big\n smash 1 into x\n inspect weigh x against 3\n  destroy\n enough\nenough\nx"), &answer)
        .unwrap();
    assert_eq!(v, number(3.0));
}

#[test]
fn a_wrong_reply_is_an_error() {
    let confused = |_q: HostRequest| HostReply::Done;
    let e = Interpreter::new().run(program("present 1"), &confused).unwrap_err();
    assert_eq!(e.desc, "the host gave an unexpected reply");
    assert_eq!(e.span, 8..9);
}

#[test]
fn repeating_text_past_memory_is_an_error() {
    let huge = |q: HostRequest| match q {
        HostRequest::RepeatCount(_) => HostReply::Count(usize::MAX),
        other => answer(other),
    };
    let e = Interpreter::new().run(program("\"ab\" mated with 2"), &huge).unwrap_err();
    assert_eq!(e.desc, "capacity overflow");
}

#[test]
fn throw_builds_an_error() {
    let r: Result<(), _> = throw("boom", &(1..4));
    let e = r.unwrap_err();
    assert_eq!((e.desc, e.span), ("boom".to_string(), 1..4));
}

#[test]
fn text_helpers() {
    assert!(text_less(&"abc".to_string(), &"abd".to_string()));
    assert!(text_less(&"ab".to_string(), &"abc".to_string()));
    assert!(!text_less(&"b".to_string(), &"abc".to_string()));
    assert_eq!(repeat_text(&"ab".to_string(), 3), Some("ababab".to_string()));
    assert_eq!(repeat_text(&"".to_string(), 3), Some(String::new()));
    assert_eq!(kind_name(&Value::Nil), "nil");
    assert_eq!(kind_name(&number(1.0)), "number");
}

#[test]
fn weighing_orders_values() {
    let eval = |s: &str| Interpreter::new().run(program(s), &answer).unwrap();
    assert_eq!(eval("weigh \"a\" against \"a\""), Value::Boolean(true));
    assert_eq!(eval("weigh \"a\" against \"b\""), Value::Boolean(false));
    assert_eq!(eval("weigh \"b\" against \"a\""), Value::Boolean(true));
    assert_eq!(eval("weigh small against big"), Value::Boolean(false));
    assert_eq!(eval("weigh big against small"), Value::Boolean(true));
    assert_eq!(eval("weigh 1 against \"a\""), Value::Boolean(false));
    assert_eq!(eval("weigh \"a\" against 1"), Value::Boolean(true));
}

#[test]
fn variables_read_back_what_was_written() {
    let mut i = Interpreter::new();
    let x = "x".to_string();
    let y = "y".to_string();
    i.insert_variable(&x, number(1.0));
    i.insert_variable(&y, Value::Boolean(true));
    assert_eq!(i.get_variable(&x), Some(number(1.0)));
    i.assign_variable(&x, Value::Nil);
    assert_eq!(i.get_variable(&x), Some(Value::Nil));
    assert_eq!(i.get_variable(&y), Some(Value::Boolean(true)));
}

#[test]
fn inner_scopes_shadow_and_vanish() {
    let mut i = Interpreter::new();
    let x = "x".to_string();
    i.insert_variable(&x, number(1.0));
    i.push_scope();
    i.insert_variable(&x, number(2.0));
    assert_eq!(i.get_variable(&x), Some(number(2.0)));
    i.pop_scope();
    assert_eq!(i.get_variable(&x), Some(number(1.0)));
}

#[test]
fn function_variables_do_not_leak() {
    let (desc, _) = run_err("carve instruction into f\n retrieve a\n throw 1 rock at b\nenough\nfollow f with 2\nb");
    assert_eq!(desc, "unknown variable");
    let (desc, _) = run_err("inspect big\n throw 1 rock at c\nenough\nc");
    assert_eq!(desc, "unknown variable");
}

#[test]
fn runs_on_one_interpreter_add_up() {
    let mut i = Interpreter::new();
    assert_eq!(i.run(program("throw 2 rocks at x"), &answer).unwrap(), Value::Nil);
    assert_eq!(i.run(program("carve instruction into d\n engrave x\nenough"), &answer).unwrap(), Value::Nil);
    assert_eq!(i.run(program("smash 3 into x\nfollow d"), &answer).unwrap(), number(5.0));
    let joined = Interpreter::new()
        .run(program("throw 2 rocks at x\ncarve instruction into d\n engrave x\nenough\nsmash 3 into x\nfollow d"), &answer)
        .unwrap();
    assert_eq!(joined, number(5.0));
}

#[test]
fn display_writes_values() {
    let mut i = Interpreter::new();
    assert_eq!(i.display(&number(2.5), &(0..1), &answer).unwrap(), "2.5");
    assert_eq!(i.display(&Value::Boolean(false), &(0..1), &answer).unwrap(), "small");
    assert_eq!(i.display(&Value::Nil, &(0..1), &answer).unwrap(), "nil");
}

#[test]
fn calculate_follows_the_operators() {
    let mut i = Interpreter::new();
    let span = 0..1;
    assert_eq!(i.calculate(BinaryOp::Sub, number(4.0), number(1.0), &span, &answer).unwrap(), number(-3.0));
    assert_eq!(
        i.calculate(BinaryOp::Mul, Value::String("ab".into()), number(2.0), &span, &answer).unwrap(),
        Value::String("abab".into())
    );
    assert_eq!(
        i.calculate(BinaryOp::Add, Value::String("x".into()), Value::String("y".into()), &span, &answer).unwrap(),
        Value::String("yx".into())
    );
    assert_eq!(
        i.calculate(BinaryOp::Add, Value::Nil, Value::String("y".into()), &span, &answer).unwrap_err().desc,
        "attempted to add string to nil"
    );
}

#[test]
fn run_reports_the_first_failing_stage() {
    assert!(matches!(run("throw @", false, &answer), Err(Failure::Lex(e)) if e.len() == 1));
    assert!(matches!(run("throw 1 at x", false, &answer), Err(Failure::Parse(e)) if e.len() == 2));
    assert!(matches!(run("present y", false, &answer), Err(Failure::Runtime(e)) if e.desc == "unknown variable"));
    assert_eq!(run("2 mated with 21", false, &answer).unwrap(), number(42.0));
}

#[test]
fn a_run_stops_at_the_first_error() {
    let out = RefCell::new(Vec::new());
    let host = |q: HostRequest| match q {
        HostRequest::Print(s) => {
            out.borrow_mut().push(s);
            HostReply::Done
        }
        other => answer(other),
    };
    let e = Interpreter::new().run(program("present 1\npresent nothing\npresent 2"), &host).unwrap_err();
    assert_eq!(e.desc, "unknown variable");
    assert_eq!(out.into_inner(), vec!["1"]);
}

#[test]
fn inner_bindings_shadow_outer_ones() {
    let v = Interpreter::new()
        .run(program("throw 1 rock at x\ncarve instruction into f\n retrieve x\n engrave x\nenough\nfollow f with 2"), &answer)
        .unwrap();
    assert_eq!(v, number(2.0));
}
