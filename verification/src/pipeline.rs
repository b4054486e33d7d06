//! Running a program from its source text: lex, parse, then interpret.
use std::ops::Range;
use vstd::prelude::*;
use crate::error::{LexError, ParseError, RuntimeError};
use crate::interpreter::{HostReply, HostRequest, Interpreter, Value, error_view, host_is, host_ready};
use crate::interpreter::model::{ErrorView, HostFn, HostRequestView, State, ValueView, run_program};
use crate::lexer::{SpannedToken, tokenize, tokenize_numbers, tokenize_result};
use crate::parser::Parser;
use crate::parser::grammar::{ParseErrorView, err_view, parse_program};

verus! {

/// Why a program did not run to its end: what the first stage that failed reported.
#[derive(Debug)]
pub enum Failure {
    Lex(Vec<LexError>),
    Parse(Vec<ParseError>),
    Runtime(RuntimeError),
}

pub enum StageFailure {
    Lex(Seq<Range<usize>>),
    Parse(Seq<ParseErrorView>),
    Runtime(ErrorView),
}

pub open spec fn failure_view(f: Failure) -> StageFailure {
    match f {
        Failure::Lex(es) => StageFailure::Lex(es@.map_values(|e: LexError| e.0)),
        Failure::Parse(es) => StageFailure::Parse(es@.map_values(|e: ParseError| err_view(e))),
        Failure::Runtime(e) => StageFailure::Runtime(error_view(e)),
    }
}

pub open spec fn outcome_view(r: Result<Value, Failure>) -> Result<ValueView, StageFailure> {
    match r {
        Ok(v) => Ok(v@),
        Err(f) => Err(failure_view(f)),
    }
}

/// The state of a fresh interpreter.
pub open spec fn fresh_state() -> State {
    State {
        vars: seq![Map::<Seq<char>, ValueView>::empty()],
        funcs: seq![Map::<Seq<char>, crate::interpreter::model::FunctionView>::empty()],
        trace: Seq::<HostRequestView>::empty(),
    }
}

/// What running a source gives, for the result `lexed` of lexing it: the lexer's
/// errors, else the parser's errors, else what a fresh interpreter makes of the
/// statements.
pub open spec fn run_outcome(lexed: Result<Vec<SpannedToken>, Vec<LexError>>, h: HostFn) -> Result<ValueView, StageFailure> {
    match lexed {
        Err(errs) => Err(StageFailure::Lex(errs@.map_values(|e: LexError| e.0))),
        Ok(tokens) => match parse_program(tokens@, 0, Seq::empty(), Seq::empty()) {
            Err(es) => Err(StageFailure::Parse(es)),
            Ok(prog) => match run_program(fresh_state(), prog, 0, ValueView::Nil, h).0 {
                Ok(v) => Ok(v),
                Err(x) => Err(StageFailure::Runtime(x)),
            },
        },
    }
}

/// Runs the program `source` in a fresh interpreter: its value, or what the
/// first stage that failed reported.
pub fn run<H: Fn(HostRequest) -> HostReply>(source: &str, debug: bool, host: &H) -> (r: Result<Value, Failure>)
    requires
        host_ready(*host),
    ensures
        exists|lexed: Result<Vec<SpannedToken>, Vec<LexError>>|
            tokenize_result(source@, lexed) && forall|h: HostFn| #[trigger] host_is(*host, h) ==> tokenize_numbers(source@, lexed, h)
                && outcome_view(r) == run_outcome(lexed, h),
{
    let lexed = tokenize(source, debug, host);
    let ghost witness = lexed;
    let tokens = match lexed {
        Ok(t) => t,
        Err(errs) => {
            let r = Err(Failure::Lex(errs));
            assert(forall|h: HostFn| #[trigger] host_is(*host, h) ==> tokenize_numbers(source@, witness, h) && outcome_view(r) == run_outcome(witness, h));
            return r;
        },
    };
    let mut parser = Parser::new(tokens, debug);
    let program = match parser.parse() {
        Ok(p) => p,
        Err(errs) => {
            let r = Err(Failure::Parse(errs));
            assert(forall|h: HostFn| #[trigger] host_is(*host, h) ==> tokenize_numbers(source@, witness, h) && outcome_view(r) == run_outcome(witness, h));
            return r;
        },
    };
    let mut interpreter = Interpreter::new();
    proof {
        assert(interpreter@ == fresh_state());
    }
    let r = match interpreter.run(program, host) {
        Ok(v) => Ok(v),
        Err(e) => Err(Failure::Runtime(e)),
    };
    assert(forall|h: HostFn| #[trigger] host_is(*host, h) ==> tokenize_numbers(source@, witness, h) && outcome_view(r) == run_outcome(witness, h));
    r
}

} // verus!
