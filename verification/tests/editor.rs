use rockscript::editor::{
    check_document, hover, offset_to_position, position_to_offset, span_to_range, to_lsp_diagnostic, validate,
    Position, TextRange, Validation,
};
use rockscript::error::ParseError;
use rockscript::interpreter::{HostReply, HostRequest};

fn answer(q: HostRequest) -> HostReply {
    match q {
        HostRequest::ParseNumber(s) => HostReply::Number(s.parse::<f64>().unwrap().to_bits()),
        HostRequest::NumberDebug(s) => HostReply::Text(format!("{:?}", s.parse::<f64>().unwrap())),
        HostRequest::NumberText(n) => HostReply::Text(f64::from_bits(n).to_string()),
        _ => HostReply::Done,
    }
}

fn pos(line: u32, character: u32) -> Position {
    Position { line, character }
}

#[test]
fn position_to_offset_finds_line_and_column() {
    let text = "throw 1 rock at x\npresent x";
    assert_eq!(position_to_offset(text, pos(0, 0)), 0);
    assert_eq!(position_to_offset(text, pos(0, 6)), 6);
    assert_eq!(position_to_offset(text, pos(1, 8)), 26);
}

#[test]
fn position_to_offset_counts_characters_not_bytes() {
    assert_eq!(position_to_offset("é x", pos(0, 2)), 3);
}

#[test]
fn position_past_a_line_runs_on_into_the_next() {
    assert_eq!(position_to_offset("ab\ncd", pos(0, 4)), 4);
}

#[test]
fn position_past_the_text_gives_the_last_character() {
    assert_eq!(position_to_offset("ab\ncd", pos(1, 9)), 4);
    assert_eq!(position_to_offset("ab\ncd", pos(5, 0)), 4);
    assert_eq!(position_to_offset("", pos(0, 0)), 0);
    assert_eq!(position_to_offset("ab\n", pos(1, 0)), 2);
}

#[test]
fn offset_to_position_finds_line_and_column() {
    let text = "throw 1 rock at x\npresent x";
    assert_eq!(offset_to_position(text, 0), pos(0, 0));
    assert_eq!(offset_to_position(text, 17), pos(0, 17));
    assert_eq!(offset_to_position(text, 18), pos(1, 0));
    assert_eq!(offset_to_position(text, 26), pos(1, 8));
    assert_eq!(offset_to_position(text, 100), pos(1, 9));
    assert_eq!(offset_to_position("é x", 3), pos(0, 2));
}

#[test]
fn positions_round_trip() {
    let text = "carve instruction into f\n  retrieve é\nenough";
    for (l, c) in [(0u32, 0u32), (0, 5), (1, 2), (1, 11), (2, 3)] {
        assert_eq!(offset_to_position(text, position_to_offset(text, pos(l, c))), pos(l, c));
    }
    for (b, _) in text.char_indices() {
        assert_eq!(position_to_offset(text, offset_to_position(text, b)), b);
    }
}

#[test]
fn span_to_range_converts_both_ends() {
    assert_eq!(span_to_range("ab\ncd", 1..4), TextRange { start: pos(0, 1), end: pos(1, 1) });
}

#[test]
fn diagnostics_carry_range_and_message() {
    let e = ParseError { desc: "bad".to_string(), span: 3..5 };
    let d = to_lsp_diagnostic("ab\ncd", &e);
    assert_eq!(d.range, TextRange { start: pos(1, 0), end: pos(1, 2) });
    assert_eq!(d.message, "bad");
}

#[test]
fn check_document_reports_lex_errors() {
    let ds = check_document("throw @ at x\n$", &answer);
    let got: Vec<_> = ds.iter().map(|d| (d.range, d.message.clone())).collect();
    assert_eq!(
        got,
        vec![
            (TextRange { start: pos(0, 6), end: pos(0, 7) }, "unexpected character(s)".to_string()),
            (TextRange { start: pos(1, 0), end: pos(1, 1) }, "unexpected character(s)".to_string()),
        ]
    );
}

#[test]
fn check_document_reports_parse_errors() {
    let ds = check_document("throw 12 at x", &answer);
    assert_eq!(ds.len(), 2);
    assert_eq!(ds[1].message, "expected expression, got At");
    assert_eq!(ds[0].range, TextRange { start: pos(0, 9), end: pos(0, 11) });
    assert_eq!(ds[0].message, "expected Rock after number value inside variable definition, found Some(At)");
}

#[test]
fn check_document_is_silent_on_good_programs() {
    assert!(check_document("throw 1 rock at x\npresent x", &answer).is_empty());
}

#[test]
fn hover_describes_tokens() {
    let text = "throw 12 rocks at x\npresent \"hi\"";
    let h = hover(text, pos(0, 1), &answer).unwrap();
    assert_eq!(h.message, "Keyword inside variable definition");
    assert_eq!(h.range, TextRange { start: pos(0, 0), end: pos(0, 5) });
    assert_eq!(hover(text, pos(0, 7), &answer).unwrap().message, "Number literal: `12`");
    assert_eq!(hover(text, pos(0, 18), &answer).unwrap().message, "Identifier: `x`");
    assert_eq!(hover(text, pos(1, 1), &answer).unwrap().message, "Built in print function");
    assert_eq!(hover(text, pos(1, 10), &answer).unwrap().message, "String literal: `hi`");
}

#[test]
fn hover_writes_numbers_as_the_host_does() {
    assert_eq!(hover("2.50", pos(0, 0), &answer).unwrap().message, "Number literal: `2.5`");
}

#[test]
fn hover_on_blank_parenthesis_or_bad_text_shows_nothing() {
    assert!(hover("present  x", pos(0, 8), &answer).is_none());
    assert!(hover("(x)", pos(0, 0), &answer).is_none());
    assert!(hover("x @", pos(0, 0), &answer).is_none());
}

#[test]
fn hover_on_operators_and_blocks() {
    let text = "1 smashed into 2 inspect big enough";
    assert_eq!(hover(text, pos(0, 3), &answer).unwrap().message, "Addition operator");
    assert_eq!(
        hover(text, pos(0, 11), &answer).unwrap().message,
        "Keyword for defining functions / Addition operator helper"
    );
    assert_eq!(hover(text, pos(0, 18), &answer).unwrap().message, "Keyword to start an if statement");
    assert_eq!(hover(text, pos(0, 26), &answer).unwrap().message, "Boolean literal: `big`");
    assert_eq!(hover(text, pos(0, 30), &answer).unwrap().message, "Keyword to indicate the end of a code block");
}

#[test]
fn validate_waits_for_open_blocks() {
    assert_eq!(validate("roll while big"), Validation::Incomplete);
    assert_eq!(validate("carve instruction into f\n engrave 1"), Validation::Incomplete);
    assert_eq!(validate("inspect big present 1"), Validation::Incomplete);
    assert_eq!(validate("inspect big present 1 enough"), Validation::Valid);
    assert_eq!(validate("present 1"), Validation::Valid);
    assert_eq!(validate("roll while inspect x enough"), Validation::Incomplete);
    assert_eq!(validate("enough enough inspect"), Validation::Valid);
}
