use rockscript::error::{byte_to_char, Diagnostic, LexError};
use rockscript::interpreter::{HostReply, HostRequest};
use rockscript::lexer::{tokenize, Token};
use rockscript::parser::Parser;
use rockscript::tokenizer::{self, Lexer};

/// Gives the `{:?}` text of numbers; the lexer asks nothing else.
fn answer(q: HostRequest) -> HostReply {
    match q {
        HostRequest::NumberDebug(s) => HostReply::Text(format!("{:?}", s.parse::<f64>().unwrap())),
        _ => HostReply::Done,
    }
}

fn token_names(source: &str) -> Vec<String> {
    tokenize(source, false, &answer)
        .unwrap()
        .iter()
        .map(|t| format!("{:?}", t.token))
        .collect()
}

fn parse_errors(source: &str) -> Vec<(String, std::ops::Range<usize>)> {
    let tokens = tokenize(source, false, &answer).unwrap();
    match Parser::new(tokens, false).parse() {
        Ok(_) => vec![],
        Err(errs) => errs.into_iter().map(|e| (e.desc, e.span)).collect(),
    }
}

#[test]
fn lexes_a_variable_definition() {
    let tokens = tokenize("throw 12 rocks at x", false, &answer).unwrap();
    let spans: Vec<_> = tokens.iter().map(|t| t.span.clone()).collect();
    assert_eq!(spans, vec![0..5, 6..8, 9..14, 15..17, 18..19]);
    assert!(matches!(tokens[0].token, Token::Throw));
    assert!(matches!(&tokens[1].token, Token::Number(d) if d == "12.0"));
    assert!(matches!(tokens[2].token, Token::Rock));
    assert!(matches!(tokens[3].token, Token::At));
    assert!(matches!(&tokens[4].token, Token::Identifier(s) if s == "x"));
}

#[test]
fn lexes_strings_decimals_and_parentheses() {
    assert_eq!(
        token_names("present (\"hi there\") 3.25"),
        vec!["Present", "LParen", "String(\"hi there\")", "RParen", "Number(\"3.25\")"]
    );
}

#[test]
fn longest_word_wins_over_keywords() {
    assert_eq!(
        token_names("smashed smash rocks rockslide chipped mated"),
        vec!["Smashed", "Smash", "Rock", "Identifier(\"rockslide\")", "Chipped", "Mated"]
    );
}

#[test]
fn every_keyword_has_its_token() {
    assert_eq!(
        token_names("named present into chip off mate with split from big small carve instruction retrieve enough follow and engrave weigh against inspect refine roll while destroy"),
        vec![
            "Named", "Present", "Into", "Chip", "Off", "Mate", "With", "Split", "From", "True", "False", "Carve",
            "Instruction", "Retrieve", "Enough", "Follow", "And", "Engrave", "Weigh", "Against", "Inspect",
            "Refine", "Roll", "While", "Destroy"
        ]
    );
}

#[test]
fn spans_count_bytes_after_wide_characters() {
    let tokens = tokenize("\"héllo\" x", false, &answer).unwrap();
    assert_eq!(tokens[0].span, 0..8);
    assert_eq!(tokens[1].span, 9..10);
}

#[test]
fn reports_each_stray_character() {
    let errs = tokenize("throw @ at $", false, &answer).unwrap_err();
    let spans: Vec<_> = errs.iter().map(|e| e.span()).collect();
    assert_eq!(spans, vec![6..7, 11..12]);
    assert_eq!(errs[0].desc(), "unexpected character(s)");
}

#[test]
fn unterminated_string_runs_to_the_end() {
    let errs = tokenize("x \"open", false, &answer).unwrap_err();
    assert_eq!(errs.len(), 1);
    assert_eq!(errs[0].span(), 2..7);
}

#[test]
fn lex_error_from_range() {
    let e: LexError = (3..5).into();
    assert_eq!(e.0, 3..5);
    assert_eq!(e.span(), 3..5);
}

#[test]
fn tokens_in_order_on_a_program() {
    let tokens = tokenize("carve instruction into f\n  engrave 1 smashed into 2\nenough", false, &answer).unwrap();
    for w in tokens.windows(2) {
        assert!(w[0].span.start < w[0].span.end);
        assert!(w[0].span.end <= w[1].span.start);
    }
}

#[test]
fn parse_error_names_the_expected_token() {
    assert_eq!(
        parse_errors("throw 12 at x"),
        vec![
            ("expected Rock after number value inside variable definition, found Some(At)".to_string(), 9..11),
            ("expected expression, got At".to_string(), 9..11),
        ]
    );
}

#[test]
fn parse_error_shows_string_tokens_as_debug_text() {
    assert_eq!(
        parse_errors("throw rock \"a\" at x"),
        vec![
            ("expected Named inside of variable definition, found Some(String(\"a\"))".to_string(), 11..14),
            ("expected expression, got At".to_string(), 15..17),
        ]
    );
}

#[test]
fn parse_error_shows_numbers_as_debug_text() {
    assert_eq!(
        parse_errors("throw rock 12 at x"),
        vec![
            ("expected Named inside of variable definition, found Some(Number(12.0))".to_string(), 11..13),
            ("expected expression, got At".to_string(), 14..16),
        ]
    );
}

#[test]
fn number_tokens_carry_debug_text() {
    assert_eq!(token_names("007 1.50 2."), vec!["Number(\"7.0\")", "Number(\"1.5\")", "Number(\"2.0\")"]);
}

#[test]
fn parse_error_at_end_of_input() {
    assert_eq!(
        parse_errors("present"),
        vec![("expected value or identifier as an argument for `present`, found <EOF>".to_string(), 7..7)]
    );
}

#[test]
fn unclosed_block_is_an_error() {
    let errs = parse_errors("roll while big\n present 1");
    assert_eq!(errs.len(), 1);
    assert_eq!(errs[0].0, "expected Enough, found <EOF>");
}

#[test]
fn every_bad_statement_is_reported() {
    let errs = parse_errors("at\nagainst\npresent 1");
    assert_eq!(
        errs,
        vec![
            ("expected expression, got At".to_string(), 0..2),
            ("expected expression, got Against".to_string(), 3..10),
        ]
    );
}

#[test]
fn parses_a_definition_into_statements() {
    let tokens = tokenize("throw 2 rocks at x\nx", false, &answer).unwrap();
    let program = Parser::new(tokens, false).parse().unwrap();
    assert_eq!(program.len(), 2);
    // A statement's span runs to the end of the token that follows it.
    assert_eq!(program[0].span, 0..20);
}

#[test]
fn byte_to_char_counts_characters() {
    assert_eq!(byte_to_char("héllo", 0), 0);
    assert_eq!(byte_to_char("héllo", 3), 2);
    assert_eq!(byte_to_char("héllo", 6), 5);
}

#[test]
fn old_lexer_reads_a_definition() {
    let mut lexer = Lexer::new("throw 12 rocks at x");
    let tokens: Vec<String> = lexer.tokenize().iter().map(|t| format!("{:?}", t)).collect();
    assert_eq!(tokens, vec!["Throw", "Number(\"12\")", "Rock", "At", "Identifier(\"x\")", "EOF"]);
}

#[test]
fn old_lexer_reads_strings_and_operators() {
    let mut lexer = Lexer::new("smash \"hi\" into x_1");
    let tokens: Vec<String> = lexer.tokenize().iter().map(|t| format!("{:?}", t)).collect();
    assert_eq!(tokens, vec!["Smash", "String(\"hi\")", "Into", "Identifier(\"x_1\")", "EOF"]);
}

#[test]
fn old_lexer_marks_bad_numbers() {
    let mut lexer = Lexer::new("1.2.3 4");
    let tokens: Vec<String> = lexer.tokenize().iter().map(|t| format!("{:?}", t)).collect();
    assert_eq!(tokens, vec!["Error", "Number(\"4\")", "EOF"]);
}

#[test]
fn old_lexer_steps_through_characters() {
    let mut lexer = Lexer::new("  ab");
    lexer.skip_whitespace();
    assert_eq!(lexer.current(), Some('a'));
    lexer.advance();
    assert_eq!(lexer.current(), Some('b'));
    lexer.advance();
    assert_eq!(lexer.current(), None);
    assert!(matches!(tokenizer::Token::EOF, tokenizer::Token::EOF));
}

#[test]
fn old_lexer_reads_unicode_words_and_spaces() {
    let mut lexer = Lexer::new("café\u{3000}rocks ٣");
    let tokens: Vec<String> = lexer.tokenize().iter().map(|t| format!("{:?}", t)).collect();
    assert_eq!(tokens, vec!["Identifier(\"café\")", "Rock", "Error", "EOF"]);
}

#[test]
fn whitespace_is_what_std_calls_whitespace() {
    for u in 0u32..0x3100 {
        if let Some(c) = char::from_u32(u).filter(|&c| c != '#') {
            let mut lexer = Lexer::new(&format!("{c}#"));
            lexer.skip_whitespace();
            assert_eq!(lexer.current() == Some('#'), c.is_whitespace(), "U+{u:04X}");
        }
    }
}

#[test]
fn old_lexer_ends_past_its_input() {
    let mut lexer = Lexer::new("throw 1 rock at x");
    lexer.tokenize();
    assert_eq!(lexer.current(), None);
}

#[test]
fn parse_ends_past_the_last_token() {
    let tokens = tokenize("present 1\npresent", false, &answer).unwrap();
    let n = tokens.len();
    let mut p = Parser::new(tokens, false);
    assert!(p.parse().is_err());
    assert_eq!(p.pos, n);
    assert!(p.current().is_none());
}

#[test]
fn expect_compares_tokens_with_text() {
    let tokens = tokenize("x \"a\" 2", false, &answer).unwrap();
    let mut p = Parser::new(tokens, false);
    assert!(p.expect(Token::Identifier("x".into()), "here").is_ok());
    let e = p.expect(Token::String("b".into()), "here").unwrap_err();
    assert_eq!(e.desc, "expected String(\"b\") here, found Some(String(\"a\"))");
    assert!(p.expect(Token::String("a".into()), "here").is_ok());
    assert!(p.expect(Token::Number("2.0".into()), "here").is_ok());
    assert!(p.current().is_none());
}

#[test]
fn only_blanks_lie_between_tokens() {
    let source = "throw 12 rocks at x\n\tpresent (x smashed into \"é\")";
    let tokens = tokenize(source, false, &answer).unwrap();
    for (b, c) in source.char_indices() {
        let inside = tokens.iter().any(|t| t.span.start <= b && b < t.span.end);
        assert_eq!(inside, !matches!(c, ' ' | '\t' | '\n' | '\u{c}'), "byte {b}");
    }
}

#[test]
fn blocks_left_open_do_not_parse() {
    for source in [
        "roll while big\n present 1",
        "carve instruction into f\n engrave 1",
        "inspect big\n present 1",
        "roll while small\n present 1\nenough\nroll while big\n present 2",
        "inspect big\n present 1\nenough\ncarve instruction into g\n engrave 2",
    ] {
        let tokens = tokenize(source, false, &answer).unwrap();
        assert!(Parser::new(tokens, false).parse().is_err(), "{source}");
    }
}
