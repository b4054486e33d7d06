//! What an editor asks of the language: where a line and column fall in the
//! source and back, the problems of a document, what a token under the cursor
//! is, and whether a line typed so far closes every block it opens.
//!
//! Lines and columns count characters and start at zero; offsets count bytes.
use std::ops::Range;
use vstd::prelude::*;
use crate::error::{Diagnostic, LexError};
use crate::interpreter::{HostReply, HostRequest, host_is, host_ready};
use crate::interpreter::model::{HostFn, HostReplyView, HostRequestView};
use crate::lexer::{SpannedToken, Token, tokenize, tokenize_numbers, tokenize_result};
use crate::parser::Parser;
use crate::parser::grammar::{ParseErrorView, parse_program};
use crate::text::{push_str_chars, string_of, byte_offset, chars_of, lemma_byte_offset_bound, lemma_byte_offset_mono, lemma_byte_offset_step, lemma_utf8_len_encode, prefix_bytes, char_len_utf8, utf8_len};

verus! {

/// A place in a document: a line and a character within it.
#[derive(Debug, Clone, Copy, PartialEq, Eq, Structural)]
pub struct Position {
    pub line: u32,
    pub character: u32,
}

/// A stretch of a document between two places.
#[derive(Debug, Clone, Copy, PartialEq, Eq, Structural)]
pub struct TextRange {
    pub start: Position,
    pub end: Position,
}

/// The first position at or after `i` that holds a line break.
pub open spec fn next_newline(cs: Seq<char>, i: int) -> Option<int>
    decreases cs.len() - i,
{
    if i < 0 || i >= cs.len() {
        None
    } else if cs[i] == '\n' {
        Some(i)
    } else {
        next_newline(cs, i + 1)
    }
}

/// The character position where line `line` starts, if the text has that many line breaks.
pub open spec fn line_start(cs: Seq<char>, line: nat) -> Option<int>
    decreases line,
{
    if line == 0 {
        Some(0)
    } else {
        match line_start(cs, (line - 1) as nat) {
            Some(p) => match next_newline(cs, p) {
                Some(q) => Some(q + 1),
                None => None,
            },
            None => None,
        }
    }
}

/// The byte offset that a position names: the character `character` places
/// after the start of line `line`, counted on through later lines; where there
/// is no such character, the offset of the last character (0 in an empty text).
pub open spec fn offset_of(cs: Seq<char>, line: nat, character: nat) -> nat {
    match line_start(cs, line) {
        Some(p) if p + character < cs.len() => byte_offset(cs, p + character),
        _ => if cs.len() == 0 {
            0
        } else {
            byte_offset(cs, cs.len() - 1)
        },
    }
}

/// The line and character reached after the characters `cs`.
pub open spec fn position_after(cs: Seq<char>) -> (nat, nat)
    decreases cs.len(),
{
    if cs.len() == 0 {
        (0, 0)
    } else {
        let (l, c) = position_after(cs.drop_last());
        if cs.last() == '\n' {
            (l + 1, 0)
        } else {
            (l, c + 1)
        }
    }
}

/// How many characters of `cs` start before the byte offset `b`.
pub open spec fn chars_before(cs: Seq<char>, b: int) -> nat
    decreases cs.len(),
{
    if cs.len() == 0 {
        0
    } else if byte_offset(cs, cs.len() - 1) < b {
        cs.len()
    } else {
        chars_before(cs.drop_last(), b)
    }
}

/// The position of the byte offset `b`: where the characters that start before it end.
pub open spec fn position_of(cs: Seq<char>, b: int) -> (nat, nat) {
    position_after(cs.take(chars_before(cs, b) as int))
}

pub open spec fn position_view(p: Position) -> (nat, nat) {
    (p.line as nat, p.character as nat)
}

proof fn lemma_next_newline(cs: Seq<char>, i: int, q: int)
    requires
        0 <= i <= q <= cs.len(),
        forall|j: int| i <= j < q ==> cs[j] != '\n',
    ensures
        next_newline(cs, i) == next_newline(cs, q),
    decreases q - i,
{
    if i < q {
        lemma_next_newline(cs, i + 1, q);
    }
}

proof fn lemma_next_newline_bound(cs: Seq<char>, i: int)
    requires
        0 <= i,
    ensures
        next_newline(cs, i) matches Some(q) ==> i <= q < cs.len() && cs[q] == '\n',
    decreases cs.len() - i,
{
    if i < cs.len() && cs[i] != '\n' {
        lemma_next_newline_bound(cs, i + 1);
    }
}

proof fn lemma_line_start_bound(cs: Seq<char>, line: nat)
    ensures
        line_start(cs, line) matches Some(p) ==> 0 <= p <= cs.len(),
    decreases line,
{
    if line > 0 {
        lemma_line_start_bound(cs, (line - 1) as nat);
        if let Some(p) = line_start(cs, (line - 1) as nat) {
            lemma_next_newline_bound(cs, p);
        }
    }
}

proof fn lemma_drop_last_offset(cs: Seq<char>, k: int)
    requires
        0 <= k < cs.len(),
    ensures
        byte_offset(cs.drop_last(), k) == byte_offset(cs, k),
{
    assert(cs.drop_last().take(k) =~= cs.take(k));
}

proof fn lemma_chars_before(cs: Seq<char>, b: int, k: int)
    requires
        0 <= k <= cs.len(),
        forall|j: int| 0 <= j < k ==> byte_offset(cs, j) < b,
        k == cs.len() || byte_offset(cs, k) >= b,
    ensures
        chars_before(cs, b) == k,
    decreases cs.len(),
{
    if cs.len() > 0 {
        let n = cs.len() as int;
        if k == n {
            assert(byte_offset(cs, n - 1) < b);
        } else {
            lemma_byte_offset_mono(cs, k, n - 1);
            let d = cs.drop_last();
            assert forall|j: int| 0 <= j < k implies byte_offset(d, j) < b by {
                lemma_drop_last_offset(cs, j);
            }
            lemma_drop_last_offset(cs, k);
            lemma_chars_before(d, b, k);
        }
    }
}

proof fn lemma_next_newline_found(cs: Seq<char>, i: int)
    requires
        0 <= i,
    ensures
        next_newline(cs, i) matches Some(q) ==> forall|j: int| i <= j < q ==> cs[j] != '\n',
    decreases cs.len() - i,
{
    if i < cs.len() && cs[i] != '\n' {
        lemma_next_newline_found(cs, i + 1);
    }
}

proof fn lemma_position_along_line(cs: Seq<char>, p: int, c: int)
    requires
        0 <= p,
        0 <= c,
        p + c <= cs.len(),
        forall|j: int| p <= j < p + c ==> cs[j] != '\n',
    ensures
        position_after(cs.take(p + c)) == (position_after(cs.take(p)).0, position_after(cs.take(p)).1 + c as nat),
    decreases c,
{
    if c > 0 {
        lemma_position_along_line(cs, p, c - 1);
        assert(cs.take(p + c).drop_last() =~= cs.take(p + c - 1));
    }
}

proof fn lemma_line_start_position(cs: Seq<char>, line: nat)
    ensures
        line_start(cs, line) matches Some(p) ==> position_after(cs.take(p)) == (line, 0nat),
    decreases line,
{
    lemma_line_start_bound(cs, line);
    if line == 0 {
        assert(cs.take(0) =~= Seq::<char>::empty());
    } else {
        lemma_line_start_position(cs, (line - 1) as nat);
        lemma_line_start_bound(cs, (line - 1) as nat);
        if let Some(p0) = line_start(cs, (line - 1) as nat) {
            lemma_next_newline_bound(cs, p0);
            lemma_next_newline_found(cs, p0);
            if let Some(q) = next_newline(cs, p0) {
                lemma_position_along_line(cs, p0, q - p0);
                assert(cs.take(q + 1).drop_last() =~= cs.take(q));
            }
        }
    }
}

proof fn lemma_position_line_start(cs: Seq<char>, k: int)
    requires
        0 <= k <= cs.len(),
    ensures
        ({
            let (l, c) = position_after(cs.take(k));
            &&& c <= k
            &&& line_start(cs, l) == Some(k - c)
            &&& forall|j: int| k - c <= j < k ==> cs[j] != '\n'
        }),
    decreases k,
{
    if k == 0 {
        assert(cs.take(0) =~= Seq::<char>::empty());
    } else {
        lemma_position_line_start(cs, k - 1);
        assert(cs.take(k).drop_last() =~= cs.take(k - 1));
        let (l0, c0) = position_after(cs.take(k - 1));
        if cs[k - 1] == '\n' {
            lemma_next_newline(cs, k - 1 - c0, k - 1);
            assert(line_start(cs, l0 + 1) == match line_start(cs, l0) {
                Some(p) => match next_newline(cs, p) {
                    Some(q) => Some(q + 1),
                    None => None,
                },
                None => None,
            });
        }
    }
}

/// A place inside a line names a byte offset whose position is that same place.
pub proof fn law_position_round_trip(cs: Seq<char>, line: nat, character: nat)
    requires
        line_start(cs, line) matches Some(p) && p + character < cs.len() && forall|j: int|
            p <= j < p + character ==> cs[j] != '\n',
    ensures
        position_of(cs, offset_of(cs, line, character) as int) == (line, character),
{
    let p = line_start(cs, line)->0;
    lemma_line_start_bound(cs, line);
    let k = p + character;
    assert forall|j: int| 0 <= j < k implies byte_offset(cs, j) < byte_offset(cs, k) by {
        crate::text::lemma_byte_offset_strict(cs, j, k);
    }
    lemma_chars_before(cs, byte_offset(cs, k) as int, k);
    lemma_line_start_position(cs, line);
    lemma_position_along_line(cs, p, character as int);
}

/// The byte offset of a character, turned into a position and back, is itself.
pub proof fn law_offset_round_trip(cs: Seq<char>, k: int)
    requires
        0 <= k < cs.len(),
    ensures
        ({
            let (l, c) = position_of(cs, byte_offset(cs, k) as int);
            offset_of(cs, l, c) == byte_offset(cs, k)
        }),
{
    assert forall|j: int| 0 <= j < k implies byte_offset(cs, j) < byte_offset(cs, k) by {
        crate::text::lemma_byte_offset_strict(cs, j, k);
    }
    lemma_chars_before(cs, byte_offset(cs, k) as int, k);
    lemma_position_line_start(cs, k);
}

/// The byte offset of a position in `source`.
pub fn position_to_offset(source: &str, pos: Position) -> (r: usize)
    requires
        source@.len() <= u32::MAX,
    ensures
        r == offset_of(source@, pos.line as nat, pos.character as nat),
{
    let cs = chars_of(source);
    let total = source.as_bytes().len();
    proof {
        lemma_utf8_len_encode(cs@);
    }
    let n = cs.len();
    let mut p: usize = 0;
    let mut line: u32 = 0;
    let mut found = true;
    while found && line < pos.line
        invariant
            cs@ == source@,
            n == cs.len(),
            line <= pos.line,
            p <= n,
            found ==> line_start(cs@, line as nat) == Some(p as int),
            !found ==> line_start(cs@, pos.line as nat) is None,
        decreases pos.line - line,
    {
        let mut q = p;
        while q < n && cs[q] != '\n'
            invariant
                cs@ == source@,
                n == cs.len(),
                p <= q <= n,
                forall|j: int| p <= j < q ==> cs@[j] != '\n',
            decreases n - q,
        {
            q = q + 1;
        }
        proof {
            lemma_next_newline(cs@, p as int, q as int);
            assert(line_start(cs@, (line + 1) as nat) == match line_start(cs@, line as nat) {
                Some(p) => match next_newline(cs@, p) {
                    Some(q) => Some(q + 1),
                    None => None,
                },
                None => None,
            });
        }
        if q == n {
            proof {
                lemma_line_start_none(cs@, (line + 1) as nat, pos.line as nat);
            }
            found = false;
        } else {
            p = q + 1;
        }
        line = line + 1;
    }
    let fallback: usize = if n == 0 {
        0
    } else {
        proof {
            lemma_byte_offset_bound(cs@, n - 1);
        }
        prefix_bytes(&cs, n - 1)
    };
    if !found {
        return fallback;
    }
    let ch = pos.character as usize;
    if ch < n - p {
        proof {
            lemma_byte_offset_bound(cs@, (p + ch) as int);
        }
        prefix_bytes(&cs, p + ch)
    } else {
        fallback
    }
}

proof fn lemma_line_start_none(cs: Seq<char>, from: nat, to: nat)
    requires
        from <= to,
        line_start(cs, from) is None,
    ensures
        line_start(cs, to) is None,
    decreases to - from,
{
    if from < to {
        lemma_line_start_none(cs, from, (to - 1) as nat);
    }
}

/// The position of the byte offset `byte_offset` in `source`.
pub fn offset_to_position(source: &str, byte_offset: usize) -> (r: Position)
    requires
        source@.len() <= u32::MAX,
    ensures
        position_view(r) == position_of(source@, byte_offset as int),
{
    let cs = chars_of(source);
    let total = source.as_bytes().len();
    proof {
        lemma_utf8_len_encode(cs@);
        assert(cs@.take(0) =~= Seq::<char>::empty());
    }
    let n = cs.len();
    let mut line: u32 = 0;
    let mut character: u32 = 0;
    let mut k: usize = 0;
    let mut b: usize = 0;
    while k < n && b < byte_offset
        invariant
            cs@ == source@,
            n == cs.len() <= u32::MAX,
            total == utf8_len(cs@),
            k <= n,
            b == crate::text::byte_offset(cs@, k as int),
            forall|j: int| 0 <= j < k ==> crate::text::byte_offset(cs@, j) < byte_offset,
            (line as nat, character as nat) == position_after(cs@.take(k as int)),
            line <= k,
            character <= k,
        decreases n - k,
    {
        proof {
            lemma_byte_offset_step(cs@, k as int);
            lemma_byte_offset_bound(cs@, k + 1);
            assert(cs@.take(k + 1).drop_last() =~= cs@.take(k as int));
        }
        if cs[k] == '\n' {
            line = line + 1;
            character = 0;
        } else {
            character = character + 1;
        }
        b = b + char_len_utf8(cs[k]);
        k = k + 1;
    }
    proof {
        lemma_chars_before(cs@, byte_offset as int, k as int);
    }
    Position { line, character }
}

/// The positions of both ends of a byte span.
pub fn span_to_range(source: &str, span: Range<usize>) -> (r: TextRange)
    requires
        source@.len() <= u32::MAX,
    ensures
        position_view(r.start) == position_of(source@, span.start as int),
        position_view(r.end) == position_of(source@, span.end as int),
{
    TextRange { start: offset_to_position(source, span.start), end: offset_to_position(source, span.end) }
}

/// A problem of a document, as an editor shows it.
#[derive(Debug)]
pub struct EditorDiagnostic {
    pub range: TextRange,
    pub message: String,
}

/// `d` shows the message `desc` over the byte span `span` of `cs`.
pub open spec fn shows(cs: Seq<char>, d: EditorDiagnostic, span: Range<usize>, desc: Seq<char>) -> bool {
    &&& position_view(d.range.start) == position_of(cs, span.start as int)
    &&& position_view(d.range.end) == position_of(cs, span.end as int)
    &&& d.message@ == desc
}

/// An error of the language as an editor problem.
pub fn to_lsp_diagnostic<D: Diagnostic>(source: &str, err: &D) -> (d: EditorDiagnostic)
    requires
        source@.len() <= u32::MAX,
    ensures
        shows(source@, d, err.span_view(), err.desc_view()),
{
    EditorDiagnostic { range: span_to_range(source, err.span()), message: err.desc() }
}

/// The problems of a document, by span and message: the lexer's errors where
/// there are any, else the parser's.
pub open spec fn document_problems(r: Result<Vec<SpannedToken>, Vec<LexError>>) -> Seq<(Range<usize>, Seq<char>)> {
    match r {
        Err(errs) => errs@.map_values(|e: LexError| (e.0, "unexpected character(s)"@)),
        Ok(tokens) => match parse_program(tokens@, 0, Seq::empty(), Seq::empty()) {
            Ok(_) => Seq::empty(),
            Err(es) => es.map_values(|e: ParseErrorView| (e.span, e.desc)),
        },
    }
}

/// `ds` shows each of `problems`, in order.
pub open spec fn shows_all(cs: Seq<char>, ds: Seq<EditorDiagnostic>, problems: Seq<(Range<usize>, Seq<char>)>) -> bool {
    &&& ds.len() == problems.len()
    &&& forall|k: int| 0 <= k < ds.len() ==> shows(cs, #[trigger] ds[k], problems[k].0, problems[k].1)
}

fn push_all<D: Diagnostic>(source: &str, errs: &Vec<D>, out: &mut Vec<EditorDiagnostic>)
    requires
        source@.len() <= u32::MAX,
    ensures
        final(out)@.len() == old(out)@.len() + errs@.len(),
        forall|k: int| 0 <= k < old(out)@.len() ==> final(out)@[k] == old(out)@[k],
        forall|k: int| 0 <= k < errs@.len() ==> shows(
            source@,
            #[trigger] final(out)@[old(out)@.len() + k],
            errs@[k].span_view(),
            errs@[k].desc_view(),
        ),
{
    let ghost start = out@.len();
    let mut i: usize = 0;
    while i < errs.len()
        invariant
            source@.len() <= u32::MAX,
            i <= errs.len(),
            out@.len() == start + i,
            start == old(out)@.len(),
            forall|k: int| 0 <= k < start ==> out@[k] == old(out)@[k],
            forall|k: int| 0 <= k < i ==> shows(source@, #[trigger] out@[start + k], errs@[k].span_view(), errs@[k].desc_view()),
        decreases errs.len() - i,
    {
        let d = to_lsp_diagnostic(source, &errs[i]);
        out.push(d);
        proof {
            assert(out@[start + i] == d);
        }
        i = i + 1;
    }
}

/// The problems that an editor shows for a document.
pub fn check_document<H: Fn(HostRequest) -> HostReply>(text: &str, host: &H) -> (ds: Vec<EditorDiagnostic>)
    requires
        text@.len() <= u32::MAX,
        host_ready(*host),
    ensures
        exists|r: Result<Vec<SpannedToken>, Vec<LexError>>|
            {
                &&& tokenize_result(text@, r)
                &&& forall|h: HostFn| #[trigger] host_is(*host, h) ==> tokenize_numbers(text@, r, h)
                &&& shows_all(text@, ds@, document_problems(r))
            },
{
    let mut ds: Vec<EditorDiagnostic> = Vec::new();
    let lexed = tokenize(text, false, host);
    let ghost r = lexed;
    match lexed {
        Ok(tokens) => {
            let ghost tv = tokens@;
            let mut parser = Parser::new(tokens, false);
            match parser.parse() {
                Ok(_) => {},
                Err(errs) => {
                    push_all(text, &errs, &mut ds);
                    proof {
                        let ps = document_problems(r);
                        assert(ps =~= errs@.map_values(|e: crate::error::ParseError| crate::parser::grammar::err_view(e)).map_values(
                            |e: ParseErrorView| (e.span, e.desc),
                        ));
                        assert forall|k: int| 0 <= k < ds@.len() implies shows(text@, #[trigger] ds@[k], ps[k].0, ps[k].1) by {
                            assert(ds@[0 + k] == ds@[k]);
                        }
                    }
                },
            }
            proof {
                assert(shows_all(text@, ds@, document_problems(r)));
            }
        },
        Err(errs) => {
            push_all(text, &errs, &mut ds);
            proof {
                let ps = document_problems(r);
                assert forall|k: int| 0 <= k < ds@.len() implies shows(text@, #[trigger] ds@[k], ps[k].0, ps[k].1) by {
                    assert(ds@[0 + k] == ds@[k]);
                }
                assert(shows_all(text@, ds@, document_problems(r)));
            }
        },
    }
    ds
}

/// What an editor shows for a token under the cursor; nothing for a parenthesis,
/// or where the host answers a number with a reply of the wrong kind.
pub open spec fn hover_text(t: Token, h: HostFn) -> Option<Seq<char>> {
    match t {
        Token::String(s) => Some("String literal: `"@ + s@ + "`"@),
        Token::Number(d) => match h(HostRequestView::ParseNumber(d@)) {
            HostReplyView::Number(n) => match h(HostRequestView::NumberText(n)) {
                HostReplyView::Text(x) => Some("Number literal: `"@ + x + "`"@),
                _ => None,
            },
            _ => None,
        },
        Token::True => Some("Boolean literal: `big`"@),
        Token::False => Some("Boolean literal: `small`"@),
        Token::Identifier(s) => Some("Identifier: `"@ + s@ + "`"@),
        Token::Throw | Token::Rock | Token::At => Some("Keyword inside variable definition"@),
        Token::Named => Some("Keyword inside string variable definition"@),
        Token::Present => Some("Built in print function"@),
        Token::Smash | Token::Smashed => Some("Addition operator"@),
        Token::Chip | Token::Chipped => Some("Subtraction operator"@),
        Token::Mate | Token::Mated => Some("Multiplication operator"@),
        Token::Split => Some("Division operator"@),
        Token::Into => Some("Keyword for defining functions / Addition operator helper"@),
        Token::Off => Some("Subtraction operator helper"@),
        Token::With => Some("Keyword for passing an argument into a function / Multiplication operator helper"@),
        Token::From => Some("Division operator helper"@),
        Token::LParen | Token::RParen => None,
        Token::Carve | Token::Instruction => Some("Keywoord for defining functions"@),
        Token::Retrieve => Some("Keyword for accessing function arguments"@),
        Token::Follow => Some("Keyword for calling functions"@),
        Token::And => Some("Keyword for passing more than 1 argument into a function"@),
        Token::Engrave => Some("Keyword for returning values"@),
        Token::Enough => Some("Keyword to indicate the end of a code block"@),
        Token::Weigh => Some("Comparison operator (x >= y)"@),
        Token::Against => Some("Comparison operator helper"@),
        Token::Inspect => Some("Keyword to start an if statement"@),
        Token::Refine => Some("Keyword to start an else statement"@),
        Token::Roll | Token::While => Some("Keyword inside while loop"@),
        Token::Destroy => Some("Keyword to break a while loop"@),
    }
}

pub open spec fn text_view(r: Option<String>) -> Option<Seq<char>> {
    match r {
        Some(s) => Some(s@),
        None => None,
    }
}

/// `before`, then `middle`, then a backtick.
fn quoted(before: &str, middle: &str) -> (r: String)
    ensures
        r@ == before@ + middle@ + "`"@,
{
    let mut r = string_of(before);
    push_str_chars(&mut r, middle);
    push_str_chars(&mut r, "`");
    r
}

fn some_text(t: &str) -> (r: Option<String>)
    ensures
        text_view(r) == Some(t@),
{
    Some(string_of(t))
}

/// The text that an editor shows for a token.
pub fn hover_message<H: Fn(HostRequest) -> HostReply>(token: &Token, host: &H) -> (r: Option<String>)
    requires
        host_ready(*host),
    ensures
        forall|h: HostFn| #[trigger] host_is(*host, h) ==> text_view(r) == hover_text(*token, h),
{
    match token {
        Token::String(s) => Some(quoted("String literal: `", s.as_str())),
        Token::Number(d) => {
            let q = HostRequest::ParseNumber(d.clone());
            let ghost qv = q@;
            match host(q) {
                HostReply::Number(n) => {
                    let q2 = HostRequest::NumberText(n);
                    let ghost qv2 = q2@;
                    match host(q2) {
                        HostReply::Text(x) => Some(quoted("Number literal: `", x.as_str())),
                        _ => None,
                    }
                },
                _ => None,
            }
        },
        Token::True => some_text("Boolean literal: `big`"),
        Token::False => some_text("Boolean literal: `small`"),
        Token::Identifier(s) => Some(quoted("Identifier: `", s.as_str())),
        Token::Throw | Token::Rock | Token::At => some_text("Keyword inside variable definition"),
        Token::Named => some_text("Keyword inside string variable definition"),
        Token::Present => some_text("Built in print function"),
        Token::Smash | Token::Smashed => some_text("Addition operator"),
        Token::Chip | Token::Chipped => some_text("Subtraction operator"),
        Token::Mate | Token::Mated => some_text("Multiplication operator"),
        Token::Split => some_text("Division operator"),
        Token::Into => some_text("Keyword for defining functions / Addition operator helper"),
        Token::Off => some_text("Subtraction operator helper"),
        Token::With => some_text("Keyword for passing an argument into a function / Multiplication operator helper"),
        Token::From => some_text("Division operator helper"),
        Token::LParen | Token::RParen => None,
        Token::Carve | Token::Instruction => some_text("Keywoord for defining functions"),
        Token::Retrieve => some_text("Keyword for accessing function arguments"),
        Token::Follow => some_text("Keyword for calling functions"),
        Token::And => some_text("Keyword for passing more than 1 argument into a function"),
        Token::Engrave => some_text("Keyword for returning values"),
        Token::Enough => some_text("Keyword to indicate the end of a code block"),
        Token::Weigh => some_text("Comparison operator (x >= y)"),
        Token::Against => some_text("Comparison operator helper"),
        Token::Inspect => some_text("Keyword to start an if statement"),
        Token::Refine => some_text("Keyword to start an else statement"),
        Token::Roll | Token::While => some_text("Keyword inside while loop"),
        Token::Destroy => some_text("Keyword to break a while loop"),
    }
}

/// What an editor shows on hovering: a message, and the place of the token it is about.
#[derive(Debug)]
pub struct HoverInfo {
    pub message: String,
    pub range: TextRange,
}

/// The first token from index `i` on whose span holds the byte offset `off`.
pub open spec fn first_containing(ts: Seq<SpannedToken>, off: int, i: int) -> Option<int>
    decreases ts.len() - i,
{
    if i < 0 || i >= ts.len() {
        None
    } else if ts[i].span.start <= off < ts[i].span.end {
        Some(i)
    } else {
        first_containing(ts, off, i + 1)
    }
}

/// What hovering at `pos` shows, for the result `r` of lexing the document.
pub open spec fn hover_result(cs: Seq<char>, pos: Position, r: Result<Vec<SpannedToken>, Vec<LexError>>, h: HostFn, res: Option<HoverInfo>) -> bool {
    match r {
        Err(_) => res is None,
        Ok(tokens) => match first_containing(tokens@, offset_of(cs, pos.line as nat, pos.character as nat) as int, 0) {
            None => res is None,
            Some(k) => match hover_text(tokens@[k].token, h) {
                None => res is None,
                Some(m) => res matches Some(info) && info.message@ == m && position_view(info.range.start) == position_of(
                    cs,
                    tokens@[k].span.start as int,
                ) && position_view(info.range.end) == position_of(cs, tokens@[k].span.end as int),
            },
        },
    }
}

/// What an editor shows when the cursor rests at `pos` of `text`.
pub fn hover<H: Fn(HostRequest) -> HostReply>(text: &str, pos: Position, host: &H) -> (res: Option<HoverInfo>)
    requires
        text@.len() <= u32::MAX,
        host_ready(*host),
    ensures
        exists|r: Result<Vec<SpannedToken>, Vec<LexError>>|
            tokenize_result(text@, r) && forall|h: HostFn| #[trigger] host_is(*host, h) ==> tokenize_numbers(text@, r, h)
                && hover_result(text@, pos, r, h, res),
{
    let offset = position_to_offset(text, pos);
    let lexed = tokenize(text, false, host);
    let ghost r = lexed;
    let tokens = match lexed {
        Ok(t) => t,
        Err(_) => {
            assert(tokenize_result(text@, r) && forall|h: HostFn| #[trigger] host_is(*host, h) ==> tokenize_numbers(text@, r, h)
                && hover_result(text@, pos, r, h, None));
            return None;
        },
    };
    let mut i: usize = 0;
    while i < tokens.len()
        invariant
            i <= tokens.len(),
            first_containing(tokens@, offset as int, 0) == first_containing(tokens@, offset as int, i as int),
        ensures
            i < tokens.len() ==> tokens@[i as int].span.start <= offset < tokens@[i as int].span.end,
            first_containing(tokens@, offset as int, 0) == first_containing(tokens@, offset as int, i as int),
        decreases tokens.len() - i,
    {
        if tokens[i].span.start <= offset && offset < tokens[i].span.end {
            break;
        }
        i = i + 1;
    }
    if i == tokens.len() {
        assert(tokenize_result(text@, r) && forall|h: HostFn| #[trigger] host_is(*host, h) ==> tokenize_numbers(text@, r, h)
            && hover_result(text@, pos, r, h, None));
        return None;
    }
    let t = &tokens[i];
    let res = match hover_message(&t.token, host) {
        Some(message) => Some(HoverInfo { message, range: span_to_range(text, Range { start: t.span.start, end: t.span.end }) }),
        None => None,
    };
    assert(tokenize_result(text@, r) && forall|h: HostFn| #[trigger] host_is(*host, h) ==> tokenize_numbers(text@, r, h)
        && hover_result(text@, pos, r, h, res));
    res
}

/// How many times `p` occurs in `s`, taking matches from left to right that do not overlap.
pub open spec fn count_matches(s: Seq<char>, p: Seq<char>) -> nat
    decreases s.len(),
{
    if p.len() == 0 || s.len() < p.len() {
        0
    } else if s.take(p.len() as int) == p {
        1 + count_matches(s.skip(p.len() as int), p)
    } else {
        count_matches(s.drop_first(), p)
    }
}

/// Whether `p` stands in `s` at position `i`.
fn matches_at(s: &Vec<char>, i: usize, p: &Vec<char>) -> (r: bool)
    requires
        i + p.len() <= s.len(),
    ensures
        r == (s@.subrange(i as int, i + p.len()) == p@),
{
    let mut k: usize = 0;
    while k < p.len()
        invariant
            i + p.len() <= s.len(),
            k <= p.len(),
            forall|j: int| 0 <= j < k ==> s@[i + j] == p@[j],
        decreases p.len() - k,
    {
        if s[i + k] != p[k] {
            assert(s@.subrange(i as int, i + p.len())[k as int] != p@[k as int]);
            return false;
        }
        k = k + 1;
    }
    assert(s@.subrange(i as int, i + p.len()) =~= p@);
    true
}

/// The number of matches of `pattern` in `s`, as `count_matches` counts them.
fn count_occurrences(s: &Vec<char>, pattern: &str) -> (r: usize)
    requires
        pattern@.len() > 0,
    ensures
        r == count_matches(s@, pattern@),
        r * pattern@.len() <= s@.len(),
{
    let p = chars_of(pattern);
    let m = p.len();
    let n = s.len();
    let mut i: usize = 0;
    let mut c: usize = 0;
    proof {
        assert(s@.skip(0) =~= s@);
    }
    while m <= n - i
        invariant
            p@ == pattern@,
            m == p.len() > 0,
            n == s.len(),
            i <= n,
            c * m <= i,
            c <= i,
            count_matches(s@, p@) == c + count_matches(s@.skip(i as int), p@),
        decreases n - i,
    {
        let ghost t = s@.skip(i as int);
        proof {
            assert(t.take(m as int) =~= s@.subrange(i as int, i + m));
            assert(t.skip(m as int) =~= s@.skip(i + m));
            assert(t.drop_first() =~= s@.skip(i + 1));
        }
        if matches_at(s, i, &p) {
            proof {
                assert((c + 1) * m == c * m + m) by (nonlinear_arith);
            }
            c = c + 1;
            i = i + m;
        } else {
            i = i + 1;
        }
    }
    c
}

/// Whether an input typed into the REPL is complete.
#[derive(Debug, Clone, Copy, PartialEq, Eq, Structural)]
pub enum Validation {
    /// Some block is still open: the REPL waits for more lines.
    Incomplete,
    Valid,
}

/// The blocks that a text opens: loops, function definitions and conditionals.
pub open spec fn blocks_opened(s: Seq<char>) -> nat {
    count_matches(s, "roll while"@) + count_matches(s, "carve instruction into"@) + count_matches(s, "inspect"@)
}

/// The blocks that a text closes.
pub open spec fn blocks_closed(s: Seq<char>) -> nat {
    count_matches(s, "enough"@)
}

/// An input is incomplete while it opens more blocks than it closes.
pub fn validate(input: &str) -> (r: Validation)
    ensures
        (r == Validation::Incomplete) == (blocks_opened(input@) > blocks_closed(input@)),
{
    proof {
        reveal_strlit("roll while");
        reveal_strlit("carve instruction into");
        reveal_strlit("inspect");
        reveal_strlit("enough");
    }
    let s = chars_of(input);
    let loops = count_occurrences(&s, "roll while");
    let functions = count_occurrences(&s, "carve instruction into");
    let conditionals = count_occurrences(&s, "inspect");
    let closes = count_occurrences(&s, "enough");
    let total = s.len();
    proof {
        assert("roll while"@.len() == 10);
        assert("carve instruction into"@.len() == 22);
        assert("inspect"@.len() == 7);
        let n = total as int;
        assert(loops + functions + conditionals <= n) by (nonlinear_arith)
            requires
                loops * 10 <= n,
                functions * 22 <= n,
                conditionals * 7 <= n,
        ;
    }
    let opens = loops + functions + conditionals;
    if opens > closes {
        Validation::Incomplete
    } else {
        Validation::Valid
    }
}

} // verus!
