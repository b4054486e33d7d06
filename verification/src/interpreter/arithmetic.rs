//! Operations on values: arithmetic, weighing, and writing values as text.
use std::ops::Range;
use vstd::prelude::*;
use crate::error::RuntimeError;
use crate::interpreter::model::{self, HostFn, HostReplyView, ValueView};
use crate::interpreter::{
    HostReply, HostRequest, Interpreter, Value, bad_reply, error_view, host_is, host_ready, same_bindings, throw,
    value_result,
};
use crate::parser::expression::BinaryOp;
use crate::text::{chars_of, lemma_utf8_len_encode, push_str_chars, string_of};

verus! {

/// `a` comes before `b` in the lexicographic order of characters.
pub fn text_less(a: &String, b: &String) -> (r: bool)
    ensures
        r == model::text_less(a@, b@),
{
    let x = chars_of(a.as_str());
    let y = chars_of(b.as_str());
    let mut i: usize = 0;
    assert(x@.skip(0) =~= x@);
    assert(y@.skip(0) =~= y@);
    while i < x.len() && i < y.len() && x[i] == y[i]
        invariant
            i <= x@.len(),
            i <= y@.len(),
            model::text_less(x@, y@) == model::text_less(x@.skip(i as int), y@.skip(i as int)),
        decreases x@.len() - i,
    {
        proof {
            assert(x@.skip(i as int).drop_first() =~= x@.skip(i + 1));
            assert(y@.skip(i as int).drop_first() =~= y@.skip(i + 1));
        }
        i += 1;
    }
    if i == x.len() {
        i < y.len()
    } else if i == y.len() {
        false
    } else {
        (x[i] as u32) < (y[i] as u32)
    }
}

/// `s` written `count` times, or `None` where that many bytes do not fit in a `usize`.
pub fn repeat_text(s: &String, count: usize) -> (r: Option<String>)
    ensures
        match r {
            Some(t) => s@.len() == 0 && t@ == Seq::<char>::empty() || s@.len() > 0 && crate::text::utf8_len(s@)
                * count <= usize::MAX && t@ == model::repeat(s@, count as nat),
            None => s@.len() > 0 && crate::text::utf8_len(s@) * count > usize::MAX,
        },
{
    let bytes = s.as_str().as_bytes().len();
    proof {
        lemma_utf8_len_encode(s@);
    }
    if s.as_str().as_bytes().len() == 0 {
        proof {
            if s@.len() > 0 {
                assert(crate::text::utf8_len(s@) > 0);
            }
        }
        return Some(String::new());
    }
    proof {
        if s@.len() == 0 {
            assert(crate::text::utf8_len(s@) == 0);
        }
    }
    match bytes.checked_mul(count) {
        None => None,
        Some(_) => {
            let mut t = String::new();
            let mut k: usize = 0;
            while k < count
                invariant
                    k <= count,
                    t@ == model::repeat(s@, k as nat),
                decreases count - k,
            {
                push_str_chars(&mut t, s.as_str());
                k += 1;
            }
            Some(t)
        },
    }
}

pub fn kind_name(v: &Value) -> (r: &'static str)
    ensures
        r@ == model::kind_name(v@),
{
    match v {
        Value::Boolean(_) => "boolean",
        Value::Number(_) => "number",
        Value::String(_) => "string",
        Value::Nil => "nil",
    }
}

/// The error for an operation on values of kinds it does not take.
pub fn mismatch(op: BinaryOp, lhs: &Value, rhs: &Value, span: &Range<usize>) -> (r: RuntimeError)
    ensures
        error_view(r) == model::mismatch(op, lhs@, rhs@, *span),
{
    let (verb, prep) = match op {
        BinaryOp::Add => ("add", "to"),
        BinaryOp::Sub => ("subtract", "from"),
        BinaryOp::Mul => ("multiply", "by"),
        BinaryOp::Div => ("divide", "by"),
    };
    let mut desc = string_of("attempted to ");
    push_str_chars(&mut desc, verb);
    push_str_chars(&mut desc, " ");
    push_str_chars(&mut desc, kind_name(rhs));
    push_str_chars(&mut desc, " ");
    push_str_chars(&mut desc, prep);
    push_str_chars(&mut desc, " ");
    push_str_chars(&mut desc, kind_name(lhs));
    RuntimeError { desc, span: Range { start: span.start, end: span.end } }
}

impl Interpreter {
    /// A number from a host reply, or the error for a wrong reply.
    fn number_reply(reply: HostReply, span: &Range<usize>) -> (r: Result<Value, RuntimeError>)
        ensures
            r matches Ok(v) ==> reply@ matches HostReplyView::Number(n) && v == Value::Number(n),
            r is Err ==> !(reply@ is Number) && error_view(r->Err_0) == model::bad_reply(*span),
    {
        match reply {
            HostReply::Number(n) => Ok(Value::Number(n)),
            _ => Err(bad_reply(span)),
        }
    }

    /// `s` repeated as many times as the number `n` counts.
    fn repeat_by<H: Fn(HostRequest) -> HostReply>(
        &mut self,
        s: &String,
        n: u64,
        span: &Range<usize>,
        host: &H,
    ) -> (r: Result<Value, RuntimeError>)
        requires
            old(self).wf(),
            host_ready(*host),
        ensures
            final(self).wf(),
            same_bindings(old(self)@, final(self)@),
            forall|h: HostFn| #[trigger] host_is(*host, h) ==> (value_result(r), final(self)@) == model::repeat_by(
                old(self)@,
                s@,
                n,
                *span,
                h,
            ),
    {
        match self.ask(host, HostRequest::RepeatCount(n)) {
            HostReply::Count(c) => match repeat_text(s, c) {
                Some(t) => Ok(Value::String(t)),
                None => throw("capacity overflow", span),
            },
            _ => Err(bad_reply(span)),
        }
    }

    /// The result of `lhs op rhs`, as `model::calculate` says.
    pub fn calculate<H: Fn(HostRequest) -> HostReply>(
        &mut self,
        operation: BinaryOp,
        lhs: Value,
        rhs: Value,
        span: &Range<usize>,
        host: &H,
    ) -> (r: Result<Value, RuntimeError>)
        requires
            old(self).wf(),
            host_ready(*host),
        ensures
            final(self).wf(),
            same_bindings(old(self)@, final(self)@),
            forall|h: HostFn| #[trigger] host_is(*host, h) ==> (value_result(r), final(self)@) == model::calculate(
                old(self)@,
                operation,
                lhs@,
                rhs@,
                *span,
                h,
            ),
    {
        match operation {
            BinaryOp::Add => match (&rhs, &lhs) {
                (Value::Number(a), Value::Number(b)) => {
                    let reply = self.ask(host, HostRequest::Arithmetic(operation, *a, *b));
                    Self::number_reply(reply, span)
                },
                (Value::String(s1), Value::Number(n)) => match self.ask(host, HostRequest::NumberText(*n)) {
                    HostReply::Text(t) => {
                        let mut s = s1.clone();
                        push_str_chars(&mut s, t.as_str());
                        Ok(Value::String(s))
                    },
                    _ => Err(bad_reply(span)),
                },
                (Value::String(s1), Value::String(s2)) => {
                    let mut s = s1.clone();
                    push_str_chars(&mut s, s2.as_str());
                    Ok(Value::String(s))
                },
                (Value::String(s1), Value::Boolean(b)) => {
                    let mut s = s1.clone();
                    push_str_chars(&mut s, if *b { "true" } else { "false" });
                    Ok(Value::String(s))
                },
                _ => Err(mismatch(operation, &lhs, &rhs, span)),
            },
            BinaryOp::Sub | BinaryOp::Div => match (&rhs, &lhs) {
                (Value::Number(a), Value::Number(b)) => {
                    let reply = self.ask(host, HostRequest::Arithmetic(operation, *a, *b));
                    Self::number_reply(reply, span)
                },
                _ => Err(mismatch(operation, &lhs, &rhs, span)),
            },
            BinaryOp::Mul => match (&rhs, &lhs) {
                (Value::Number(a), Value::Number(b)) => {
                    let reply = self.ask(host, HostRequest::Arithmetic(operation, *a, *b));
                    Self::number_reply(reply, span)
                },
                (Value::Number(n), Value::String(s)) => self.repeat_by(s, *n, span, host),
                (Value::String(s), Value::Number(n)) => self.repeat_by(s, *n, span, host),
                _ => Err(mismatch(operation, &lhs, &rhs, span)),
            },
        }
    }

    /// `weigh l against r`, as `model::weigh` says.
    pub fn weigh<H: Fn(HostRequest) -> HostReply>(
        &mut self,
        l: Value,
        r: Value,
        span: &Range<usize>,
        host: &H,
    ) -> (res: Result<Value, RuntimeError>)
        requires
            old(self).wf(),
            host_ready(*host),
        ensures
            final(self).wf(),
            same_bindings(old(self)@, final(self)@),
            forall|h: HostFn| #[trigger] host_is(*host, h) ==> (value_result(res), final(self)@) == model::weigh(
                old(self)@,
                l@,
                r@,
                *span,
                h,
            ),
    {
        match (&l, &r) {
            (Value::Number(a), Value::Number(b)) => match self.ask(host, HostRequest::AtLeast(*a, *b)) {
                HostReply::Truth(t) => Ok(Value::Boolean(t)),
                _ => Err(bad_reply(span)),
            },
            (Value::String(a), Value::String(b)) => Ok(Value::Boolean(!text_less(a, b))),
            (Value::Boolean(a), Value::Boolean(b)) => Ok(Value::Boolean(*a || !*b)),
            (Value::Nil, Value::Nil) => Ok(Value::Boolean(true)),
            _ => {
                let rank_l: u8 = match &l {
                    Value::Number(_) => 0,
                    Value::String(_) => 1,
                    Value::Boolean(_) => 2,
                    Value::Nil => 3,
                };
                let rank_r: u8 = match &r {
                    Value::Number(_) => 0,
                    Value::String(_) => 1,
                    Value::Boolean(_) => 2,
                    Value::Nil => 3,
                };
                Ok(Value::Boolean(rank_l >= rank_r))
            },
        }
    }

    /// The text that `present` writes for a value, as `model::display` says.
    pub fn display<H: Fn(HostRequest) -> HostReply>(
        &mut self,
        v: &Value,
        span: &Range<usize>,
        host: &H,
    ) -> (r: Result<String, RuntimeError>)
        requires
            old(self).wf(),
            host_ready(*host),
        ensures
            final(self).wf(),
            same_bindings(old(self)@, final(self)@),
            forall|h: HostFn| #[trigger] host_is(*host, h) ==> ({
                let (m, st) = model::display(old(self)@, v@, *span, h);
                &&& final(self)@ == st
                &&& match (r, m) {
                    (Ok(t), Ok(u)) => t@ == u,
                    (Err(e), Err(x)) => error_view(e) == x,
                    _ => false,
                }
            }),
    {
        match v {
            Value::Number(n) => match self.ask(host, HostRequest::NumberText(*n)) {
                HostReply::Text(t) => Ok(t),
                _ => Err(bad_reply(span)),
            },
            Value::String(s) => Ok(s.clone()),
            Value::Boolean(b) => Ok(string_of(if *b { "big" } else { "small" })),
            Value::Nil => Ok(string_of("nil")),
        }
    }
}

} // verus!
