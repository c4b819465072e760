//! Shader text read as programs, as far as compute shaders here use it: buffers bound by
//! numbers, and one expression for each element, in which every operation has its own
//! brackets.

use crate::soft_float::{f32_of_f64, f64_of_f32, float_answer, FloatOp};
use crate::text::{decimal, digit_text};
use vstd::prelude::*;

verus! {

// ─── Reading ─────────────────────────────────────────────────────────────────

/// That a text starts with another.
pub open spec fn starts(s: Seq<char>, t: Seq<char>) -> bool {
    t.len() <= s.len() && s.subrange(0, t.len() as int) == t
}

/// A text without its first `n` characters.
pub open spec fn past(s: Seq<char>, n: nat) -> Seq<char> {
    s.subrange(n as int, s.len() as int)
}

/// The characters at the start of a text of which `p` holds.
pub open spec fn run_len(s: Seq<char>, p: spec_fn(char) -> bool) -> nat
    decreases s.len(),
{
    if s.len() > 0 && p(s[0]) {
        1 + run_len(past(s, 1), p)
    } else {
        0
    }
}

pub open spec fn is_digit(c: char) -> bool {
    '0' <= c <= '9'
}

/// The number that digits write.
pub open spec fn digits_value(s: Seq<char>) -> nat
    decreases s.len(),
{
    if s.len() == 0 {
        0
    } else {
        10 * digits_value(s.drop_last()) + (s.last() as nat - '0' as nat) as nat
    }
}

/// The number at the start of a text, and the text behind it.
pub open spec fn read_number(s: Seq<char>) -> Option<(nat, Seq<char>)> {
    let n = run_len(s, |c: char| is_digit(c));
    if n == 0 {
        None
    } else {
        Some((digits_value(s.subrange(0, n as int)), past(s, n)))
    }
}

/// The text behind another at its start.
pub open spec fn expect(s: Seq<char>, t: Seq<char>) -> Option<Seq<char>> {
    if starts(s, t) {
        Some(past(s, t.len()))
    } else {
        None
    }
}

/// An expression of a shader: an element of an input, a number as it is written, or an
/// operation.
pub enum Term {
    Input(nat),
    Number(Seq<char>),
    Op(FloatOp, Box<Term>, Box<Term>),
}

/// The operation that a sign stands for.
pub open spec fn sign_op(c: char) -> Option<FloatOp> {
    if c == '+' {
        Some(FloatOp::Add)
    } else if c == '-' {
        Some(FloatOp::Sub)
    } else if c == '*' {
        Some(FloatOp::Mul)
    } else if c == '/' {
        Some(FloatOp::Div)
    } else {
        None
    }
}

/// That a character ends a number.
pub open spec fn is_break(c: char) -> bool {
    c == ' ' || c == ')' || c == ';'
}

/// The expression at the start of a text, and the text behind it. The element of an
/// input at hand is written as its number between `pre` and `post`.
pub open spec fn read_term(s: Seq<char>, pre: Seq<char>, post: Seq<char>) -> Option<
    (Term, Seq<char>),
>
    decreases s.len(),
{
    if s.len() > 0 && s[0] == '(' {
        match read_term(past(s, 1), pre, post) {
            None => None,
            Some((l, r)) => if r.len() < 3 || r.len() >= s.len() || r[0] != ' ' || r[2] != ' ' {
                None
            } else {
                match (sign_op(r[1]), read_term(past(r, 3), pre, post)) {
                    (Some(op), Some((m, q))) => if q.len() > 0 && q[0] == ')' {
                        Some((Term::Op(op, Box::new(l), Box::new(m)), past(q, 1)))
                    } else {
                        None
                    },
                    _ => None,
                }
            },
        }
    } else if starts(s, pre) {
        match read_number(past(s, pre.len())) {
            None => None,
            Some((k, r)) => match expect(r, post) {
                None => None,
                Some(q) => Some((Term::Input(k), q)),
            },
        }
    } else {
        let n = run_len(s, |c: char| !is_break(c));
        if n == 0 {
            None
        } else {
            Some((Term::Number(s.subrange(0, n as int)), past(s, n)))
        }
    }
}

/// The double that an expression yields where the element of input `k` is `xs(k)`, and
/// numbers are what `number` reads.
pub open spec fn term_value<F: Fn(FloatOp, u64, u64) -> u64>(
    f: F,
    number: spec_fn(Seq<char>) -> u64,
    xs: spec_fn(nat) -> u64,
    t: Term,
) -> u64
    decreases t,
{
    match t {
        Term::Input(k) => xs(k),
        Term::Number(s) => number(s),
        Term::Op(op, l, r) => float_answer(
            f,
            op,
            term_value(f, number, xs, *l),
            term_value(f, number, xs, *r),
        ),
    }
}

/// That a text is read as a number of an expression, and `number` reads it as `v`.
pub open spec fn reads_as(
    number: spec_fn(Seq<char>) -> u64,
    pre: Seq<char>,
    s: Seq<char>,
    v: u64,
) -> bool {
    &&& s.len() > 0
    &&& s[0] != '('
    &&& forall|i: int| 0 <= i < s.len() ==> !is_break(#[trigger] s[i])
    &&& forall|rest: Seq<char>| !starts(#[trigger] (s + rest), pre)
    &&& number(s) == v
}

// ─── Shaders ─────────────────────────────────────────────────────────────────

/// A compute shader: the binding of its output, its inputs with their bindings and
/// numbers, the number of elements that it stores unless it stores as many as the output
/// has, and the expression that it stores for each.
pub struct Shader {
    pub output: nat,
    pub inputs: Seq<(nat, nat)>,
    pub bound: Option<nat>,
    pub term: Term,
}

/// The binding of the input with a number.
pub open spec fn binding_of(inputs: Seq<(nat, nat)>, k: nat) -> nat {
    let j = choose|j: int| 0 <= j < inputs.len() && (#[trigger] inputs[j]).1 == k;
    inputs[j].0
}

/// The single that a shader stores as element `i` of an output of `len` elements, where
/// `buffers(b)` is the input that is bound to `b`. Inputs are widened and the result is
/// narrowed.
pub open spec fn stored_element<F: Fn(FloatOp, u64, u64) -> u64>(
    f: F,
    number: spec_fn(Seq<char>) -> u64,
    buffers: spec_fn(nat) -> Seq<u32>,
    sh: Shader,
    len: nat,
    i: nat,
) -> Option<u32> {
    if i < len && (sh.bound matches Some(b) ==> i < b) {
        Some(
            f32_of_f64(
                term_value(
                    f,
                    number,
                    |k: nat| f64_of_f32(buffers(binding_of(sh.inputs, k))[i as int]),
                    sh.term,
                ),
            ),
        )
    } else {
        None
    }
}

/// Inputs that are bound in order, from binding `first` on.
pub open spec fn bound_from(first: nat, bufs: Seq<Seq<u32>>) -> spec_fn(nat) -> Seq<u32> {
    |b: nat|
        if first <= b < first + bufs.len() {
            bufs[b - first]
        } else {
            Seq::empty()
        }
}

/// What a list of buffers holds.
pub open spec fn contents(bufs: Seq<Vec<u32>>) -> Seq<Seq<u32>> {
    Seq::new(bufs.len(), |k: int| bufs[k]@)
}

/// Inputs that are numbered in order, and bound in order from binding `first` on.
pub open spec fn numbered_from(first: nat, n: nat) -> Seq<(nat, nat)> {
    Seq::new(n, |j: int| ((first + j) as nat, j as nat))
}

pub proof fn lemma_binding(first: nat, n: nat, k: nat)
    requires
        k < n,
    ensures
        binding_of(numbered_from(first, n), k) == first + k,
{
    let inputs = numbered_from(first, n);
    assert(inputs[k as int].1 == k);
}

// ─── Facts ───────────────────────────────────────────────────────────────────

pub proof fn lemma_run(t: Seq<char>, rest: Seq<char>, p: spec_fn(char) -> bool)
    requires
        forall|i: int| 0 <= i < t.len() ==> p(#[trigger] t[i]),
        rest.len() == 0 || !p(rest[0]),
    ensures
        run_len(t + rest, p) == t.len(),
    decreases t.len(),
{
    let s = t + rest;
    if t.len() == 0 {
        assert(s =~= rest);
    } else {
        assert(s[0] == t[0]);
        let u = t.subrange(1, t.len() as int);
        assert forall|i: int| 0 <= i < u.len() implies p(#[trigger] u[i]) by {
            assert(u[i] == t[i + 1]);
        }
        lemma_run(u, rest, p);
        assert(past(s, 1) =~= u + rest);
    }
}

proof fn lemma_digit(d: nat)
    requires
        d < 10,
    ensures
        digit_text(d).len() == 1,
        is_digit(digit_text(d)[0]),
        digit_text(d)[0] as nat - '0' as nat == d,
{
    reveal_strlit("0");
    reveal_strlit("1");
    reveal_strlit("2");
    reveal_strlit("3");
    reveal_strlit("4");
    reveal_strlit("5");
    reveal_strlit("6");
    reveal_strlit("7");
    reveal_strlit("8");
    reveal_strlit("9");
}

/// A number in decimal is read as that number.
pub proof fn law_decimal_is_read(n: nat)
    ensures
        decimal(n).len() > 0,
        forall|i: int| 0 <= i < decimal(n).len() ==> is_digit(#[trigger] decimal(n)[i]),
        digits_value(decimal(n)) == n,
    decreases n,
{
    if n < 10 {
        lemma_digit(n);
        let s = decimal(n);
        assert(s.drop_last() =~= Seq::empty());
        assert(digits_value(s.drop_last()) == 0);
    } else {
        law_decimal_is_read(n / 10);
        lemma_digit(n % 10);
        let s = decimal(n);
        assert(s.drop_last() =~= decimal(n / 10));
        assert(s.last() == digit_text(n % 10)[0]);
        assert forall|i: int| 0 <= i < s.len() implies is_digit(#[trigger] s[i]) by {
            if i < s.len() - 1 {
                assert(s[i] == decimal(n / 10)[i]);
            }
        }
    }
}

pub proof fn lemma_number_read(n: nat, rest: Seq<char>)
    requires
        rest.len() == 0 || !is_digit(rest[0]),
    ensures
        read_number(decimal(n) + rest) == Some((n, rest)),
{
    law_decimal_is_read(n);
    lemma_run(decimal(n), rest, |c: char| is_digit(c));
    let s = decimal(n) + rest;
    assert(s.subrange(0, decimal(n).len() as int) =~= decimal(n));
    assert(past(s, decimal(n).len()) =~= rest);
}

pub proof fn lemma_expect(t: Seq<char>, rest: Seq<char>)
    ensures
        starts(t + rest, t),
        expect(t + rest, t) == Some(rest),
        past(t + rest, t.len()) == rest,
{
    assert((t + rest).subrange(0, t.len() as int) =~= t);
    assert(past(t + rest, t.len()) =~= rest);
}

/// How an input is read.
pub proof fn lemma_input_read(pre: Seq<char>, k: nat, post: Seq<char>, rest: Seq<char>)
    requires
        pre.len() > 0,
        pre[0] != '(',
        post.len() > 0,
        !is_digit(post[0]),
    ensures
        read_term(pre + decimal(k) + post + rest, pre, post) == Some((Term::Input(k), rest)),
{
    let s = pre + decimal(k) + post + rest;
    let r = decimal(k) + (post + rest);
    assert(s =~= pre + r);
    lemma_expect(pre, r);
    lemma_number_read(k, post + rest);
    lemma_expect(post, rest);
}

/// How a number is read.
pub proof fn lemma_constant_read(
    number: spec_fn(Seq<char>) -> u64,
    pre: Seq<char>,
    post: Seq<char>,
    s: Seq<char>,
    v: u64,
    rest: Seq<char>,
)
    requires
        reads_as(number, pre, s, v),
        rest.len() > 0,
        is_break(rest[0]),
    ensures
        read_term(s + rest, pre, post) == Some((Term::Number(s), rest)),
{
    lemma_run(s, rest, |c: char| !is_break(c));
    assert((s + rest)[0] == s[0]);
    assert((s + rest).subrange(0, s.len() as int) =~= s);
    assert(past(s + rest, s.len()) =~= rest);
}

/// How an operation is read.
proof fn lemma_operation_read(
    pre: Seq<char>,
    post: Seq<char>,
    op: FloatOp,
    sign: Seq<char>,
    a: Seq<char>,
    l: Term,
    b: Seq<char>,
    r: Term,
    rest: Seq<char>,
)
    requires
        sign.len() == 3,
        sign[0] == ' ',
        sign_op(sign[1]) == Some(op),
        sign[2] == ' ',
        read_term(a + (sign + b + seq![')'] + rest), pre, post) == Some(
            (l, sign + b + seq![')'] + rest),
        ),
        read_term(b + (seq![')'] + rest), pre, post) == Some((r, seq![')'] + rest)),
    ensures
        read_term(seq!['('] + a + sign + b + seq![')'] + rest, pre, post) == Some(
            (Term::Op(op, Box::new(l), Box::new(r)), rest),
        ),
{
    let s = seq!['('] + a + sign + b + seq![')'] + rest;
    let q = sign + b + seq![')'] + rest;
    assert(past(s, 1) =~= a + q);
    assert(q[0] == sign[0] && q[1] == sign[1] && q[2] == sign[2]);
    assert(past(q, 3) =~= b + (seq![')'] + rest));
    assert(past(seq![')'] + rest, 1) =~= rest);
}

/// That a text before another one is read as an expression that yields a double.
pub open spec fn is_read_with<F: Fn(FloatOp, u64, u64) -> u64>(
    f: F,
    number: spec_fn(Seq<char>) -> u64,
    xs: spec_fn(nat) -> u64,
    pre: Seq<char>,
    post: Seq<char>,
    text: Seq<char>,
    rest: Seq<char>,
    v: u64,
) -> bool {
    match read_term(text + rest, pre, post) {
        Some((t, r)) => r == rest && term_value(f, number, xs, t) == v,
        None => false,
    }
}

/// The text of an operation is read as the operation.
pub proof fn lemma_operation<F: Fn(FloatOp, u64, u64) -> u64>(
    f: F,
    number: spec_fn(Seq<char>) -> u64,
    xs: spec_fn(nat) -> u64,
    pre: Seq<char>,
    post: Seq<char>,
    op: FloatOp,
    sign: Seq<char>,
    a: Seq<char>,
    x: u64,
    b: Seq<char>,
    y: u64,
    rest: Seq<char>,
)
    requires
        sign.len() == 3,
        sign[0] == ' ',
        sign_op(sign[1]) == Some(op),
        sign[2] == ' ',
        is_read_with(f, number, xs, pre, post, a, sign + b + seq![')'] + rest, x),
        is_read_with(f, number, xs, pre, post, b, seq![')'] + rest, y),
    ensures
        is_read_with(
            f,
            number,
            xs,
            pre,
            post,
            "("@ + a + sign + b + ")"@,
            rest,
            float_answer(f, op, x, y),
        ),
{
    reveal_strlit("(");
    reveal_strlit(")");
    assert("("@ =~= seq!['(']);
    assert(")"@ =~= seq![')']);
    let l = read_term(a + (sign + b + seq![')'] + rest), pre, post)->0;
    let r = read_term(b + (seq![')'] + rest), pre, post)->0;
    lemma_operation_read(pre, post, op, sign, a, l.0, b, r.0, rest);
}

} // verus!
