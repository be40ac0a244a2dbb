//! Stack-machine interpreter: executes a token sequence for real,
//! against a value stack, producing the list of printed values.
//!
//! It is meant to run only on programs the checker accepted; under that
//! precondition every pop is proved safe, and the only conditions that
//! can stop a run are a literal outside the 32-bit range, arithmetic
//! overflow, and division by zero — each reported as a fault for the
//! caller to abort on.

use vstd::prelude::*;
use vstd::string::*;

use crate::checker::{check_from, is_op, spec_check, SpecCheck};
use crate::lexer::{
    all_digits, clone_token, digits_val, is_digit_char, lemma_scan_literal_texts, models_of,
    spec_lex, token_model, SpecScan, Token, TokenKind,
};

verus! {

/// A runtime value on the interpreter's stack.
#[derive(Debug, Clone, Copy, PartialEq, Eq, Structural)]
pub enum Value {
    Int(i32),
}

/// A fatal runtime condition; reported to the caller, which is expected
/// to abort the run rather than recover.
#[derive(Debug, Clone, Copy, PartialEq, Eq, Structural)]
pub enum RunFault {
    StackUnderflow,
    UnknownWord,
    LiteralOverflow,
    ArithmeticOverflow,
    DivisionByZero,
}

/// The integer a runtime value holds.
pub open spec fn value_int(v: Value) -> int {
    match v {
        Value::Int(i) => i as int,
    }
}

pub open spec fn values_of(s: Seq<Value>) -> Seq<int> {
    s.map_values(|v: Value| value_int(v))
}

pub open spec fn ints_of(s: Seq<i32>) -> Seq<int> {
    s.map_values(|x: i32| x as int)
}

/// Every integer literal in `toks` carries a non-empty all-digit text —
/// what the scanner guarantees of the tokens it produces.
pub open spec fn wf_literals(toks: Seq<Token>) -> bool {
    forall|k: int|
        0 <= k < toks.len() && (#[trigger] toks[k]).kind == TokenKind::IntLiteral
            ==> toks[k].value@.len() > 0 && all_digits(toks[k].value@)
}

pub open spec fn abs_int(a: int) -> int {
    if a < 0 {
        -a
    } else {
        a
    }
}

/// Truncating (round-toward-zero) division, as the machine's signed
/// division computes it; spec-level `/` is Euclidean, which differs on
/// negative operands.
pub open spec fn trunc_div(a: int, b: int) -> int
    recommends
        b != 0,
{
    if (a < 0) == (b < 0) {
        abs_int(a) / abs_int(b)
    } else {
        -(abs_int(a) / abs_int(b))
    }
}

pub open spec fn in_i32(v: int) -> bool {
    i32::MIN <= v <= i32::MAX
}

/// The value an operator computes from its left and right operands.
pub open spec fn op_result(k: TokenKind, l: int, r: int) -> int
    recommends
        is_op(k),
        k == TokenKind::Div ==> r != 0,
{
    if k == TokenKind::Plus {
        l + r
    } else if k == TokenKind::Minus {
        l - r
    } else if k == TokenKind::Times {
        l * r
    } else {
        trunc_div(l, r)
    }
}

/// Specification-level outcome of a run: the final value stack and the
/// printed values in order, or the output so far and the fault that
/// stopped the run.
pub ghost enum SpecRun {
    Done { stack: Seq<int>, out: Seq<int> },
    Fault { out: Seq<int>, fault: RunFault },
}

/// The interpreter from token `i` on: a literal pushes its value, an
/// operator pops the right operand, then the left, and pushes
/// `left OP right`, and `print` pops one value and appends it to the
/// output.
pub open spec fn run_from(toks: Seq<Token>, i: int, stack: Seq<int>, out: Seq<int>) -> SpecRun
    decreases toks.len() - i,
{
    if i < 0 || i >= toks.len() {
        SpecRun::Done { stack, out }
    } else {
        let t = toks[i];
        if t.kind == TokenKind::IntLiteral {
            let v = digits_val(t.value@);
            if in_i32(v) {
                run_from(toks, i + 1, stack.push(v), out)
            } else {
                SpecRun::Fault { out, fault: RunFault::LiteralOverflow }
            }
        } else if t.kind == TokenKind::Word {
            if t.value@ == "print"@ {
                if stack.len() >= 1 {
                    run_from(toks, i + 1, stack.drop_last(), out.push(stack.last()))
                } else {
                    SpecRun::Fault { out, fault: RunFault::StackUnderflow }
                }
            } else {
                SpecRun::Fault { out, fault: RunFault::UnknownWord }
            }
        } else {
            if stack.len() < 2 {
                SpecRun::Fault { out, fault: RunFault::StackUnderflow }
            } else {
                let r = stack.last();
                let l = stack[stack.len() - 2];
                if t.kind == TokenKind::Div && r == 0 {
                    SpecRun::Fault { out, fault: RunFault::DivisionByZero }
                } else {
                    let v = op_result(t.kind, l, r);
                    if in_i32(v) {
                        run_from(toks, i + 1, stack.drop_last().drop_last().push(v), out)
                    } else {
                        SpecRun::Fault { out, fault: RunFault::ArithmeticOverflow }
                    }
                }
            }
        }
    }
}

/// Running a whole program starts at the first token with an empty
/// value stack and no output.
pub open spec fn spec_run(toks: Seq<Token>) -> SpecRun {
    run_from(toks, 0, Seq::empty(), Seq::empty())
}

proof fn lemma_all_digits_take(s: Seq<char>, k: int)
    requires
        all_digits(s),
        0 <= k <= s.len(),
    ensures
        all_digits(s.take(k)),
{
    assert forall|m: int| 0 <= m < s.take(k).len() implies is_digit_char(
        #[trigger] s.take(k)[m],
    ) by {
        assert(s.take(k)[m] == s[m]);
    }
}

proof fn lemma_digits_val_nonneg(s: Seq<char>)
    requires
        all_digits(s),
    ensures
        digits_val(s) >= 0,
    decreases s.len(),
{
    if s.len() > 0 {
        assert forall|m: int| 0 <= m < s.drop_last().len() implies is_digit_char(
            #[trigger] s.drop_last()[m],
        ) by {
            assert(s.drop_last()[m] == s[m]);
        }
        lemma_digits_val_nonneg(s.drop_last());
        assert(is_digit_char(s.last()));
    }
}

proof fn lemma_digits_val_prefix_le(s: Seq<char>, k: int)
    requires
        all_digits(s),
        0 <= k <= s.len(),
    ensures
        digits_val(s.take(k)) <= digits_val(s),
    decreases s.len() - k,
{
    if k < s.len() {
        lemma_digits_val_prefix_le(s, k + 1);
        assert(s.take(k + 1).drop_last() =~= s.take(k));
        assert(s.take(k + 1).last() == s[k]);
        assert(is_digit_char(s[k]));
        lemma_all_digits_take(s, k);
        lemma_digits_val_nonneg(s.take(k));
        assert(digits_val(s.take(k + 1)) == digits_val(s.take(k)) * 10 + (s[k] as u32
            - '0' as u32));
    } else {
        assert(s.take(k) =~= s);
    }
}

/// Parse an all-digit literal text as a 32-bit value, or report that it
/// exceeds the representable range.
fn parse_literal(s: &String) -> (r: Option<i32>)
    requires
        s@.len() > 0,
        all_digits(s@),
    ensures
        ({
            match r {
                Some(v) => v as int == digits_val(s@) && v >= 0,
                None => digits_val(s@) > i32::MAX,
            }
        }),
{
    let text = s.as_str();
    let n: usize = text.unicode_len();
    let mut acc: u64 = 0;
    let mut k: usize = 0;
    proof {
        assert(s@.take(0) =~= Seq::<char>::empty());
    }
    while k < n
        invariant
            text@ == s@,
            n == s@.len(),
            k <= n,
            all_digits(s@),
            acc as int == digits_val(s@.take(k as int)),
            acc <= 0x7fff_ffff,
        decreases n - k,
    {
        let c = text.get_char(k);
        proof {
            assert(is_digit_char(s@[k as int]));
        }
        let d: u64 = c as u64 - 48;
        acc = acc * 10 + d;
        k = k + 1;
        proof {
            assert(s@.take(k as int).drop_last() =~= s@.take(k as int - 1));
            assert(s@.take(k as int).last() == s@[k as int - 1]);
        }
        if acc > 0x7fff_ffff {
            proof {
                lemma_digits_val_prefix_le(s@, k as int);
            }
            return None;
        }
    }
    proof {
        assert(s@.take(n as int) =~= s@);
    }
    Some(acc as i32)
}

/// Execute one word token: `print` pops the top value, which the caller
/// is to emit as a line of output, and advances; an unknown word or an
/// empty stack is a fault that leaves the state untouched.
pub fn interpret_word(stack: &mut Vec<Value>, ip: &mut usize, token: Token) -> (r: Result<
    i32,
    RunFault,
>)
    requires
        token.kind == TokenKind::Word,
        *old(ip) < usize::MAX,
    ensures
        ({
            if token.value@ == "print"@ && old(stack)@.len() >= 1 {
                &&& r matches Ok(v) && v as int == value_int(old(stack)@.last())
                &&& final(stack)@ == old(stack)@.drop_last()
                &&& *final(ip) == *old(ip) + 1
            } else {
                &&& final(stack)@ == old(stack)@
                &&& *final(ip) == *old(ip)
                &&& r == Err::<i32, RunFault>(
                    if token.value@ == "print"@ {
                        RunFault::StackUnderflow
                    } else {
                        RunFault::UnknownWord
                    },
                )
            }
        }),
{
    let print_word = String::from_str("print");
    if token.value == print_word {
        match stack.pop() {
            Some(v) => {
                *ip = *ip + 1;
                match v {
                    Value::Int(i) => Ok(i),
                }
            },
            None => Err(RunFault::StackUnderflow),
        }
    } else {
        Err(RunFault::UnknownWord)
    }
}

/// Truncating division on 64-bit values holding 32-bit operands.
fn div_trunc_i64(a: i64, b: i64) -> (q: i64)
    requires
        b != 0,
        -0x8000_0000 <= a <= 0x7fff_ffff,
        -0x8000_0000 <= b <= 0x7fff_ffff,
    ensures
        q as int == trunc_div(a as int, b as int),
{
    let neg: bool = (a < 0) != (b < 0);
    let ua: u64 = if a < 0 {
        (-a) as u64
    } else {
        a as u64
    };
    let ub: u64 = if b < 0 {
        (-b) as u64
    } else {
        b as u64
    };
    proof {
        assert(ua as int == abs_int(a as int));
        assert(ub as int == abs_int(b as int));
        vstd::arithmetic::div_mod::lemma_div_nonincreasing(ua as int, ub as int);
        vstd::arithmetic::div_mod::lemma_div_pos_is_pos(ua as int, ub as int);
    }
    let uq: u64 = ua / ub;
    if neg {
        -(uq as i64)
    } else {
        uq as i64
    }
}

/// Apply one arithmetic operator to the left and right operands popped
/// from the stack, faulting on division by zero or a result outside the
/// 32-bit range.
fn apply_op(kind: TokenKind, l: i32, r: i32) -> (res: Result<i32, RunFault>)
    requires
        is_op(kind),
    ensures
        ({
            if kind == TokenKind::Div && r as int == 0 {
                res == Err::<i32, RunFault>(RunFault::DivisionByZero)
            } else if in_i32(op_result(kind, l as int, r as int)) {
                res matches Ok(v) && v as int == op_result(kind, l as int, r as int)
            } else {
                res == Err::<i32, RunFault>(RunFault::ArithmeticOverflow)
            }
        }),
{
    let l64: i64 = l as i64;
    let r64: i64 = r as i64;
    let w: i64;
    match kind {
        TokenKind::Plus => {
            w = l64 + r64;
        },
        TokenKind::Minus => {
            w = l64 - r64;
        },
        TokenKind::Times => {
            proof {
                assert(-0x4000_0000_0000_0000 <= l64 as int * r64 as int
                    <= 0x4000_0000_0000_0000) by (nonlinear_arith)
                    requires
                        -0x8000_0000 <= l64 as int <= 0x7fff_ffff,
                        -0x8000_0000 <= r64 as int <= 0x7fff_ffff,
                ;
            }
            w = l64 * r64;
        },
        TokenKind::Div => {
            if r == 0 {
                return Err(RunFault::DivisionByZero);
            }
            w = div_trunc_i64(l64, r64);
        },
        _ => {
            proof {
                assert(false);
            }
            return Err(RunFault::ArithmeticOverflow);
        },
    }
    if w > 0x7fff_ffff || w < -0x8000_0000 {
        Err(RunFault::ArithmeticOverflow)
    } else {
        Ok(w as i32)
    }
}

/// What `interpret_program` promises: the printed values and the fault
/// agree exactly with `spec_run` of the program.
pub open spec fn run_result_matches(
    outputs: Seq<i32>,
    fault: Option<RunFault>,
    toks: Seq<Token>,
) -> bool {
    match spec_run(toks) {
        SpecRun::Done { stack, out } => fault is None && ints_of(outputs) == out,
        SpecRun::Fault { out, fault: f } => fault == Some(f) && ints_of(outputs) == out,
    }
}

/// Run a program the checker accepted. Returns the printed values in
/// order and, if the run stopped early, the fault that stopped it.
/// Checker acceptance makes every pop safe, so the only possible faults
/// are a literal outside the 32-bit range, arithmetic overflow, and
/// division by zero.
pub fn interpret_program(program: Vec<Token>) -> (r: (Vec<i32>, Option<RunFault>))
    requires
        wf_literals(program@),
        spec_check(program@) is Pass,
    ensures
        run_result_matches(r.0@, r.1, program@),
        r.1 != Some(RunFault::StackUnderflow),
        r.1 != Some(RunFault::UnknownWord),
{
    let mut stack: Vec<Value> = Vec::new();
    let mut out: Vec<i32> = Vec::new();
    let mut ip: usize = 0;
    proof {
        assert(values_of(stack@) =~= Seq::<int>::empty());
        assert(ints_of(out@) =~= Seq::<int>::empty());
    }
    loop
        invariant
            wf_literals(program@),
            ip <= program@.len(),
            check_from(program@, ip as int, stack@.len() as nat) is Pass,
            run_from(program@, ip as int, values_of(stack@), ints_of(out@)) == spec_run(
                program@,
            ),
        decreases program@.len() - ip,
    {
        if ip >= program.len() {
            return (out, None);
        }
        let ghost s = program@;
        let ghost iip = ip as int;
        let ghost st0 = values_of(stack@);
        let ghost out0 = ints_of(out@);
        let token = clone_token(&program[ip]);
        proof {
            assert(s[iip].kind == token.kind);
        }
        match token.kind {
            TokenKind::IntLiteral => {
                proof {
                    assert(s[iip].value@.len() > 0 && all_digits(s[iip].value@));
                }
                match parse_literal(&token.value) {
                    Some(v) => {
                        stack.push(Value::Int(v));
                        ip = ip + 1;
                        proof {
                            assert(values_of(stack@) =~= st0.push(v as int));
                        }
                    },
                    None => {
                        return (out, Some(RunFault::LiteralOverflow));
                    },
                }
            },
            TokenKind::Word => {
                let r = interpret_word(&mut stack, &mut ip, token);
                match r {
                    Result::Ok(v) => {
                        out.push(v);
                        proof {
                            assert(values_of(stack@) =~= st0.drop_last());
                            assert(ints_of(out@) =~= out0.push(v as int));
                        }
                    },
                    Result::Err(fault) => {
                        proof {
                            assert(false);
                        }
                        return (out, Some(fault));
                    },
                }
            },
            _ => {
                proof {
                    assert(stack@.len() >= 2);
                }
                let rv: i32;
                let lv: i32;
                match stack.pop() {
                    Some(Value::Int(x)) => {
                        rv = x;
                    },
                    None => {
                        proof {
                            assert(false);
                        }
                        return (out, Some(RunFault::StackUnderflow));
                    },
                }
                match stack.pop() {
                    Some(Value::Int(x)) => {
                        lv = x;
                    },
                    None => {
                        proof {
                            assert(false);
                        }
                        return (out, Some(RunFault::StackUnderflow));
                    },
                }
                proof {
                    assert(rv as int == st0.last());
                    assert(lv as int == st0[st0.len() - 2]);
                    assert(values_of(stack@) =~= st0.drop_last().drop_last());
                }
                match apply_op(token.kind, lv, rv) {
                    Result::Ok(v) => {
                        stack.push(Value::Int(v));
                        ip = ip + 1;
                        proof {
                            assert(values_of(stack@) =~= st0.drop_last().drop_last().push(
                                v as int,
                            ));
                        }
                    },
                    Result::Err(fault) => {
                        return (out, Some(fault));
                    },
                }
            },
        }
    }
}

/// The tokens of a successful scan satisfy the literal well-formedness
/// the interpreter requires of its input: the whole pipeline may hand
/// scanner output to `interpret_program` once the checker accepts it.
pub proof fn lemma_scanned_literals_wf(toks: Seq<Token>, text: Seq<char>)
    requires
        spec_lex(text) == (SpecScan::Tokens { toks: models_of(toks) }),
    ensures
        wf_literals(toks),
{
    lemma_scan_literal_texts(text, 1, 1);
    assert forall|k: int|
        0 <= k < toks.len() && (#[trigger] toks[k]).kind == TokenKind::IntLiteral implies toks[k].value@.len()
        > 0 && all_digits(toks[k].value@) by {
        assert(models_of(toks)[k] == token_model(toks[k]));
    }
}

proof fn lemma_check_run_from(toks: Seq<Token>, i: int, stack: Seq<int>, out: Seq<int>, depth: nat)
    requires
        0 <= i,
        check_from(toks, i, depth) is Pass,
        stack.len() == depth,
    ensures
        ({
            match run_from(toks, i, stack, out) {
                SpecRun::Done { .. } => true,
                SpecRun::Fault { fault, .. } => fault != RunFault::StackUnderflow && fault
                    != RunFault::UnknownWord,
            }
        }),
    decreases toks.len() - i,
{
    if i < toks.len() {
        let t = toks[i];
        if t.kind == TokenKind::IntLiteral {
            if in_i32(digits_val(t.value@)) {
                lemma_check_run_from(
                    toks,
                    i + 1,
                    stack.push(digits_val(t.value@)),
                    out,
                    depth + 1,
                );
            }
        } else if t.kind == TokenKind::Word {
            lemma_check_run_from(
                toks,
                i + 1,
                stack.drop_last(),
                out.push(stack.last()),
                (depth - 1) as nat,
            );
        } else {
            let r = stack.last();
            let l = stack[stack.len() - 2];
            if !(t.kind == TokenKind::Div && r == 0) && in_i32(op_result(t.kind, l, r)) {
                lemma_check_run_from(
                    toks,
                    i + 1,
                    stack.drop_last().drop_last().push(op_result(t.kind, l, r)),
                    out,
                    (depth - 1) as nat,
                );
            }
        }
    }
}

/// Checker–interpreter agreement: a program the checker accepted never
/// underflows the value stack and never reaches an unknown word at
/// runtime; only arithmetic conditions can stop it.
pub proof fn lemma_checker_interpreter_agreement(toks: Seq<Token>)
    requires
        spec_check(toks) is Pass,
    ensures
        ({
            match spec_run(toks) {
                SpecRun::Done { .. } => true,
                SpecRun::Fault { fault, .. } => fault != RunFault::StackUnderflow && fault
                    != RunFault::UnknownWord,
            }
        }),
{
    lemma_check_run_from(toks, 0, Seq::empty(), Seq::empty(), 0);
}

} // verus!
