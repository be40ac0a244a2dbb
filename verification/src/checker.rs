//! Stack-effect checker: walks the token sequence with an instruction
//! pointer, simulating the stack with type tags only, and reports the
//! first operation that would not find enough operands, or the first
//! word that is not defined.
//!
//! The interpreter assumes a program the checker accepted: its pops are
//! safe exactly because checking proved sufficient depth everywhere.

use vstd::prelude::*;
use vstd::string::*;

use crate::lexer::{clone_token, loc_model, Token, TokenKind};

verus! {

/// A type tag on the checker's abstract stack.
#[derive(Debug, Clone, Copy, PartialEq, Eq, Structural)]
pub enum Type {
    Int,
}

/// A located checking failure.
#[derive(Debug, Clone)]
pub struct TypeErr {
    pub location: crate::lexer::Location,
    pub message: String,
}

/// Specification-level outcome of checking: the final abstract depth
/// (which is deliberately not required to be zero), or the index of the
/// first failing token together with the depth observed there.
pub ghost enum SpecCheck {
    Pass { depth: nat },
    Fail { idx: int, got: nat },
}

/// The four binary arithmetic operators.
pub open spec fn is_op(k: TokenKind) -> bool {
    k == TokenKind::Plus || k == TokenKind::Minus || k == TokenKind::Times || k == TokenKind::Div
}

/// The checker from token `i` on, with `depth` tags on the abstract
/// stack: a literal pushes one tag, an operator needs two and leaves
/// one, `print` needs one, and any other word is rejected.
pub open spec fn check_from(toks: Seq<Token>, i: int, depth: nat) -> SpecCheck
    decreases toks.len() - i,
{
    if i < 0 || i >= toks.len() {
        SpecCheck::Pass { depth }
    } else {
        let t = toks[i];
        if t.kind == TokenKind::IntLiteral {
            check_from(toks, i + 1, depth + 1)
        } else if t.kind == TokenKind::Word {
            if t.value@ == "print"@ {
                if depth >= 1 {
                    check_from(toks, i + 1, (depth - 1) as nat)
                } else {
                    SpecCheck::Fail { idx: i, got: depth }
                }
            } else {
                SpecCheck::Fail { idx: i, got: depth }
            }
        } else {
            if depth >= 2 {
                check_from(toks, i + 1, (depth - 1) as nat)
            } else {
                SpecCheck::Fail { idx: i, got: depth }
            }
        }
    }
}

/// Checking a whole program starts at the first token with an empty
/// abstract stack.
pub open spec fn spec_check(toks: Seq<Token>) -> SpecCheck {
    check_from(toks, 0, 0)
}

/// The diagnostic for an operator found with fewer than two operands.
pub open spec fn op_message(k: TokenKind, got: nat) -> Seq<char>
    recommends
        is_op(k),
        got < 2,
{
    let digit = if got == 0 {
        "0"@
    } else {
        "1"@
    };
    if k == TokenKind::Plus {
        "Not enough arguments for `+` (plus) operation, expected 2, got "@ + digit
    } else if k == TokenKind::Minus {
        "Not enough arguments for `-` (minus) operation, expected 2, got "@ + digit
    } else if k == TokenKind::Times {
        "Not enough arguments for `*` (times) operation, expected 2, got "@ + digit
    } else {
        "Not enough arguments for `/` (div) operation, expected 2, got "@ + digit
    }
}

/// The diagnostic for the token checking fails at, given the depth
/// observed there.
pub open spec fn check_error_message(t: Token, got: nat) -> Seq<char> {
    if t.kind == TokenKind::Word {
        if t.value@ == "print"@ {
            "TYPE ERROR: Attempting to print with an empty stack"@
        } else {
            "TYPE ERROR: Unknown word: `"@ + t.value@ + "`"@
        }
    } else {
        op_message(t.kind, got)
    }
}

/// Check one word token against the abstract stack: `print` consumes one
/// tag and advances; an empty stack or an unknown word is a reported
/// error that leaves stack and instruction pointer untouched.
pub fn check_word(stack: &mut Vec<Type>, ip: &mut usize, token: Token) -> (r: Result<(), TypeErr>)
    requires
        token.kind == TokenKind::Word,
        *old(ip) < usize::MAX,
    ensures
        ({
            if token.value@ == "print"@ && old(stack)@.len() >= 1 {
                &&& r is Ok
                &&& final(stack)@ == old(stack)@.drop_last()
                &&& *final(ip) == *old(ip) + 1
            } else {
                &&& final(stack)@ == old(stack)@
                &&& *final(ip) == *old(ip)
                &&& r matches Err(e) && loc_model(e.location) == loc_model(token.location)
                    && e.message@ == check_error_message(token, old(stack)@.len() as nat)
            }
        }),
{
    let print_word = String::from_str("print");
    if token.value == print_word {
        if stack.len() == 0 {
            Err(
                TypeErr {
                    location: token.location,
                    message: String::from_str(
                        "TYPE ERROR: Attempting to print with an empty stack",
                    ),
                },
            )
        } else {
            let _ = stack.pop();
            *ip = *ip + 1;
            Ok(())
        }
    } else {
        let mut message = String::from_str("TYPE ERROR: Unknown word: `");
        message.append(token.value.as_str());
        message.append("`");
        Err(TypeErr { location: token.location, message })
    }
}

/// What `check_program` promises: acceptance agrees exactly with
/// `spec_check`, and a rejection carries the failing token's location
/// and the diagnostic for the depth observed there.
pub open spec fn check_result_matches(r: Result<(), TypeErr>, toks: Seq<Token>) -> bool {
    match r {
        Result::Ok(accepted) => spec_check(toks) is Pass,
        Result::Err(e) => {
            &&& spec_check(toks) matches SpecCheck::Fail { idx, got }
            &&& 0 <= idx < toks.len()
            &&& loc_model(e.location) == loc_model(toks[idx].location)
            &&& e.message@ == check_error_message(toks[idx], got)
        },
    }
}

/// Walk the whole program, stopping at the first violation.
pub fn check_program(program: Vec<Token>) -> (r: Result<(), TypeErr>)
    ensures
        check_result_matches(r, program@),
{
    let mut stack: Vec<Type> = Vec::new();
    let mut ip: usize = 0;
    while ip < program.len()
        invariant
            ip <= program@.len(),
            check_from(program@, ip as int, stack@.len() as nat) == spec_check(program@),
        decreases program@.len() - ip,
    {
        let ghost depth = stack@.len() as nat;
        let token = clone_token(&program[ip]);
        match token.kind {
            TokenKind::IntLiteral => {
                stack.push(Type::Int);
                ip = ip + 1;
            },
            TokenKind::Word => {
                let ghost orig = program@[ip as int];
                let ghost tok = token;
                let r = check_word(&mut stack, &mut ip, token);
                match r {
                    Result::Ok(accepted) => {},
                    Result::Err(e) => {
                        proof {
                            assert(check_error_message(tok, depth) == check_error_message(
                                orig,
                                depth,
                            ));
                        }
                        return Result::Err(e);
                    },
                }
            },
            TokenKind::Plus => {
                if stack.len() < 2 {
                    let mut message = String::from_str(
                        "Not enough arguments for `+` (plus) operation, expected 2, got ",
                    );
                    message.append(if stack.len() == 0 {
                        "0"
                    } else {
                        "1"
                    });
                    return Result::Err(TypeErr { location: token.location, message });
                }
                let _ = stack.pop();
                ip = ip + 1;
            },
            TokenKind::Minus => {
                if stack.len() < 2 {
                    let mut message = String::from_str(
                        "Not enough arguments for `-` (minus) operation, expected 2, got ",
                    );
                    message.append(if stack.len() == 0 {
                        "0"
                    } else {
                        "1"
                    });
                    return Result::Err(TypeErr { location: token.location, message });
                }
                let _ = stack.pop();
                ip = ip + 1;
            },
            TokenKind::Times => {
                if stack.len() < 2 {
                    let mut message = String::from_str(
                        "Not enough arguments for `*` (times) operation, expected 2, got ",
                    );
                    message.append(if stack.len() == 0 {
                        "0"
                    } else {
                        "1"
                    });
                    return Result::Err(TypeErr { location: token.location, message });
                }
                let _ = stack.pop();
                ip = ip + 1;
            },
            TokenKind::Div => {
                if stack.len() < 2 {
                    let mut message = String::from_str(
                        "Not enough arguments for `/` (div) operation, expected 2, got ",
                    );
                    message.append(if stack.len() == 0 {
                        "0"
                    } else {
                        "1"
                    });
                    return Result::Err(TypeErr { location: token.location, message });
                }
                let _ = stack.pop();
                ip = ip + 1;
            },
        }
    }
    Ok(())
}

/// Operands a token needs on the abstract stack. Unknown words are
/// rejected whatever the depth; only `print` is a defined word.
pub open spec fn token_need(t: Token) -> nat {
    match t.kind {
        TokenKind::IntLiteral => 0,
        TokenKind::Word => 1,
        _ => 2,
    }
}

/// The abstract depth after `t` executes on depth `depth`, or `None` if
/// checking fails at `t`.
pub open spec fn step_depth(t: Token, depth: nat) -> Option<nat> {
    if t.kind == TokenKind::IntLiteral {
        Some((depth + 1) as nat)
    } else if t.kind == TokenKind::Word {
        if t.value@ == "print"@ && depth >= 1 {
            Some((depth - 1) as nat)
        } else {
            None
        }
    } else {
        if depth >= 2 {
            Some((depth - 1) as nat)
        } else {
            None
        }
    }
}

/// The abstract depth just before token `k`, if checking reaches it.
pub open spec fn depth_before(toks: Seq<Token>, k: int) -> Option<nat>
    decreases k,
{
    if k <= 0 {
        Some(0nat)
    } else {
        match depth_before(toks, k - 1) {
            Option::None => None,
            Option::Some(d) => if k - 1 < toks.len() {
                step_depth(toks[k - 1], d)
            } else {
                Some(d)
            },
        }
    }
}

proof fn lemma_check_reaches(toks: Seq<Token>, k: int, d: nat)
    requires
        0 <= k <= toks.len(),
        depth_before(toks, k) == Some(d),
    ensures
        check_from(toks, 0, 0) == check_from(toks, k, d),
    decreases k,
{
    if k > 0 {
        match depth_before(toks, k - 1) {
            Option::None => {
                assert(false);
            },
            Option::Some(dp) => {
                lemma_check_reaches(toks, k - 1, dp);
                assert(check_from(toks, k - 1, dp) == check_from(toks, k, d));
            },
        }
    }
}

/// Checker soundness (no false accept): an arithmetic or `print` token
/// that checking reaches with fewer operands on the abstract stack than
/// it needs makes the whole check fail exactly at that token, reporting
/// the depth observed there.
pub proof fn lemma_checker_no_false_accept(toks: Seq<Token>, k: int, d: nat)
    requires
        0 <= k < toks.len(),
        depth_before(toks, k) == Some(d),
        is_op(toks[k].kind) || (toks[k].kind == TokenKind::Word && toks[k].value@ == "print"@),
        d < token_need(toks[k]),
    ensures
        spec_check(toks) == (SpecCheck::Fail { idx: k, got: d }),
{
    lemma_check_reaches(toks, k, d);
}

} // verus!
