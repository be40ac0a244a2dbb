//! Lexical scanner: turns raw source text into a sequence of located
//! tokens, or reports the first unrecognized character.
//!
//! The lexical rules, tried in priority order against the start of the
//! remaining input: an integer literal (one or more decimal digits), the
//! four single-character operators `+` `-` `*` `/`, then a word (a letter
//! or underscore followed by letters, digits or underscores). Exactly one
//! rule fires per step; whitespace is skipped and accounted for before
//! every step.

use vstd::prelude::*;
use vstd::string::*;

verus! {

/// The classification of one lexical unit.
#[derive(Debug, Clone, Copy, PartialEq, Eq, Structural)]
pub enum TokenKind {
    IntLiteral,
    Word,
    Plus,
    Minus,
    Times,
    Div,
}

/// A source position: a buffer name with 1-based line and column numbers.
#[derive(Debug, Clone)]
pub struct Location {
    pub file: String,
    pub line: i32,
    pub column: i32,
}

/// One scanned token: its kind, the exact matched text, and where it began.
#[derive(Debug, Clone)]
pub struct Token {
    pub kind: TokenKind,
    pub value: String,
    pub location: Location,
}

/// Outcome of scanning: the token sequence, or the first unrecognized
/// character with its position.
#[derive(Debug, Clone)]
pub enum LexingResult {
    Tokens(Vec<Token>),
    Failure { location: Location, message: String },
}

/// What the scanner records about one token, at the specification level.
pub ghost struct SpecToken {
    pub kind: TokenKind,
    pub text: Seq<char>,
    pub line: int,
    pub column: int,
}

/// Specification-level outcome of scanning.
pub ghost enum SpecScan {
    Tokens { toks: Seq<SpecToken> },
    Invalid { line: int, column: int, ch: char },
}

/// The whitespace characters the scanner skips between tokens.
pub open spec fn is_space_char(c: char) -> bool {
    c == ' ' || c == '\t' || c == '\n' || c == '\r' || c == '\x0b' || c == '\x0c'
}

/// A decimal digit.
pub open spec fn is_digit_char(c: char) -> bool {
    '0' <= c && c <= '9'
}

/// A character that may start a word.
pub open spec fn is_word_start_char(c: char) -> bool {
    ('a' <= c && c <= 'z') || ('A' <= c && c <= 'Z') || c == '_'
}

/// A character that may continue a word.
pub open spec fn is_word_char(c: char) -> bool {
    is_word_start_char(c) || is_digit_char(c)
}

/// Length of the maximal run of decimal digits at the head of `s`.
pub open spec fn digit_run_len(s: Seq<char>) -> nat
    decreases s.len(),
{
    if s.len() > 0 && is_digit_char(s[0]) {
        1 + digit_run_len(s.drop_first())
    } else {
        0
    }
}

/// Length of the maximal run of word characters at the head of `s`.
pub open spec fn word_run_len(s: Seq<char>) -> nat
    decreases s.len(),
{
    if s.len() > 0 && is_word_char(s[0]) {
        1 + word_run_len(s.drop_first())
    } else {
        0
    }
}

pub proof fn lemma_digit_run_len_le(s: Seq<char>)
    ensures
        digit_run_len(s) <= s.len(),
    decreases s.len(),
{
    if s.len() > 0 && is_digit_char(s[0]) {
        lemma_digit_run_len_le(s.drop_first());
    }
}

pub proof fn lemma_word_run_len_le(s: Seq<char>)
    ensures
        word_run_len(s) <= s.len(),
    decreases s.len(),
{
    if s.len() > 0 && is_word_char(s[0]) {
        lemma_word_run_len_le(s.drop_first());
    }
}

/// The lexical rule that fires at the head of `s`, with the length it
/// consumes: digits first, then the four operators, then words.
pub open spec fn head_token(s: Seq<char>) -> Option<(TokenKind, nat)>
    recommends
        s.len() > 0,
{
    if is_digit_char(s[0]) {
        Some((TokenKind::IntLiteral, digit_run_len(s)))
    } else if s[0] == '+' {
        Some((TokenKind::Plus, 1nat))
    } else if s[0] == '-' {
        Some((TokenKind::Minus, 1nat))
    } else if s[0] == '*' {
        Some((TokenKind::Times, 1nat))
    } else if s[0] == '/' {
        Some((TokenKind::Div, 1nat))
    } else if is_word_start_char(s[0]) {
        Some((TokenKind::Word, word_run_len(s)))
    } else {
        None
    }
}

/// The scanner, as a function on character sequences: starting at
/// position (`line`, `column`), skip whitespace (a newline starts the
/// next line at column 1, anything else advances the column), then emit
/// the token of the first rule that matches, or stop at the first
/// character no rule accepts.
pub open spec fn scan_from(s: Seq<char>, line: int, column: int) -> SpecScan
    decreases s.len(),
    via scan_from_decreases
{
    if s.len() == 0 {
        SpecScan::Tokens { toks: Seq::empty() }
    } else if is_space_char(s[0]) {
        if s[0] == '\n' {
            scan_from(s.drop_first(), line + 1, 1)
        } else {
            scan_from(s.drop_first(), line, column + 1)
        }
    } else {
        match head_token(s) {
            Option::None => SpecScan::Invalid { line, column, ch: s[0] },
            Option::Some((kind, n)) => match scan_from(s.skip(n as int), line, column + n) {
                SpecScan::Tokens { toks } => SpecScan::Tokens {
                    toks: seq![SpecToken { kind, text: s.take(n as int), line, column }] + toks,
                },
                SpecScan::Invalid { line: l, column: c, ch } => SpecScan::Invalid {
                    line: l,
                    column: c,
                    ch,
                },
            },
        }
    }
}

#[via_fn]
proof fn scan_from_decreases(s: Seq<char>, line: int, column: int) {
    if s.len() > 0 && !is_space_char(s[0]) {
        lemma_digit_run_len_le(s);
        lemma_word_run_len_le(s);
    }
}

/// Scanning a whole buffer starts at line 1, column 1.
pub open spec fn spec_lex(s: Seq<char>) -> SpecScan {
    scan_from(s, 1, 1)
}

/// The specification-level content of an executable token.
pub open spec fn token_model(t: Token) -> SpecToken {
    SpecToken {
        kind: t.kind,
        text: t.value@,
        line: t.location.line as int,
        column: t.location.column as int,
    }
}

/// The specification-level content of a sequence of executable tokens.
pub open spec fn models_of(toks: Seq<Token>) -> Seq<SpecToken> {
    toks.map_values(|t: Token| token_model(t))
}

/// The content of a `Location`, for stating equality of positions.
pub open spec fn loc_model(l: Location) -> (Seq<char>, int, int) {
    (l.file@, l.line as int, l.column as int)
}

/// The diagnostic the scanner reports for an unrecognized character.
pub open spec fn syntax_error_message(ch: char) -> Seq<char> {
    "SYNTAX ERROR: Invalid character: `"@ + seq![ch] + "`"@
}

/// Prefixing already-emitted tokens onto a scan outcome.
pub open spec fn scan_combine(pre: Seq<SpecToken>, r: SpecScan) -> SpecScan {
    match r {
        SpecScan::Tokens { toks } => SpecScan::Tokens { toks: pre + toks },
        SpecScan::Invalid { line, column, ch } => SpecScan::Invalid { line, column, ch },
    }
}

/// What `lex` promises: its result is exactly what `spec_lex` says of the
/// input text, with every location carrying the given buffer name.
pub open spec fn lex_matches(r: LexingResult, file: Seq<char>, text: Seq<char>) -> bool {
    match r {
        LexingResult::Tokens(toks) => {
            &&& spec_lex(text) matches SpecScan::Tokens { toks: m }
            &&& models_of(toks@) == m
            &&& forall|i: int|
                0 <= i < toks@.len() ==> (#[trigger] toks@[i]).location.file@ == file
        },
        LexingResult::Failure { location, message } => {
            &&& spec_lex(text) matches SpecScan::Invalid { line, column, ch }
            &&& location.line as int == line
            &&& location.column as int == column
            &&& location.file@ == file
            &&& message@ == syntax_error_message(ch)
        },
    }
}

/// Position reached after consuming `s` from (`line`, `column`): a newline
/// moves to the start of the next line, any other character advances the
/// column by one.
pub open spec fn advance_loc(line: int, column: int, s: Seq<char>) -> (int, int)
    decreases s.len(),
{
    if s.len() == 0 {
        (line, column)
    } else if s[0] == '\n' {
        advance_loc(line + 1, 1, s.drop_first())
    } else {
        advance_loc(line, column + 1, s.drop_first())
    }
}

/// The number of newline characters in `s`.
pub open spec fn newline_count(s: Seq<char>) -> nat
    decreases s.len(),
{
    if s.len() == 0 {
        0
    } else if s[0] == '\n' {
        1 + newline_count(s.drop_first())
    } else {
        newline_count(s.drop_first())
    }
}

/// Advancing over consumed text increments the line exactly once per
/// newline consumed, and never moves the cursor before line 1, column 1.
pub proof fn lemma_advance_counts_newlines(line: int, column: int, s: Seq<char>)
    requires
        1 <= line,
        1 <= column,
    ensures
        advance_loc(line, column, s).0 == line + newline_count(s),
        advance_loc(line, column, s).1 >= 1,
    decreases s.len(),
{
    if s.len() > 0 {
        if s[0] == '\n' {
            lemma_advance_counts_newlines(line + 1, 1, s.drop_first());
        } else {
            lemma_advance_counts_newlines(line, column + 1, s.drop_first());
        }
    }
}

/// Advance a cursor position over consumed text, incrementing the line
/// (and resetting the column) on each newline.
pub fn update_location(line: i32, column: i32, input: &str) -> (r: (i32, i32))
    requires
        1 <= line,
        1 <= column,
        line + input@.len() <= i32::MAX,
        column + input@.len() <= i32::MAX,
    ensures
        (r.0 as int, r.1 as int) == advance_loc(line as int, column as int, input@),
        1 <= r.0,
        1 <= r.1,
{
    let n: usize = input.unicode_len();
    let mut i: usize = 0;
    let mut cur_line: i32 = line;
    let mut cur_column: i32 = column;
    proof {
        assert(input@.skip(0) =~= input@);
    }
    while i < n
        invariant
            n == input@.len(),
            i <= n,
            1 <= cur_line,
            1 <= cur_column,
            cur_line + (n - i) <= i32::MAX,
            cur_column + (n - i) <= i32::MAX,
            advance_loc(line as int, column as int, input@) == advance_loc(
                cur_line as int,
                cur_column as int,
                input@.skip(i as int),
            ),
        decreases n - i,
    {
        let c = input.get_char(i);
        proof {
            assert(input@.skip(i as int)[0] == input@[i as int]);
            assert(input@.skip(i as int).drop_first() =~= input@.skip(i as int + 1));
        }
        if c == '\n' {
            cur_line = cur_line + 1;
            cur_column = 1;
        } else {
            cur_column = cur_column + 1;
        }
        i = i + 1;
    }
    proof {
        assert(input@.skip(n as int) =~= Seq::<char>::empty());
    }
    (cur_line, cur_column)
}

/// Every character of `s` is a decimal digit.
pub open spec fn all_digits(s: Seq<char>) -> bool {
    forall|k: int| 0 <= k < s.len() ==> is_digit_char(#[trigger] s[k])
}

/// The numeric value denoted by a string of decimal digits.
pub open spec fn digits_val(s: Seq<char>) -> int
    decreases s.len(),
{
    if s.len() == 0 {
        0
    } else {
        digits_val(s.drop_last()) * 10 + (s.last() as u32 - '0' as u32)
    }
}

/// The digit character for a value below ten.
pub open spec fn digit_char(d: nat) -> char
    recommends
        d < 10,
{
    if d == 0 {
        '0'
    } else if d == 1 {
        '1'
    } else if d == 2 {
        '2'
    } else if d == 3 {
        '3'
    } else if d == 4 {
        '4'
    } else if d == 5 {
        '5'
    } else if d == 6 {
        '6'
    } else if d == 7 {
        '7'
    } else if d == 8 {
        '8'
    } else {
        '9'
    }
}

/// The decimal numeral of `n`: its digits in order, without leading zeros.
pub open spec fn dec_rep(n: nat) -> Seq<char>
    decreases n,
{
    if n < 10 {
        seq![digit_char(n)]
    } else {
        dec_rep(n / 10).push(digit_char(n % 10))
    }
}

proof fn lemma_dec_rep_digits(n: nat)
    ensures
        dec_rep(n).len() >= 1,
        all_digits(dec_rep(n)),
    decreases n,
{
    if n < 10 {
        assert(is_digit_char(digit_char(n)));
    } else {
        lemma_dec_rep_digits(n / 10);
        let s = dec_rep(n / 10);
        let d = digit_char(n % 10);
        assert(is_digit_char(d));
        assert forall|k: int| 0 <= k < s.push(d).len() implies is_digit_char(
            #[trigger] s.push(d)[k],
        ) by {
            if k < s.len() {
                assert(s.push(d)[k] == s[k]);
            } else {
                assert(s.push(d)[k] == d);
            }
        }
    }
}

proof fn lemma_digit_run_full(s: Seq<char>)
    requires
        all_digits(s),
    ensures
        digit_run_len(s) == s.len(),
    decreases s.len(),
{
    if s.len() > 0 {
        assert(is_digit_char(s[0]));
        assert forall|k: int| 0 <= k < s.drop_first().len() implies is_digit_char(
            #[trigger] s.drop_first()[k],
        ) by {
            assert(s.drop_first()[k] == s[k + 1]);
        }
        lemma_digit_run_full(s.drop_first());
    }
}

proof fn lemma_digit_char_val(d: nat)
    requires
        d < 10,
    ensures
        digit_char(d) as u32 == 48 + d,
{
}

proof fn lemma_dec_rep_val(n: nat)
    ensures
        digits_val(dec_rep(n)) == n,
    decreases n,
{
    if n < 10 {
        let s = dec_rep(n);
        assert(s == seq![digit_char(n)]);
        assert(s.len() == 1);
        assert(s.drop_last() =~= Seq::<char>::empty());
        assert(s.last() == digit_char(n));
        lemma_digit_char_val(n);
        assert(digits_val(Seq::<char>::empty()) == 0);
        assert(digits_val(s) == digits_val(s.drop_last()) * 10 + (s.last() as u32 - '0' as u32));
    } else {
        lemma_dec_rep_val(n / 10);
        lemma_digit_char_val(n % 10);
        let s = dec_rep(n / 10);
        let d = digit_char(n % 10);
        assert(s.push(d).len() == s.len() + 1);
        assert(s.push(d).drop_last() =~= s);
        assert(s.push(d).last() == d);
        assert(digits_val(s.push(d)) == digits_val(s) * 10 + (d as u32 - '0' as u32));
        vstd::arithmetic::div_mod::lemma_fundamental_div_mod(n as int, 10);
        assert(digits_val(s.push(d)) == (n / 10) * 10 + (n % 10));
    }
}

/// Round-trip on literals: scanning the decimal numeral of any
/// non-negative integer yields exactly one integer-literal token, at
/// line 1 and column 1, whose text denotes that integer again.
pub proof fn lemma_literal_round_trip(n: nat)
    ensures
        spec_lex(dec_rep(n)) == (SpecScan::Tokens {
            toks: seq![
                SpecToken {
                    kind: TokenKind::IntLiteral,
                    text: dec_rep(n),
                    line: 1,
                    column: 1,
                },
            ],
        }),
        digits_val(dec_rep(n)) == n,
{
    let s = dec_rep(n);
    lemma_dec_rep_digits(n);
    lemma_digit_run_full(s);
    lemma_dec_rep_val(n);
    assert(is_digit_char(s[0]));
    assert(!is_space_char(s[0]));
    assert(head_token(s) == Some((TokenKind::IntLiteral, s.len())));
    assert(s.take(s.len() as int) =~= s);
    assert(s.skip(s.len() as int) =~= Seq::<char>::empty());
    let head = SpecToken { kind: TokenKind::IntLiteral, text: s, line: 1, column: 1 };
    let m = SpecToken {
        kind: TokenKind::IntLiteral,
        text: s.take(s.len() as int),
        line: 1,
        column: 1,
    };
    assert(m == head);
    assert(scan_from(s.skip(s.len() as int), 1, 1 + s.len() as int) == (SpecScan::Tokens {
        toks: Seq::<SpecToken>::empty(),
    }));
    assert(seq![m] + Seq::<SpecToken>::empty() =~= seq![head]);
}

proof fn lemma_digit_run_take_digits(s: Seq<char>)
    requires
        s.len() > 0,
        is_digit_char(s[0]),
    ensures
        digit_run_len(s) >= 1,
        all_digits(s.take(digit_run_len(s) as int)),
    decreases s.len(),
{
    lemma_digit_run_len_le(s);
    lemma_digit_run_len_le(s.drop_first());
    let k = digit_run_len(s.drop_first()) as int;
    if s.drop_first().len() > 0 && is_digit_char(s.drop_first()[0]) {
        lemma_digit_run_take_digits(s.drop_first());
    }
    assert(s.take(1 + k).drop_first() =~= s.drop_first().take(k));
    assert forall|m: int| 0 <= m < s.take(1 + k).len() implies is_digit_char(
        #[trigger] s.take(1 + k)[m],
    ) by {
        if m == 0 {
            assert(s.take(1 + k)[0] == s[0]);
        } else {
            assert(s.take(1 + k)[m] == s.drop_first().take(k)[m - 1]);
        }
    }
}

/// Every integer-literal token a successful scan produces carries a
/// non-empty, all-digit text: what the interpreter's literal parsing
/// relies on.
pub proof fn lemma_scan_literal_texts(s: Seq<char>, line: int, column: int)
    ensures
        scan_from(s, line, column) matches SpecScan::Tokens { toks } ==> forall|i: int|
            0 <= i < toks.len() && (#[trigger] toks[i]).kind == TokenKind::IntLiteral
                ==> toks[i].text.len() > 0 && all_digits(toks[i].text),
    decreases s.len(),
{
    if s.len() == 0 {
    } else if is_space_char(s[0]) {
        if s[0] == '\n' {
            lemma_scan_literal_texts(s.drop_first(), line + 1, 1);
        } else {
            lemma_scan_literal_texts(s.drop_first(), line, column + 1);
        }
    } else {
        match head_token(s) {
            Option::None => {},
            Option::Some((kind, n)) => {
                lemma_digit_run_len_le(s);
                lemma_word_run_len_le(s);
                lemma_scan_literal_texts(s.skip(n as int), line, column + n);
                match scan_from(s.skip(n as int), line, column + n) {
                    SpecScan::Tokens { toks: rest } => {
                        let head = SpecToken { kind, text: s.take(n as int), line, column };
                        if kind == TokenKind::IntLiteral {
                            lemma_digit_run_take_digits(s);
                        }
                        let toks = seq![head] + rest;
                        assert forall|i: int|
                            0 <= i < toks.len() && (#[trigger] toks[i]).kind
                                == TokenKind::IntLiteral implies toks[i].text.len() > 0
                            && all_digits(toks[i].text) by {
                            if i > 0 {
                                assert(toks[i] == rest[i - 1]);
                            }
                        }
                    },
                    SpecScan::Invalid { .. } => {},
                }
            },
        }
    }
}

/// Lexicographic order on (line, column) positions.
pub open spec fn loc_le(l1: int, c1: int, l2: int, c2: int) -> bool {
    l1 < l2 || (l1 == l2 && c1 <= c2)
}

proof fn lemma_scan_from_ordered(s: Seq<char>, line: int, column: int)
    ensures
        scan_from(s, line, column) matches SpecScan::Tokens { toks } ==> ({
            &&& forall|i: int|
                0 <= i < toks.len() ==> loc_le(
                    line,
                    column,
                    (#[trigger] toks[i]).line,
                    toks[i].column,
                )
            &&& forall|i: int, j: int|
                0 <= i <= j < toks.len() ==> loc_le(
                    (#[trigger] toks[i]).line,
                    toks[i].column,
                    (#[trigger] toks[j]).line,
                    toks[j].column,
                )
        }),
    decreases s.len(),
{
    if s.len() == 0 {
    } else if is_space_char(s[0]) {
        if s[0] == '\n' {
            lemma_scan_from_ordered(s.drop_first(), line + 1, 1);
        } else {
            lemma_scan_from_ordered(s.drop_first(), line, column + 1);
        }
    } else {
        match head_token(s) {
            Option::None => {},
            Option::Some((kind, n)) => {
                lemma_digit_run_len_le(s);
                lemma_word_run_len_le(s);
                assert(1 <= n <= s.len());
                lemma_scan_from_ordered(s.skip(n as int), line, column + n);
                match scan_from(s.skip(n as int), line, column + n) {
                    SpecScan::Tokens { toks: rest } => {
                        let head = SpecToken { kind, text: s.take(n as int), line, column };
                        let toks = seq![head] + rest;
                        assert forall|i: int| 0 <= i < toks.len() implies loc_le(
                            line,
                            column,
                            (#[trigger] toks[i]).line,
                            toks[i].column,
                        ) by {
                            if i > 0 {
                                assert(toks[i] == rest[i - 1]);
                            }
                        }
                        assert forall|i: int, j: int| 0 <= i <= j < toks.len() implies loc_le(
                            (#[trigger] toks[i]).line,
                            toks[i].column,
                            (#[trigger] toks[j]).line,
                            toks[j].column,
                        ) by {
                            if i > 0 {
                                assert(toks[i] == rest[i - 1]);
                                assert(toks[j] == rest[j - 1]);
                            } else if j > 0 {
                                assert(toks[j] == rest[j - 1]);
                            }
                        }
                    },
                    SpecScan::Invalid { .. } => {},
                }
            },
        }
    }
}

/// Location monotonicity: in a successful scan, token locations are
/// non-decreasing in (line, column) reading order.
pub proof fn lemma_location_monotonic(s: Seq<char>)
    ensures
        spec_lex(s) matches SpecScan::Tokens { toks } ==> forall|i: int, j: int|
            0 <= i <= j < toks.len() ==> loc_le(
                (#[trigger] toks[i]).line,
                toks[i].column,
                (#[trigger] toks[j]).line,
                toks[j].column,
            ),
{
    lemma_scan_from_ordered(s, 1, 1);
}

/// Copy a location, field for field.
pub fn clone_location(l: &Location) -> (r: Location)
    ensures
        loc_model(r) == loc_model(*l),
{
    Location { file: l.file.clone(), line: l.line, column: l.column }
}

/// Copy a token, field for field.
pub fn clone_token(t: &Token) -> (r: Token)
    ensures
        r.kind == t.kind,
        r.value@ == t.value@,
        loc_model(r.location) == loc_model(t.location),
{
    Token { kind: t.kind, value: t.value.clone(), location: clone_location(&t.location) }
}

fn is_space(c: char) -> (b: bool)
    ensures
        b == is_space_char(c),
{
    c == ' ' || c == '\t' || c == '\n' || c == '\r' || c == '\x0b' || c == '\x0c'
}

fn is_digit(c: char) -> (b: bool)
    ensures
        b == is_digit_char(c),
{
    '0' <= c && c <= '9'
}

fn is_word_start(c: char) -> (b: bool)
    ensures
        b == is_word_start_char(c),
{
    ('a' <= c && c <= 'z') || ('A' <= c && c <= 'Z') || c == '_'
}

fn digit_at(text: &str, j: usize) -> (b: bool)
    requires
        j < text@.len(),
    ensures
        b == is_digit_char(text@[j as int]),
{
    let c = text.get_char(j);
    '0' <= c && c <= '9'
}

fn word_char_at(text: &str, j: usize) -> (b: bool)
    requires
        j < text@.len(),
    ensures
        b == is_word_char(text@[j as int]),
{
    let c = text.get_char(j);
    ('a' <= c && c <= 'z') || ('A' <= c && c <= 'Z') || c == '_' || ('0' <= c && c <= '9')
}

/// End of the digit run that starts at `start`.
fn digit_run_end(text: &str, start: usize, n: usize) -> (j: usize)
    requires
        text@.len() == n,
        start < n,
        is_digit_char(text@[start as int]),
    ensures
        start < j <= n,
        (j - start) as nat == digit_run_len(text@.skip(start as int)),
{
    let mut j: usize = start + 1;
    proof {
        assert(text@.skip(start as int)[0] == text@[start as int]);
        assert(text@.skip(start as int).drop_first() =~= text@.skip(start as int + 1));
    }
    while j < n && digit_at(text, j)
        invariant
            text@.len() == n,
            start < j <= n,
            digit_run_len(text@.skip(start as int)) == (j - start) + digit_run_len(
                text@.skip(j as int),
            ),
        decreases n - j,
    {
        proof {
            assert(text@.skip(j as int)[0] == text@[j as int]);
            assert(text@.skip(j as int).drop_first() =~= text@.skip(j as int + 1));
        }
        j = j + 1;
    }
    proof {
        if j == n {
            assert(text@.skip(j as int) =~= Seq::<char>::empty());
        } else {
            assert(text@.skip(j as int)[0] == text@[j as int]);
        }
    }
    j
}

/// End of the word-character run that starts at `start`.
fn word_run_end(text: &str, start: usize, n: usize) -> (j: usize)
    requires
        text@.len() == n,
        start < n,
        is_word_char(text@[start as int]),
    ensures
        start < j <= n,
        (j - start) as nat == word_run_len(text@.skip(start as int)),
{
    let mut j: usize = start + 1;
    proof {
        assert(text@.skip(start as int)[0] == text@[start as int]);
        assert(text@.skip(start as int).drop_first() =~= text@.skip(start as int + 1));
    }
    while j < n && word_char_at(text, j)
        invariant
            text@.len() == n,
            start < j <= n,
            word_run_len(text@.skip(start as int)) == (j - start) + word_run_len(
                text@.skip(j as int),
            ),
        decreases n - j,
    {
        proof {
            assert(text@.skip(j as int)[0] == text@[j as int]);
            assert(text@.skip(j as int).drop_first() =~= text@.skip(j as int + 1));
        }
        j = j + 1;
    }
    proof {
        if j == n {
            assert(text@.skip(j as int) =~= Seq::<char>::empty());
        } else {
            assert(text@.skip(j as int)[0] == text@[j as int]);
        }
    }
    j
}

proof fn lemma_scan_combine_on_empty(r: SpecScan)
    ensures
        scan_combine(Seq::empty(), r) == r,
{
    match r {
        SpecScan::Tokens { toks } => {
            assert(Seq::empty() + toks =~= toks);
        },
        SpecScan::Invalid { .. } => {},
    }
}

/// Scan a whole buffer into tokens, or report the first character that
/// matches no lexical rule. The result is exactly `spec_lex` of the text;
/// every reported location carries `file_path` as its buffer name.
pub fn lex(file_path: &str, input: String) -> (r: LexingResult)
    requires
        input@.len() < i32::MAX,
    ensures
        lex_matches(r, file_path@, input@),
{
    let text = input.as_str();
    let n: usize = text.unicode_len();
    let mut tokens: Vec<Token> = Vec::new();
    let mut i: usize = 0;
    let mut line: i32 = 1;
    let mut column: i32 = 1;
    proof {
        assert(input@.skip(0) =~= input@);
        assert(models_of(tokens@) =~= Seq::<SpecToken>::empty());
        lemma_scan_combine_on_empty(scan_from(input@, 1, 1));
    }
    loop
        invariant
            text@ == input@,
            n == input@.len(),
            n < i32::MAX,
            i <= n,
            1 <= line <= 1 + i as int,
            1 <= column <= 1 + i as int,
            forall|k: int|
                0 <= k < tokens@.len() ==> (#[trigger] tokens@[k]).location.file@ == file_path@,
            scan_combine(
                models_of(tokens@),
                scan_from(input@.skip(i as int), line as int, column as int),
            ) == spec_lex(input@),
        decreases n - i,
    {
        if i >= n {
            proof {
                assert(input@.skip(i as int) =~= Seq::<char>::empty());
                assert(models_of(tokens@) + Seq::<SpecToken>::empty() =~= models_of(tokens@));
            }
            return LexingResult::Tokens(tokens);
        }
        let c = text.get_char(i);
        proof {
            assert(input@.skip(i as int)[0] == input@[i as int]);
        }
        if is_space(c) {
            proof {
                assert(input@.skip(i as int).drop_first() =~= input@.skip(i as int + 1));
            }
            if c == '\n' {
                line = line + 1;
                column = 1;
            } else {
                column = column + 1;
            }
            i = i + 1;
        } else {
            let kind: TokenKind;
            let j: usize;
            if is_digit(c) {
                kind = TokenKind::IntLiteral;
                j = digit_run_end(text, i, n);
            } else if c == '+' {
                kind = TokenKind::Plus;
                j = i + 1;
            } else if c == '-' {
                kind = TokenKind::Minus;
                j = i + 1;
            } else if c == '*' {
                kind = TokenKind::Times;
                j = i + 1;
            } else if c == '/' {
                kind = TokenKind::Div;
                j = i + 1;
            } else if is_word_start(c) {
                kind = TokenKind::Word;
                j = word_run_end(text, i, n);
            } else {
                let mut message = String::from_str("SYNTAX ERROR: Invalid character: `");
                let shown = text.substring_char(i, i + 1);
                message.append(shown);
                message.append("`");
                let location = Location {
                    file: String::from_str(file_path),
                    line,
                    column,
                };
                proof {
                    assert(head_token(input@.skip(i as int)) is None);
                    assert(shown@ =~= seq![c]);
                    assert(message@ == syntax_error_message(c));
                }
                return LexingResult::Failure { location, message };
            }
            let value_slice = text.substring_char(i, j);
            let value = String::from_str(value_slice);
            let token = Token {
                kind,
                value,
                location: Location { file: String::from_str(file_path), line, column },
            };
            let ghost s = input@;
            let ghost ii = i as int;
            let ghost jj = j as int;
            let ghost pre = models_of(tokens@);
            let ghost m = token_model(token);
            tokens.push(token);
            proof {
                if kind == TokenKind::Word {
                    assert(word_run_len(s.skip(ii)) >= 1);
                }
                assert(head_token(s.skip(ii)) == Some((kind, (jj - ii) as nat)));
                assert(s.skip(ii).take(jj - ii) =~= s.subrange(ii, jj));
                assert(s.skip(ii).skip(jj - ii) =~= s.skip(jj));
                assert(m == SpecToken {
                    kind,
                    text: s.skip(ii).take(jj - ii),
                    line: line as int,
                    column: column as int,
                });
                assert(models_of(tokens@) =~= pre.push(m));
                let rest = scan_from(s.skip(jj), line as int, column as int + (jj - ii));
                match rest {
                    SpecScan::Tokens { toks } => {
                        assert(pre + (seq![m] + toks) =~= pre.push(m) + toks);
                    },
                    SpecScan::Invalid { .. } => {},
                }
            }
            column = column + (j - i) as i32;
            i = j;
        }
    }
}

} // verus!
