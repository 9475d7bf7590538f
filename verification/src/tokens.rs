//! A scanner for corrupted instruction memory: it recognises the
//! spellings `mul`, `(`, `)`, `,`, decimal integers and — when asked —
//! `do()` and `don't()`, one token per match, and turns every other
//! byte into an unknown token.  An evaluator then sums the products of
//! every well-formed `mul(a,b)` group, honouring `do()` / `don't()`
//! switches.

use vstd::prelude::*;

verus! {

/// A lexical token of the instruction memory.
#[derive(Clone, Copy, Debug, PartialEq, Eq, Structural)]
pub enum Token {
    Unknown(u8),
    Integer(u64),
    Multiply,
    OpenParen,
    CloseParen,
    Comma,
    Do,
    Dont,
}

/// An ASCII decimal digit.
pub open spec fn is_digit(b: u8) -> bool {
    48 <= b <= 57
}

/// The number a digit string denotes.
pub open spec fn digits_val(s: Seq<u8>) -> int
    decreases s.len(),
{
    if s.len() == 0 {
        0
    } else {
        digits_val(s.drop_last()) * 10 + (s.last() - 48)
    }
}

/// Ten to the `n`-th.
pub open spec fn pow10(n: nat) -> int
    decreases n,
{
    if n == 0 {
        1
    } else {
        10 * pow10((n - 1) as nat)
    }
}

/// A digit string's value is nonnegative and below ten to its length.
pub proof fn lemma_digits_val_bound(s: Seq<u8>)
    requires
        forall|k: int| 0 <= k < s.len() ==> is_digit(#[trigger] s[k]),
    ensures
        0 <= digits_val(s) < pow10(s.len()),
    decreases s.len(),
{
    if s.len() > 0 {
        lemma_digits_val_bound(s.drop_last());
    }
}

/// The literal occurs in `s` at position `i`.
pub open spec fn lit_at(s: Seq<u8>, i: int, lit: Seq<u8>) -> bool {
    0 <= i && i + lit.len() <= s.len() && s.subrange(i, i + lit.len()) == lit
}

/// How many consecutive digits stand at position `i`.
pub open spec fn digit_run_len(s: Seq<u8>, i: int) -> nat
    decreases s.len() - i when i <= s.len()
{
    if 0 <= i < s.len() && is_digit(s[i]) {
        1 + digit_run_len(s, i + 1)
    } else {
        0
    }
}

/// The digit run at `i` consists of digits and ends at the first
/// non-digit.
pub proof fn lemma_digit_run(s: Seq<u8>, i: int)
    requires
        0 <= i <= s.len(),
    ensures
        i + digit_run_len(s, i) <= s.len(),
        forall|k: int| i <= k < i + digit_run_len(s, i) ==> is_digit(#[trigger] s[k]),
        i + digit_run_len(s, i) == s.len() || !is_digit(s[i + digit_run_len(s, i)]),
    decreases s.len() - i,
{
    if i < s.len() && is_digit(s[i]) {
        lemma_digit_run(s, i + 1);
    }
}

/// No digit run in `s` is longer than 19, so every run's value fits
/// an unsigned 64-bit integer.
pub open spec fn runs_bounded(s: Seq<u8>) -> bool {
    forall|i: int| 0 <= i <= s.len() ==> digit_run_len(s, i) <= 19
}

/// The spelling of `mul`.
pub open spec fn lit_mul() -> Seq<u8> {
    seq![109u8, 117u8, 108u8]
}

/// The spelling of `do()`.
pub open spec fn lit_do() -> Seq<u8> {
    seq![100u8, 111u8, 40u8, 41u8]
}

/// The spelling of `don't()`.
pub open spec fn lit_dont() -> Seq<u8> {
    seq![100u8, 111u8, 110u8, 39u8, 116u8, 40u8, 41u8]
}

/// How many bytes the scanner consumes at position `i`.
pub open spec fn step_len(s: Seq<u8>, i: int, support_do_dont: bool) -> nat {
    if lit_at(s, i, lit_mul()) {
        3
    } else if 0 <= i < s.len() && (s[i] == 40 || s[i] == 41 || s[i] == 44) {
        1
    } else if digit_run_len(s, i) > 0 {
        digit_run_len(s, i)
    } else if support_do_dont && lit_at(s, i, lit_do()) {
        4
    } else if support_do_dont && lit_at(s, i, lit_dont()) {
        7
    } else {
        1
    }
}

/// The token the scanner emits at position `i`.
pub open spec fn step_token(s: Seq<u8>, i: int, support_do_dont: bool) -> Token {
    if lit_at(s, i, lit_mul()) {
        Token::Multiply
    } else if 0 <= i < s.len() && s[i] == 40 {
        Token::OpenParen
    } else if 0 <= i < s.len() && s[i] == 41 {
        Token::CloseParen
    } else if 0 <= i < s.len() && s[i] == 44 {
        Token::Comma
    } else if digit_run_len(s, i) > 0 {
        Token::Integer(digits_val(s.subrange(i, i + digit_run_len(s, i))) as u64)
    } else if support_do_dont && lit_at(s, i, lit_do()) {
        Token::Do
    } else if support_do_dont && lit_at(s, i, lit_dont()) {
        Token::Dont
    } else {
        Token::Unknown(s[i])
    }
}

/// The token stream of `s` from position `i` on.
pub open spec fn tokens_spec(s: Seq<u8>, i: int, support_do_dont: bool) -> Seq<Token>
    decreases s.len() - i when 0 <= i <= s.len()
    via tokens_spec_decreases
{
    if i >= s.len() {
        Seq::empty()
    } else {
        seq![step_token(s, i, support_do_dont)].add(
            tokens_spec(s, (i + step_len(s, i, support_do_dont)) as int, support_do_dont),
        )
    }
}

#[via_fn]
proof fn tokens_spec_decreases(s: Seq<u8>, i: int, support_do_dont: bool) {
    if 0 <= i < s.len() {
        assert(step_len(s, i, support_do_dont) >= 1);
        assert(i + step_len(s, i, support_do_dont) <= s.len()) by {
            if lit_at(s, i, lit_mul()) {
            } else if digit_run_len(s, i) > 0 {
                lemma_digit_run(s, i);
            } else if support_do_dont && lit_at(s, i, lit_do()) {
            } else if support_do_dont && lit_at(s, i, lit_dont()) {
            }
        }
    }
}

/// Scans the whole byte string into tokens, trying the spellings in
/// order at each position and falling back to a single unknown byte.
#[verifier::rlimit(100)]
pub fn tokenise(input: &Vec<u8>, support_do_dont: bool) -> (r: Vec<Token>)
    requires
        runs_bounded(input@),
    ensures
        r@ == tokens_spec(input@, 0, support_do_dont),
{
    let s = input;
    let len = s.len();
    let mut result: Vec<Token> = Vec::new();
    let mut i: usize = 0;

    #[verifier::loop_isolation(false)]
    while i < len
        invariant
            0 <= i <= len,
            tokens_spec(s@, 0, support_do_dont) == result@.add(
                tokens_spec(s@, i as int, support_do_dont),
            ),
        decreases len - i,
    {
        let ghost gi = i as int;
        if len - i >= 3 && s[i] == 109 && s[i + 1] == 117 && s[i + 2] == 108 {
            proof {
                assert(s@.subrange(gi, gi + 3) =~= lit_mul());
            }
            result.push(Token::Multiply);
            i = i + 3;
        } else if s[i] == 40 {
            proof {
                assert(!lit_at(s@, gi, lit_mul()));
            }
            result.push(Token::OpenParen);
            i = i + 1;
        } else if s[i] == 41 {
            proof {
                assert(!lit_at(s@, gi, lit_mul()));
            }
            result.push(Token::CloseParen);
            i = i + 1;
        } else if s[i] == 44 {
            proof {
                assert(!lit_at(s@, gi, lit_mul()));
            }
            result.push(Token::Comma);
            i = i + 1;
        } else if s[i] >= 48 && s[i] <= 57 {
            proof {
                assert(!lit_at(s@, gi, lit_mul())) by {
                    if lit_at(s@, gi, lit_mul()) {
                        assert(s@.subrange(gi, gi + 3)[0] == 109);
                    }
                }
                lemma_digit_run(s@, gi);
                assert(digit_run_len(s@, gi) <= 19);
            }
            let ghost run = digit_run_len(s@, gi);
            let mut n: usize = 0;
            let mut value: u64 = 0;
            #[verifier::loop_isolation(false)]
            while i + n < len && s[i + n] >= 48 && s[i + n] <= 57
                invariant
                    0 <= n <= run,
                    i + n <= len,
                    value == digits_val(s@.subrange(gi, gi + n)),
                    n < run ==> is_digit(s@[gi + n]),
                decreases len - i - n,
            {
                proof {
                    assert(n < run) by {
                        lemma_digit_run(s@, gi);
                        if n >= run {
                            assert(gi + run < s@.len() && is_digit(s@[gi + run]) ==> digit_run_len(
                                s@,
                                gi,
                            ) > run);
                            assert(is_digit(s@[gi + n]));
                            lemma_run_extends(s@, gi, n as int);
                            assert(false);
                        }
                    }
                    lemma_digits_val_bound(s@.subrange(gi, gi + n));
                    assert(forall|k: int|
                        0 <= k < n ==> is_digit(#[trigger] s@.subrange(gi, gi + n)[k])) by {
                        lemma_digit_run(s@, gi);
                    }
                    lemma_pow10_mono(n as nat, 18);
                    lemma_pow10_18();
                    assert(s@.subrange(gi, gi + n + 1).drop_last() =~= s@.subrange(gi, gi + n));
                }
                value = value * 10 + ((s[i + n] - 48) as u64);
                n = n + 1;
            }
            proof {
                lemma_digit_run(s@, gi);
                assert(n == run) by {
                    if n < run {
                        assert(is_digit(s@[gi + n]));
                        assert(gi + n < s@.len());
                    }
                }
            }
            result.push(Token::Integer(value));
            i = i + n;
        } else if support_do_dont && len - i >= 4 && s[i] == 100 && s[i + 1] == 111 && s[i + 2]
            == 40 && s[i + 3] == 41 {
            proof {
                assert(s@.subrange(gi, gi + 4) =~= lit_do());
                assert(!lit_at(s@, gi, lit_mul())) by {
                    if lit_at(s@, gi, lit_mul()) {
                        assert(s@.subrange(gi, gi + 3)[0] == 109);
                    }
                }
                assert(digit_run_len(s@, gi) == 0);
            }
            result.push(Token::Do);
            i = i + 4;
        } else if support_do_dont && len - i >= 7 && s[i] == 100 && s[i + 1] == 111 && s[i + 2]
            == 110 && s[i + 3] == 39 && s[i + 4] == 116 && s[i + 5] == 40 && s[i + 6] == 41 {
            proof {
                assert(s@.subrange(gi, gi + 7) =~= lit_dont());
                assert(!lit_at(s@, gi, lit_mul())) by {
                    if lit_at(s@, gi, lit_mul()) {
                        assert(s@.subrange(gi, gi + 3)[0] == 109);
                    }
                }
                assert(!lit_at(s@, gi, lit_do())) by {
                    if lit_at(s@, gi, lit_do()) {
                        assert(s@.subrange(gi, gi + 4)[2] == 40);
                    }
                }
                assert(digit_run_len(s@, gi) == 0);
            }
            result.push(Token::Dont);
            i = i + 7;
        } else {
            proof {
                assert(!lit_at(s@, gi, lit_mul())) by {
                    if lit_at(s@, gi, lit_mul()) {
                        assert(s@.subrange(gi, gi + 3)[0] == 109);
                        assert(s@.subrange(gi, gi + 3)[1] == 117);
                        assert(s@.subrange(gi, gi + 3)[2] == 108);
                    }
                }
                assert(digit_run_len(s@, gi) == 0);
                if support_do_dont {
                    assert(!lit_at(s@, gi, lit_do())) by {
                        if lit_at(s@, gi, lit_do()) {
                            assert(s@.subrange(gi, gi + 4)[0] == 100);
                            assert(s@.subrange(gi, gi + 4)[1] == 111);
                            assert(s@.subrange(gi, gi + 4)[2] == 40);
                            assert(s@.subrange(gi, gi + 4)[3] == 41);
                        }
                    }
                    assert(!lit_at(s@, gi, lit_dont())) by {
                        if lit_at(s@, gi, lit_dont()) {
                            assert(s@.subrange(gi, gi + 7)[0] == 100);
                            assert(s@.subrange(gi, gi + 7)[1] == 111);
                            assert(s@.subrange(gi, gi + 7)[2] == 110);
                            assert(s@.subrange(gi, gi + 7)[3] == 39);
                            assert(s@.subrange(gi, gi + 7)[4] == 116);
                            assert(s@.subrange(gi, gi + 7)[5] == 40);
                            assert(s@.subrange(gi, gi + 7)[6] == 41);
                        }
                    }
                }
            }
            result.push(Token::Unknown(s[i]));
            i = i + 1;
        }
    }
    proof {
        assert(tokens_spec(s@, len as int, support_do_dont) =~= Seq::<Token>::empty());
        assert(result@ =~= result@.add(Seq::empty()));
    }
    result
}

/// A run whose first `n` bytes are digits, followed by one more
/// digit, is longer than `n`.
proof fn lemma_run_extends(s: Seq<u8>, i: int, n: int)
    requires
        0 <= i,
        0 <= n,
        i + n < s.len(),
        forall|k: int| i <= k < i + n ==> is_digit(#[trigger] s[k]),
        is_digit(s[i + n]),
    ensures
        digit_run_len(s, i) > n,
    decreases n,
{
    if n == 0 {
        assert(digit_run_len(s, i) >= 1);
    } else {
        assert(digit_run_len(s, i) == 1 + digit_run_len(s, i + 1));
        lemma_run_extends(s, i + 1, n - 1);
    }
}

/// The concrete value of ten to the eighteenth.
proof fn lemma_pow10_18()
    ensures
        pow10(18) == 0x0DE0_B6B3_A764_0000,
{
    assert(pow10(0) == 1);
    assert(pow10(1) == 10);
    assert(pow10(2) == 100);
    assert(pow10(3) == 1000);
    assert(pow10(4) == 10000);
    assert(pow10(5) == 100000);
    assert(pow10(6) == 1000000);
    assert(pow10(7) == 10000000);
    assert(pow10(8) == 100000000);
    assert(pow10(9) == 1000000000);
    assert(pow10(10) == 10000000000);
    assert(pow10(11) == 100000000000);
    assert(pow10(12) == 1000000000000);
    assert(pow10(13) == 10000000000000);
    assert(pow10(14) == 100000000000000);
    assert(pow10(15) == 1000000000000000);
    assert(pow10(16) == 10000000000000000);
    assert(pow10(17) == 100000000000000000);
    assert(pow10(18) == 1000000000000000000);
}

/// A well-formed multiplication group `mul ( a , b )` starts at
/// position `i`.
pub open spec fn is_mul_at(t: Seq<Token>, i: int) -> bool {
    &&& 0 <= i
    &&& i + 6 <= t.len()
    &&& t[i] is Multiply
    &&& t[i + 1] is OpenParen
    &&& t[i + 2] is Integer
    &&& t[i + 3] is Comma
    &&& t[i + 4] is Integer
    &&& t[i + 5] is CloseParen
}

/// The product of the group starting at position `i`.
pub open spec fn mul_val(t: Seq<Token>, i: int) -> int {
    t[i + 2]->Integer_0 * t[i + 4]->Integer_0
}

/// The sum of all enabled multiplication groups from position `i` on,
/// together with the enabled flag left behind: every position is
/// inspected, `do()` enables, `don't()` disables, and a group found
/// while enabled contributes its product.
pub open spec fn eval_from(t: Seq<Token>, i: int, enabled: bool) -> (int, bool)
    decreases t.len() - i when 0 <= i <= t.len()
{
    if i >= t.len() {
        (0, enabled)
    } else {
        let enabled2 = if t[i] is Do {
            true
        } else if t[i] is Dont {
            false
        } else {
            enabled
        };
        let rest = eval_from(t, i + 1, enabled2);
        let add = if enabled && is_mul_at(t, i) {
            mul_val(t, i)
        } else {
            0
        };
        (add + rest.0, rest.1)
    }
}

/// The evaluation sum is never negative.
pub proof fn lemma_eval_nonneg(t: Seq<Token>, i: int, enabled: bool)
    requires
        0 <= i <= t.len(),
    ensures
        eval_from(t, i, enabled).0 >= 0,
    decreases t.len() - i,
{
    if i < t.len() {
        let enabled2 = if t[i] is Do {
            true
        } else if t[i] is Dont {
            false
        } else {
            enabled
        };
        lemma_eval_nonneg(t, i + 1, enabled2);
    }
}

/// Sums the products of the enabled multiplication groups in the
/// token stream, starting with the given enabled flag; returns the
/// sum (or `None` when it exceeds the unsigned 64-bit range) and the
/// flag left behind for the next stream.
pub fn evaluate_tokens(tokens: &Vec<Token>, enabled: bool) -> (r: (Option<u64>, bool))
    ensures
        r.1 == eval_from(tokens@, 0, enabled).1,
        eval_from(tokens@, 0, enabled).0 <= u64::MAX ==> r.0 == Some(
            eval_from(tokens@, 0, enabled).0 as u64,
        ),
        eval_from(tokens@, 0, enabled).0 > u64::MAX ==> r.0 is None,
{
    let len = tokens.len();
    let mut i: usize = 0;
    let mut on = enabled;
    let mut acc: Option<u64> = Some(0);
    let ghost mut done: int = 0;

    #[verifier::loop_isolation(false)]
    while i < len
        invariant
            0 <= i <= len,
            done >= 0,
            eval_from(tokens@, 0, enabled).0 == done + eval_from(tokens@, i as int, on).0,
            eval_from(tokens@, 0, enabled).1 == eval_from(tokens@, i as int, on).1,
            acc matches Some(a) ==> a == done,
            acc is None ==> done > u64::MAX,
        decreases len - i,
    {
        proof {
            lemma_eval_nonneg(tokens@, i as int + 1, eval_from(tokens@, i as int, on).1 || true);
        }
        let ghost add_spec: int = if on && is_mul_at(tokens@, i as int) {
            mul_val(tokens@, i as int)
        } else {
            0
        };
        match tokens[i] {
            Token::Do => {
                on = true;
            },
            Token::Dont => {
                on = false;
            },
            _ => {},
        }
        if len - i >= 6 {
            if let (
                Token::Multiply,
                Token::OpenParen,
                Token::Integer(value1),
                Token::Comma,
                Token::Integer(value2),
                Token::CloseParen,
            ) = (tokens[i], tokens[i + 1], tokens[i + 2], tokens[i + 3], tokens[i + 4], tokens[i
                + 5]) {
                if on {
                    acc = match (acc, value1.checked_mul(value2)) {
                        (Some(a), Some(p)) => a.checked_add(p),
                        _ => None,
                    };
                }
            }
        }
        proof {
            done = done + add_spec;
            let en2 = if tokens@[i as int] is Do {
                true
            } else if tokens@[i as int] is Dont {
                false
            } else {
                on
            };
            lemma_eval_nonneg(tokens@, i as int + 1, en2);
        }
        i = i + 1;
    }
    (acc, on)
}

/// Sums the enabled multiplication groups of a whole document, line
/// by line, the enabled flag carrying over from each line to the
/// next.
pub open spec fn doc_eval(lines: Seq<Vec<u8>>, support_do_dont: bool, i: int, enabled: bool) -> (
    int,
    bool,
)
    decreases lines.len() - i when 0 <= i <= lines.len()
{
    if i >= lines.len() {
        (0, enabled)
    } else {
        let line_result = eval_from(tokens_spec(lines[i]@, 0, support_do_dont), 0, enabled);
        let rest = doc_eval(lines, support_do_dont, i + 1, line_result.1);
        (line_result.0 + rest.0, rest.1)
    }
}

/// The document sum is never negative.
pub proof fn lemma_doc_eval_nonneg(lines: Seq<Vec<u8>>, support_do_dont: bool, i: int, enabled: bool)
    requires
        0 <= i <= lines.len(),
    ensures
        doc_eval(lines, support_do_dont, i, enabled).0 >= 0,
    decreases lines.len() - i,
{
    if i < lines.len() {
        let line_result = eval_from(tokens_spec(lines[i]@, 0, support_do_dont), 0, enabled);
        lemma_eval_nonneg(tokens_spec(lines[i]@, 0, support_do_dont), 0, enabled);
        lemma_doc_eval_nonneg(lines, support_do_dont, i + 1, line_result.1);
    }
}

/// Tokenises every line and sums the products of the enabled
/// multiplication groups of the whole document; multiplications start
/// enabled.  `None` when the sum leaves the unsigned 64-bit range.
pub fn calculate_output(lines: &Vec<Vec<u8>>, support_do_dont: bool) -> (r: Option<u64>)
    requires
        forall|li: int| 0 <= li < lines@.len() ==> runs_bounded((#[trigger] lines@[li])@),
    ensures
        doc_eval(lines@, support_do_dont, 0, true).0 <= u64::MAX ==> r == Some(
            doc_eval(lines@, support_do_dont, 0, true).0 as u64,
        ),
        doc_eval(lines@, support_do_dont, 0, true).0 > u64::MAX ==> r is None,
{
    let len = lines.len();
    let mut i: usize = 0;
    let mut on = true;
    let mut acc: Option<u64> = Some(0);
    let ghost mut done: int = 0;

    #[verifier::loop_isolation(false)]
    while i < len
        invariant
            0 <= i <= len,
            done >= 0,
            doc_eval(lines@, support_do_dont, 0, true).0 == done + doc_eval(
                lines@,
                support_do_dont,
                i as int,
                on,
            ).0,
            doc_eval(lines@, support_do_dont, 0, true).1 == doc_eval(
                lines@,
                support_do_dont,
                i as int,
                on,
            ).1,
            acc matches Some(a) ==> a == done,
            acc is None ==> done > u64::MAX,
        decreases len - i,
    {
        let line_tokens = tokenise(&lines[i], support_do_dont);
        let (line_sum, next_on) = evaluate_tokens(&line_tokens, on);
        proof {
            let line_result = eval_from(tokens_spec(lines@[i as int]@, 0, support_do_dont), 0, on);
            lemma_eval_nonneg(tokens_spec(lines@[i as int]@, 0, support_do_dont), 0, on);
            lemma_doc_eval_nonneg(lines@, support_do_dont, i as int + 1, line_result.1);
            done = done + line_result.0;
        }
        acc = match (acc, line_sum) {
            (Some(a), Some(p)) => a.checked_add(p),
            _ => None,
        };
        on = next_on;
        i = i + 1;
    }
    acc
}

/// Ten to the power is monotone in the exponent.
proof fn lemma_pow10_mono(a: nat, b: nat)
    requires
        a <= b,
    ensures
        pow10(a) <= pow10(b),
        pow10(a) >= 1,
    decreases b,
{
    if a < b {
        lemma_pow10_mono(a, (b - 1) as nat);
        assert(pow10(b) == 10 * pow10((b - 1) as nat));
    } else if b > 0 {
        lemma_pow10_mono((a - 1) as nat, (b - 1) as nat);
    }
}

} // verus!
