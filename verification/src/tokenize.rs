//! Tokenizer: turns raw path text into a flat ordered sequence of command
//! letters and numeric literals.
//!
//! Words are separated by ASCII whitespace.  A command letter immediately
//! followed by a negative number (`"L-5"`) still splits into two tokens; any
//! other word that is neither a single letter nor a numeric literal becomes
//! [`Token::Other`], which the canonicalizer later skips or rejects depending
//! on where it stands.  A numeric literal is an optional sign, digits and at
//! most one decimal point; its value is stored in fixed point ([`SCALE`]),
//! rounded to the nearest representable value (ties away from zero) when it
//! has more than twelve decimals.  A literal whose magnitude exceeds
//! [`MAX_COORD`] is rejected with [`PathError::TokenizeError`]: a machine
//! limit of the fixed-point representation.

use vstd::prelude::*;
use crate::error::PathError;
use crate::fixed::{SCALE, MAX_COORD};

verus! {

/// One token of a path description.
#[derive(Clone, Copy, Debug, PartialEq, Eq, Structural)]
pub enum Token {
    /// A single alphabetic character.
    Letter(u8),
    /// A numeric literal, in fixed point.
    Number(i128),
    /// A word that is neither a letter nor a numeric literal.
    Other,
}

/// ASCII whitespace, the token separator.
pub open spec fn is_space(c: u8) -> bool {
    c == 32 || (9 <= c <= 13)
}

/// ASCII letter.
pub open spec fn is_alpha(c: u8) -> bool {
    (65 <= c <= 90) || (97 <= c <= 122)
}

/// ASCII digit.
pub open spec fn is_digit(c: u8) -> bool {
    48 <= c <= 57
}

/// Ten to the `n`.
pub open spec fn pow10(n: nat) -> int
    decreases n,
{
    if n == 0 {
        1
    } else {
        10 * pow10((n - 1) as nat)
    }
}

/// The value of a digit string read as a decimal integer.
pub open spec fn digits_val(s: Seq<u8>) -> int
    decreases s.len(),
{
    if s.len() == 0 {
        0
    } else {
        digits_val(s.drop_last()) * 10 + (s.last() - 48)
    }
}

/// Index of the first decimal point, or the length if there is none.
pub open spec fn dot_pos(s: Seq<u8>) -> int
    decreases s.len(),
{
    if s.len() == 0 {
        0
    } else if s[0] == 46 {
        0
    } else {
        1 + dot_pos(s.subrange(1, s.len() as int))
    }
}

/// A well-formed unsigned numeric body: digits with at most one decimal
/// point, and at least one digit.
pub open spec fn body_ok(s: Seq<u8>) -> bool {
    &&& s.len() > 0
    &&& (forall|k: int| 0 <= k < s.len() ==> is_digit(#[trigger] s[k]) || s[k] == 46)
    &&& (forall|k: int| dot_pos(s) < k < s.len() ==> is_digit(#[trigger] s[k]))
    &&& (s.len() > 1 || is_digit(s[0]))
}

/// The fraction digits of a body (empty if there is no decimal point).
pub open spec fn frac_digits(s: Seq<u8>) -> Seq<u8> {
    if dot_pos(s) < s.len() {
        s.subrange(dot_pos(s) + 1, s.len() as int)
    } else {
        Seq::empty()
    }
}

/// The fixed-point value of a fraction digit string: the first twelve digits
/// exactly, the thirteenth rounding half away from zero, the rest dropped.
pub open spec fn frac_scaled(fr: Seq<u8>) -> int {
    if fr.len() <= 12 {
        digits_val(fr) * pow10((12 - fr.len()) as nat)
    } else {
        digits_val(fr.take(12)) + if fr[12] >= 53 { 1int } else { 0int }
    }
}

/// The fixed-point magnitude of an unsigned numeric body.
pub open spec fn body_val(s: Seq<u8>) -> int {
    digits_val(s.take(dot_pos(s))) * SCALE + frac_scaled(frac_digits(s))
}

/// The body of a numeric word, after an optional leading sign.
pub open spec fn num_body(w: Seq<u8>) -> Seq<u8> {
    if w.len() > 0 && (w[0] == 43 || w[0] == 45) {
        w.subrange(1, w.len() as int)
    } else {
        w
    }
}

/// Whether a word is a numeric literal: optional sign, then a valid body.
pub open spec fn valid_number(w: Seq<u8>) -> bool {
    w.len() > 0 && body_ok(num_body(w))
}

/// The fixed-point value of a numeric word.
pub open spec fn number_val(w: Seq<u8>) -> int {
    if w.len() > 0 && w[0] == 45 {
        -body_val(num_body(w))
    } else {
        body_val(num_body(w))
    }
}

/// The token a single word turns into, or the error it raises.
pub open spec fn word_token(w: Seq<u8>) -> Result<Token, PathError> {
    if w.len() == 1 && is_alpha(w[0]) {
        Ok(Token::Letter(w[0]))
    } else if valid_number(w) {
        if -MAX_COORD <= number_val(w) <= MAX_COORD {
            Ok(Token::Number(number_val(w) as i128))
        } else {
            Err(PathError::TokenizeError)
        }
    } else {
        Ok(Token::Other)
    }
}

/// The tokens a whitespace-separated word yields: a letter directly followed
/// by a negative number splits in two, anything else is one token.
pub open spec fn word_tokens(w: Seq<u8>) -> Result<Seq<Token>, PathError> {
    if w.len() > 1 && is_alpha(w[0]) && w[1] == 45 {
        match word_token(w.subrange(1, w.len() as int)) {
            Ok(t) => Ok(seq![Token::Letter(w[0]), t]),
            Err(e) => Err(e),
        }
    } else {
        match word_token(w) {
            Ok(t) => Ok(seq![t]),
            Err(e) => Err(e),
        }
    }
}

/// End of the word starting at `i`: the first whitespace at or after `i`.
pub open spec fn word_end(s: Seq<u8>, i: int) -> int
    decreases s.len() - i,
{
    if i < 0 || i >= s.len() || is_space(s[i]) {
        i
    } else {
        word_end(s, i + 1)
    }
}

/// Prefix a token sequence onto the result of tokenizing a remainder.
pub open spec fn prepend_tokens(pre: Seq<Token>, r: Result<Seq<Token>, PathError>) -> Result<
    Seq<Token>,
    PathError,
> {
    match r {
        Ok(ts) => Ok(pre + ts),
        Err(e) => Err(e),
    }
}

/// Tokenization of `s` from position `i` on.
pub open spec fn spec_tokenize_from(s: Seq<u8>, i: int) -> Result<Seq<Token>, PathError>
    decreases s.len() - i
        when 0 <= i <= s.len()
        via spec_tokenize_from_dec
{
    if i >= s.len() {
        Ok(Seq::empty())
    } else if is_space(s[i]) {
        spec_tokenize_from(s, i + 1)
    } else {
        let j = word_end(s, i + 1);
        match word_tokens(s.subrange(i, j)) {
            Ok(ts) => prepend_tokens(ts, spec_tokenize_from(s, j)),
            Err(e) => Err(e),
        }
    }
}

#[via_fn]
proof fn spec_tokenize_from_dec(s: Seq<u8>, i: int) {
    if 0 <= i && i < s.len() && !is_space(s[i]) {
        lemma_word_end(s, i + 1);
    }
}

/// Tokenization of a whole path text.
pub open spec fn spec_tokenize(s: Seq<u8>) -> Result<Seq<Token>, PathError> {
    spec_tokenize_from(s, 0)
}

/// Every numeric token is within the representable coordinate range.
pub open spec fn tokens_wf(ts: Seq<Token>) -> bool {
    forall|k: int|
        0 <= k < ts.len() ==> (#[trigger] ts[k] matches Token::Number(v) ==> -MAX_COORD <= v
            <= MAX_COORD)
}

/// `word_end` stays within the text and stops at the first whitespace.
pub proof fn lemma_word_end(s: Seq<u8>, i: int)
    requires
        0 <= i <= s.len(),
    ensures
        i <= word_end(s, i) <= s.len(),
        word_end(s, i) < s.len() ==> is_space(s[word_end(s, i)]),
        forall|k: int| i <= k < word_end(s, i) ==> !is_space(#[trigger] s[k]),
    decreases s.len() - i,
{
    if i < s.len() && !is_space(s[i]) {
        lemma_word_end(s, i + 1);
    }
}

/// The first whitespace after a run of non-whitespace is the word end.
pub proof fn lemma_word_end_at(s: Seq<u8>, i: int, j: int)
    requires
        0 <= i <= j <= s.len(),
        forall|k: int| i <= k < j ==> !is_space(#[trigger] s[k]),
        j == s.len() || is_space(s[j]),
    ensures
        word_end(s, i) == j,
    decreases j - i,
{
    if i < j {
        lemma_word_end_at(s, i + 1, j);
    }
}

/// Digit strings have nonnegative values bounded by a power of ten.
pub proof fn lemma_digits_val_bounds(s: Seq<u8>)
    requires
        forall|k: int| 0 <= k < s.len() ==> is_digit(#[trigger] s[k]),
    ensures
        0 <= digits_val(s) < pow10(s.len()),
    decreases s.len(),
{
    if s.len() > 0 {
        lemma_digits_val_bounds(s.drop_last());
        assert(0 <= digits_val(s.drop_last()) < pow10((s.len() - 1) as nat));
        assert(digits_val(s) == digits_val(s.drop_last()) * 10 + (s.last() - 48));
        assert(digits_val(s.drop_last()) * 10 + 10 <= pow10((s.len() - 1) as nat) * 10)
            by (nonlinear_arith)
            requires digits_val(s.drop_last()) < pow10((s.len() - 1) as nat);
    }
}

/// Appending a digit multiplies the value by ten and adds the digit.
pub proof fn lemma_digits_val_push(s: Seq<u8>, k: int)
    requires
        0 <= k < s.len(),
    ensures
        digits_val(s.take(k + 1)) == digits_val(s.take(k)) * 10 + (s[k] - 48),
{
    assert(s.take(k + 1).drop_last() =~= s.take(k));
    assert(s.take(k + 1).last() == s[k]);
}

/// Powers of ten are positive.
pub proof fn lemma_pow10_pos(n: nat)
    ensures
        pow10(n) >= 1,
    decreases n,
{
    if n > 0 {
        lemma_pow10_pos((n - 1) as nat);
    }
}

/// The concrete powers of ten the tokenizer uses.
pub proof fn lemma_pow10_12()
    ensures
        pow10(12) == SCALE,
{
    assert(pow10(0) == 1);
    assert(pow10(1) == 10);
    assert(pow10(2) == 100);
    assert(pow10(3) == 1000);
    assert(pow10(4) == 10000);
    assert(pow10(5) == 100000);
    assert(pow10(6) == 1000000);
    assert(pow10(7) == 10000000);
    assert(pow10(8) == 100000000);
    assert(pow10(9) == 1000000000);
    assert(pow10(10) == 10000000000);
    assert(pow10(11) == 100000000000);
    assert(pow10(12) == 1000000000000);
}

/// Powers of ten multiply by adding exponents.
pub proof fn lemma_pow10_mul(a: nat, b: nat)
    ensures
        pow10(a) * pow10(b) == pow10(a + b),
    decreases a,
{
    if a == 0 {
        assert(1 * pow10(b) == pow10(b));
    } else {
        lemma_pow10_mul((a - 1) as nat, b);
        assert((10 * pow10((a - 1) as nat)) * pow10(b) == 10 * (pow10((a - 1) as nat) * pow10(b)))
            by (nonlinear_arith);
    }
}

/// The scaled fraction value lies between zero and one unit.
pub proof fn lemma_frac_scaled_bounds(fr: Seq<u8>)
    requires
        forall|k: int| 0 <= k < fr.len() ==> is_digit(#[trigger] fr[k]),
    ensures
        0 <= frac_scaled(fr) <= SCALE,
{
    lemma_pow10_12();
    if fr.len() <= 12 {
        lemma_digits_val_bounds(fr);
        lemma_pow10_pos((12 - fr.len()) as nat);
        lemma_pow10_mul(fr.len(), (12 - fr.len()) as nat);
        assert(0 <= digits_val(fr) * pow10((12 - fr.len()) as nat) <= (pow10(fr.len()) - 1)
            * pow10((12 - fr.len()) as nat)) by (nonlinear_arith)
            requires
                0 <= digits_val(fr) <= pow10(fr.len()) - 1,
                pow10((12 - fr.len()) as nat) >= 1;
        assert((pow10(fr.len()) - 1) * pow10((12 - fr.len()) as nat) == pow10(fr.len()) * pow10(
            (12 - fr.len()) as nat) - pow10((12 - fr.len()) as nat)) by (nonlinear_arith);
    } else {
        let pre = fr.take(12);
        assert(forall|k: int| 0 <= k < pre.len() ==> is_digit(#[trigger] pre[k]));
        lemma_digits_val_bounds(pre);
    }
}

/// A position preceded by no decimal point, holding one or past the end, is
/// `dot_pos`.
pub proof fn lemma_dot_pos_at(s: Seq<u8>, p: int)
    requires
        0 <= p <= s.len(),
        forall|k: int| 0 <= k < p ==> #[trigger] s[k] != 46,
        p == s.len() || s[p] == 46,
    ensures
        dot_pos(s) == p,
    decreases p,
{
    if s.len() == 0 {
    } else if p == 0 {
    } else {
        let t = s.subrange(1, s.len() as int);
        assert(forall|k: int| 0 <= k < p - 1 ==> #[trigger] t[k] != 46);
        assert(p - 1 == t.len() || t[p - 1] == 46);
        lemma_dot_pos_at(t, p - 1);
    }
}

/// A clamped register holds the exact value up to `10_000` and `10_001` past
/// it.
pub open spec fn clamped(iv: int, v: int) -> bool {
    if v <= 10_000 {
        iv == v
    } else {
        iv == 10_001
    }
}

/// Classify one whitespace-separated word (after the letter/negative-number
/// split) into its token, or reject an out-of-range numeric literal.
#[verifier::rlimit(60)]
fn classify_word(w: &[u8]) -> (r: Result<Token, PathError>)
    ensures
        r == word_token(w@),
{
    let n: usize = w.len();
    if n == 1 && (65 <= w[0] && w[0] <= 90 || 97 <= w[0] && w[0] <= 122) {
        return Ok(Token::Letter(w[0]));
    }
    if n == 0 {
        return Ok(Token::Other);
    }
    let neg: bool = w[0] == 45;
    let start: usize = if w[0] == 43 || w[0] == 45 {
        1
    } else {
        0
    };
    let ghost b = w@.subrange(start as int, n as int);
    proof {
        assert(num_body(w@) =~= b);
    }
    if start >= n {
        return Ok(Token::Other);
    }
    let mut k: usize = start;
    let mut seen_dot: bool = false;
    let mut dp_abs: usize = 0;
    let mut has_digit: bool = false;
    let mut iv: i128 = 0;
    let mut fv: i128 = 0;
    let mut m: u64 = 1_000_000_000_000;
    let mut fcnt: usize = 0;
    let mut carry: bool = false;
    proof {
        lemma_pow10_12();
        assert(b.take(0) =~= Seq::<u8>::empty());
    }
    while k < n
        invariant
            start <= k <= n,
            start < n,
            n == w@.len(),
            b == w@.subrange(start as int, n as int),
            b == num_body(w@),
            !(w@.len() == 1 && is_alpha(w@[0])),
            forall|t: int| 0 <= t < k - start ==> is_digit(#[trigger] b[t]) || b[t] == 46,
            !seen_dot ==> {
                &&& (forall|t: int| 0 <= t < k - start ==> #[trigger] b[t] != 46)
                &&& clamped(iv as int, digits_val(b.take(k - start)))
                &&& fv == 0
                &&& m == 1_000_000_000_000u64
                &&& fcnt == 0
                &&& carry == false
            },
            seen_dot ==> start <= dp_abs < k && b[dp_abs - start] == 46,
            seen_dot ==> (forall|t: int| 0 <= t < dp_abs - start ==> #[trigger] b[t] != 46),
            seen_dot ==> (forall|t: int|
                dp_abs - start < t < k - start ==> is_digit(#[trigger] b[t])),
            seen_dot ==> clamped(iv as int, digits_val(b.take(dp_abs - start))),
            seen_dot ==> fcnt == if k - start - (dp_abs - start) - 1 <= 13 {
                k - start - (dp_abs - start) - 1
            } else {
                13int
            },
            seen_dot && fcnt <= 12 ==> fv == digits_val(
                b.subrange(dp_abs - start + 1, k - start),
            ) * pow10((12 - fcnt) as nat),
            seen_dot && fcnt <= 12 ==> m == pow10((12 - fcnt) as nat) && carry == false && fv + m
                <= 1_000_000_000_000,
            seen_dot && fcnt == 13 ==> fv == digits_val(
                b.subrange(dp_abs - start + 1, dp_abs - start + 13),
            ) && carry == (b[dp_abs - start + 13] >= 53) && fv <= 999_999_999_999,
            has_digit ==> exists|t: int| 0 <= t < k - start && is_digit(#[trigger] b[t]),
            !has_digit ==> forall|t: int| 0 <= t < k - start ==> !is_digit(#[trigger] b[t]),
            0 <= iv <= 10_001,
            0 <= fv,
            1 <= m <= 1_000_000_000_000,
        decreases n - k,
    {
        let c: u8 = w[k];
        let ghost rel = k - start;
        proof {
            assert(b[rel] == c);
        }
        if 48 <= c && c <= 57 {
            has_digit = true;
            if !seen_dot {
                proof {
                    lemma_digits_val_push(b, rel);
                }
                iv = iv * 10 + (c - 48) as i128;
                if iv > 10_000 {
                    iv = 10_001;
                }
                proof {
                    let old_v = digits_val(b.take(rel));
                    let new_v = digits_val(b.take(rel + 1));
                    assert(new_v == old_v * 10 + (c - 48));
                    if old_v > 10_000 {
                        assert(old_v * 10 >= 10_001 * 10) by (nonlinear_arith)
                            requires
                                old_v >= 10_001,
                        ;
                    }
                    assert(clamped(iv as int, new_v));
                }
            } else {
                let ghost dp = dp_abs - start;
                let ghost frp = b.subrange(dp + 1, rel);
                if fcnt < 12 {
                    proof {
                        assert(m == pow10((12 - fcnt) as nat));
                        assert(pow10((12 - fcnt) as nat) == 10 * pow10((11 - fcnt) as nat));
                        lemma_pow10_pos((11 - fcnt) as nat);
                        vstd::arithmetic::div_mod::lemma_div_multiples_vanish(
                            pow10((11 - fcnt) as nat),
                            10,
                        );
                    }
                    m = m / 10;
                    proof {
                        assert((c - 48) as int * (m as int) <= 9 * (m as int)) by (nonlinear_arith)
                            requires
                                48 <= c <= 57,
                                m >= 0,
                        ;
                        assert((c - 48) as int * (m as int) >= 0) by (nonlinear_arith)
                            requires
                                48 <= c <= 57,
                                m >= 0,
                        ;
                    }
                    fv = fv + (c - 48) as i128 * (m as i128);
                    fcnt = fcnt + 1;
                    proof {
                        let frp2 = b.subrange(dp + 1, rel + 1);
                        assert(frp2.drop_last() =~= frp);
                        assert(frp2.last() == b[rel]);
                        assert(digits_val(frp2) == digits_val(frp) * 10 + (c - 48));
                        assert((digits_val(frp) * 10 + (c - 48)) * pow10((12 - fcnt) as nat)
                            == digits_val(frp) * (10 * pow10((12 - fcnt) as nat)) + (c - 48)
                            * pow10((12 - fcnt) as nat)) by (nonlinear_arith);
                        assert(10 * pow10((12 - fcnt) as nat) == pow10((13 - fcnt) as nat));
                        assert(fv == digits_val(frp2) * pow10((12 - fcnt) as nat));
                        assert(m == pow10((12 - fcnt) as nat));
                        assert(fv + m <= 1_000_000_000_000);
                        assert(fcnt == rel + 1 - dp - 1);
                    }
                } else if fcnt == 12 {
                    carry = c >= 53;
                    fcnt = 13;
                    proof {
                        assert(b.subrange(dp + 1, dp + 13) =~= frp);
                        assert(b[dp + 13] == c);
                    }
                } else {
                    proof {
                        assert(b.subrange(dp + 1, dp + 13) =~= b.subrange(dp + 1, dp + 13));
                    }
                }
            }
        } else if c == 46 {
            if seen_dot {
                proof {
                    let dp = dp_abs - start;
                    lemma_dot_pos_at(b, dp);
                    assert(!body_ok(b));
                }
                return Ok(Token::Other);
            }
            seen_dot = true;
            dp_abs = k;
            proof {
                lemma_pow10_12();
                let frp = b.subrange(rel + 1, rel + 1);
                assert(frp =~= Seq::<u8>::empty());
                assert(digits_val(frp) * pow10(12) == 0) by (nonlinear_arith)
                    requires
                        digits_val(frp) == 0,
                ;
            }
        } else {
            proof {
                assert(!(is_digit(b[rel]) || b[rel] == 46));
                assert(!body_ok(b));
            }
            return Ok(Token::Other);
        }
        k = k + 1;
    }
    let ghost len = n - start;
    if !has_digit {
        proof {
            // every scanned character is a non-digit, so the body can only be
            // a lone decimal point, which is not a well-formed literal
            if body_ok(b) {
                assert(!is_digit(b[0]));
                if seen_dot {
                    let dp = dp_abs - start;
                    if dp > 0 {
                        assert(b[0] != 46);
                        assert(is_digit(b[0]) || b[0] == 46);
                        assert(false);
                    }
                    if dp + 1 < len {
                        assert(is_digit(b[dp + 1]));
                        assert(false);
                    }
                    assert(len == 1 && b[0] == 46);
                    assert(b.len() > 1 || is_digit(b[0]));
                    assert(false);
                } else {
                    assert(b[0] != 46);
                    assert(is_digit(b[0]) || b[0] == 46);
                    assert(false);
                }
            }
            assert(!body_ok(b));
        }
        return Ok(Token::Other);
    }
    // the body is a well-formed numeric literal
    proof {
        if seen_dot {
            let dp = dp_abs - start;
            lemma_dot_pos_at(b, dp);
        } else {
            lemma_dot_pos_at(b, len);
        }
        assert(body_ok(b));
        assert(valid_number(w@));
    }
    let fvv: i128 = fv + if carry {
        1
    } else {
        0
    };
    proof {
        // relate the accumulated registers to the specified value
        lemma_pow10_12();
        if seen_dot {
            let dp = dp_abs - start;
            assert(frac_digits(b) =~= b.subrange(dp + 1, len as int));
            if fcnt <= 12 {
                assert(b.subrange(dp + 1, len as int) =~= b.subrange(dp + 1, dp + 1 + fcnt));
                assert(frac_digits(b).len() == fcnt);
            } else {
                assert(frac_digits(b).take(12) =~= b.subrange(dp + 1, dp + 13));
                assert(frac_digits(b)[12] == b[dp + 13]);
            }
            assert(b.take(dot_pos(b)) =~= b.take(dp));
        } else {
            assert(frac_digits(b) =~= Seq::<u8>::empty());
            assert(digits_val(Seq::<u8>::empty()) * pow10(12) == 0) by (nonlinear_arith)
                requires
                    digits_val(Seq::<u8>::empty()) == 0,
            ;
            assert(b.take(dot_pos(b)) =~= b.take(len as int));
        }
        assert(fvv == frac_scaled(frac_digits(b)));
        assert(forall|t: int|
            0 <= t < frac_digits(b).len() ==> is_digit(#[trigger] frac_digits(b)[t]));
        lemma_frac_scaled_bounds(frac_digits(b));
    }
    let ghost ip_val = digits_val(b.take(dot_pos(b)));
    if iv > 10_000 {
        proof {
            assert(ip_val > 10_000);
            assert(ip_val * SCALE >= 10_001 * SCALE) by (nonlinear_arith)
                requires
                    ip_val >= 10_001,
            ;
            assert(body_val(b) > MAX_COORD);
        }
        return Err(PathError::TokenizeError);
    }
    if iv == 10_000 && fvv > 0 {
        proof {
            assert(body_val(b) == 10_000 * SCALE + fvv);
        }
        return Err(PathError::TokenizeError);
    }
    let val: i128 = iv * SCALE + fvv;
    proof {
        assert(body_val(b) == iv * SCALE + fvv);
        assert(iv * SCALE <= 10_000 * SCALE) by (nonlinear_arith)
            requires
                0 <= iv <= 10_000,
        ;
        assert(iv * SCALE >= 0) by (nonlinear_arith)
            requires
                iv >= 0,
        ;
        assert(0 <= body_val(b) <= MAX_COORD);
    }
    if neg {
        Ok(Token::Number(-val))
    } else {
        Ok(Token::Number(val))
    }
}

/// Turn a path text into its token sequence, or report the first
/// out-of-range numeric literal.
pub fn tokenize(input: &[u8]) -> (r: Result<Vec<Token>, PathError>)
    ensures
        r matches Ok(v) ==> spec_tokenize(input@) == Ok::<Seq<Token>, PathError>(v@) && tokens_wf(
            v@,
        ),
        r matches Err(e) ==> spec_tokenize(input@) == Err::<Seq<Token>, PathError>(e),
{
    let n: usize = input.len();
    let ghost s = input@;
    let mut out: Vec<Token> = Vec::new();
    let mut i: usize = 0;
    while i < n
        invariant
            i <= n,
            n == s.len(),
            s == input@,
            spec_tokenize(s) == prepend_tokens(out@, spec_tokenize_from(s, i as int)),
            tokens_wf(out@),
        decreases n - i,
    {
        let c: u8 = input[i];
        if c == 32 || (9 <= c && c <= 13) {
            i = i + 1;
        } else {
            let ghost i0 = i as int;
            let mut j: usize = i + 1;
            while j < n && !(input[j] == 32 || (9 <= input[j] && input[j] <= 13))
                invariant
                    i0 + 1 <= j <= n,
                    n == s.len(),
                    s == input@,
                    word_end(s, i0 + 1) == word_end(s, j as int),
                decreases n - j,
            {
                j = j + 1;
            }
            proof {
                assert(word_end(s, j as int) == j);
                assert(word_end(s, i0 + 1) == j);
            }
            let w: &[u8] = &input[i..j];
            let ghost before = out@;
            let ghost wts = word_tokens(s.subrange(i0, j as int));
            if w.len() > 1 && (65 <= w[0] && w[0] <= 90 || 97 <= w[0] && w[0] <= 122) && w[1]
                == 45 {
                out.push(Token::Letter(w[0]));
                let rest: &[u8] = &w[1..w.len()];
                proof {
                    assert(rest@ =~= w@.subrange(1, w@.len() as int));
                }
                match classify_word(rest) {
                    Ok(t) => {
                        out.push(t);
                        proof {
                            assert(wts == Ok::<Seq<Token>, PathError>(
                                seq![Token::Letter(w@[0]), t],
                            ));
                            assert(out@ =~= before + seq![Token::Letter(w@[0]), t]);
                        }
                    },
                    Err(e) => {
                        proof {
                            assert(wts == Err::<Seq<Token>, PathError>(e));
                            assert(spec_tokenize_from(s, i0) == Err::<Seq<Token>, PathError>(e));
                        }
                        return Err(e);
                    },
                }
            } else {
                match classify_word(w) {
                    Ok(t) => {
                        out.push(t);
                        proof {
                            assert(wts == Ok::<Seq<Token>, PathError>(seq![t]));
                            assert(out@ =~= before + seq![t]);
                        }
                    },
                    Err(e) => {
                        proof {
                            assert(wts == Err::<Seq<Token>, PathError>(e));
                            assert(spec_tokenize_from(s, i0) == Err::<Seq<Token>, PathError>(e));
                        }
                        return Err(e);
                    },
                }
            }
            proof {
                let ts = wts->Ok_0;
                let rest_r = spec_tokenize_from(s, j as int);
                assert(spec_tokenize_from(s, i0) == prepend_tokens(ts, rest_r));
                match rest_r {
                    Ok(rts) => {
                        assert((before + ts) + rts =~= before + (ts + rts));
                    },
                    Err(_) => {},
                }
            }
            i = j;
        }
    }
    proof {
        assert(out@ + Seq::<Token>::empty() =~= out@);
    }
    Ok(out)
}

} // verus!
