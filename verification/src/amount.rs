//! Exact decimal amounts with four fractional digits.

use vstd::prelude::*;
use vstd::string::StrSliceExecFns;

verus! {

/// A monetary amount with exactly four fractional decimal digits, stored as
/// the value scaled by `SCALE` in a signed 64-bit integer. Deposits and
/// withdrawals are never negative, but computed balances can be, so the
/// backing integer is signed.
#[derive(Debug, Clone, Copy, PartialEq, Eq, Structural)]
pub struct FractionalAmount(pub i64);

/// One whole unit expressed in ten-thousandths.
pub const SCALE: i64 = 10_000;

/// The ways a decimal string can fail to be an amount.
#[derive(Debug, Clone, Copy, PartialEq, Eq, Structural)]
pub enum FractionalAmountParseError {
    /// The part before the first `.` is not a signed decimal integer, or the
    /// amount it denotes does not fit the backing 64-bit representation.
    InvalidIntegerPortion,
    /// Some character after the first `.` is not a decimal digit. Digits past
    /// the fourth carry no value but must still be digits.
    NonDigitInFractionalPortion,
}

/// `c` is one of the ten ASCII decimal digits.
pub open spec fn is_digit(c: char) -> bool {
    48 <= c as int && c as int <= 57
}

/// The numeric value of a decimal digit character.
pub open spec fn digit_val(c: char) -> int {
    c as int - 48
}

/// Every character of `s` is a decimal digit.
pub open spec fn all_digits(s: Seq<char>) -> bool {
    forall|i: int| 0 <= i < s.len() ==> is_digit(#[trigger] s[i])
}

/// The value of a sequence of digit characters, most significant first.
pub open spec fn digits_val(s: Seq<char>) -> int
    decreases s.len(),
{
    if s.len() == 0 {
        0
    } else {
        10 * digits_val(s.drop_last()) + digit_val(s.last())
    }
}

/// The index of the first `.` in `s`, or `s.len()` if there is none.
pub open spec fn dot_pos(s: Seq<char>) -> int
    decreases s.len(),
{
    if s.len() == 0 {
        0
    } else if s[0] == '.' {
        0
    } else {
        1 + dot_pos(s.skip(1))
    }
}

/// `p` is the position where `s` splits into integer and fractional portions:
/// everything before `p` is dot-free, and `p` is either a `.` or the end.
pub open spec fn is_split_pos(s: Seq<char>, p: int) -> bool {
    &&& 0 <= p <= s.len()
    &&& (p < s.len() ==> s[p] == '.')
    &&& forall|i: int| 0 <= i < p ==> #[trigger] s[i] != '.'
}

/// `s` with one leading sign character removed, if it has one.
pub open spec fn sign_skip(s: Seq<char>) -> Seq<char> {
    if s.len() > 0 && (s[0] == '+' || s[0] == '-') {
        s.skip(1)
    } else {
        s
    }
}

/// `s` is a signed decimal integer: an optional sign followed by at least one
/// digit, and nothing else.
pub open spec fn int_syntax_ok(s: Seq<char>) -> bool {
    sign_skip(s).len() > 0 && all_digits(sign_skip(s))
}

/// The mathematical value of a signed decimal integer string.
pub open spec fn int_val(s: Seq<char>) -> int {
    if s.len() > 0 && s[0] == '-' {
        -digits_val(sign_skip(s))
    } else {
        digits_val(sign_skip(s))
    }
}

/// The digit of the fractional portion at place `i`, or zero past its end.
pub open spec fn frac_digit_val(s: Seq<char>, i: int) -> int {
    if i < s.len() {
        digit_val(s[i])
    } else {
        0
    }
}

/// The contribution of the fractional portion to the scaled value: the first
/// four digits at descending place value, later digits discarded untruncated.
pub open spec fn frac_val(s: Seq<char>) -> int {
    1000 * frac_digit_val(s, 0) + 100 * frac_digit_val(s, 1) + 10 * frac_digit_val(s, 2)
        + frac_digit_val(s, 3)
}

/// The characters of `s` before the first `.`.
pub open spec fn int_portion(s: Seq<char>) -> Seq<char> {
    s.subrange(0, dot_pos(s))
}

/// The characters of `s` after the first `.`, or empty if there is no `.`.
pub open spec fn frac_portion(s: Seq<char>) -> Seq<char> {
    if dot_pos(s) < s.len() {
        s.subrange(dot_pos(s) + 1, s.len() as int)
    } else {
        Seq::<char>::empty()
    }
}

/// The scaled value `s` denotes. The fractional contribution is added to the
/// scaled integer portion as a non-negative quantity, exactly as the parser
/// reads it digit by digit.
pub open spec fn scaled_val(s: Seq<char>) -> int {
    SCALE * int_val(int_portion(s)) + frac_val(frac_portion(s))
}

/// What parsing a decimal string yields: the scaled value if the integer
/// portion is a signed integer, every fractional character is a digit, and
/// the scaled value fits the backing 64-bit integer; the fitting error
/// otherwise. The integer portion is checked first, as its error also covers
/// values too large for the representation.
pub open spec fn parse_spec(s: Seq<char>) -> Result<FractionalAmount, FractionalAmountParseError> {
    if !(int_syntax_ok(int_portion(s)) && i64::MIN <= int_val(int_portion(s)) <= i64::MAX) {
        Err(FractionalAmountParseError::InvalidIntegerPortion)
    } else if !all_digits(frac_portion(s)) {
        Err(FractionalAmountParseError::NonDigitInFractionalPortion)
    } else if !(i64::MIN <= scaled_val(s) <= i64::MAX) {
        Err(FractionalAmountParseError::InvalidIntegerPortion)
    } else {
        Ok(FractionalAmount(scaled_val(s) as i64))
    }
}

proof fn lemma_dot_pos(s: Seq<char>)
    ensures
        is_split_pos(s, dot_pos(s)),
    decreases s.len(),
{
    if s.len() == 0 {
    } else if s[0] == '.' {
    } else {
        lemma_dot_pos(s.skip(1));
        assert forall|i: int| 0 <= i < dot_pos(s) implies #[trigger] s[i] != '.' by {
            if i >= 1 {
                assert(s.skip(1)[i - 1] == s[i]);
            }
        }
        if dot_pos(s) < s.len() {
            assert(s.skip(1)[dot_pos(s.skip(1))] == s[dot_pos(s)]);
        }
    }
}

proof fn lemma_split_pos_unique(s: Seq<char>, p: int)
    requires
        is_split_pos(s, p),
    ensures
        p == dot_pos(s),
{
    lemma_dot_pos(s);
    if p < dot_pos(s) {
        assert(s[p] == '.');
    } else if dot_pos(s) < p {
        assert(s[dot_pos(s)] == '.');
    }
}

proof fn lemma_digits_val_nonneg(s: Seq<char>)
    requires
        all_digits(s),
    ensures
        digits_val(s) >= 0,
    decreases s.len(),
{
    if s.len() > 0 {
        assert(is_digit(s[s.len() - 1]));
        lemma_digits_val_nonneg(s.drop_last());
    }
}

/// Reading further digits can only grow the value of a digit string.
proof fn lemma_digits_val_prefix(s: Seq<char>, k: int)
    requires
        all_digits(s),
        0 <= k <= s.len(),
    ensures
        digits_val(s.subrange(0, k)) <= digits_val(s),
    decreases s.len() - k,
{
    if k == s.len() {
        assert(s.subrange(0, k) =~= s);
    } else {
        let shorter = s.subrange(0, k);
        let longer = s.subrange(0, k + 1);
        assert(longer.drop_last() =~= shorter);
        assert(is_digit(longer.last()));
        lemma_digits_val_nonneg(shorter);
        lemma_digits_val_prefix(s, k + 1);
    }
}

/// The numeric value of the digit character at `i`.
fn digit_at(s: &str, i: usize) -> (r: u32)
    requires
        i < s@.len(),
        is_digit(s@[i as int]),
    ensures
        r == digit_val(s@[i as int]),
        r < 10,
{
    let c = s.get_char(i);
    (c as u32) - 48
}

impl FractionalAmount {
    /// Reads a decimal string such as `"321.5468"` into an amount.
    ///
    /// The string splits at its first `.`. The integer portion must be a
    /// signed decimal integer; the first four fractional digits contribute at
    /// descending place value and the rest are discarded without rounding,
    /// though every fractional character must still be a digit.
    pub fn parse(s: &str) -> (r: Result<Self, FractionalAmountParseError>)
        ensures
            r == parse_spec(s@),
    {
        let n: usize = s.unicode_len();

        // Find the first dot, if any.
        let mut dot: usize = 0;
        while dot < n && s.get_char(dot) != '.'
            invariant
                n == s@.len(),
                dot <= n,
                forall|i: int| 0 <= i < dot ==> #[trigger] s@[i] != '.',
            decreases n - dot,
        {
            dot = dot + 1;
        }
        proof {
            lemma_split_pos_unique(s@, dot as int);
            assert(int_portion(s@) =~= s@.subrange(0, dot as int));
        }

        // Optional sign of the integer portion.
        let mut idx: usize = 0;
        let mut neg: bool = false;
        if dot > 0 {
            let c0 = s.get_char(0);
            if c0 == '-' {
                neg = true;
                idx = 1;
            } else if c0 == '+' {
                idx = 1;
            }
        }
        proof {
            if idx == 1 {
                assert(sign_skip(int_portion(s@)) =~= s@.subrange(1, dot as int));
            } else {
                assert(sign_skip(int_portion(s@)) =~= s@.subrange(0, dot as int));
            }
        }
        if idx == dot {
            // No digits in the integer portion.
            return Err(FractionalAmountParseError::InvalidIntegerPortion);
        }

        // Accumulate the digits of the integer portion. The magnitude is cut
        // off one step past `i64::MAX`, which already decides the outcome.
        let mut m: u128 = 0;
        let mut i: usize = idx;
        while i < dot
            invariant
                n == s@.len(),
                dot as int == dot_pos(s@),
                dot <= n,
                idx <= i <= dot,
                idx < dot,
                sign_skip(int_portion(s@)) =~= s@.subrange(idx as int, dot as int),
                neg ==> (dot > 0 && s@[0] == '-'),
                int_portion(s@).len() > 0 && int_portion(s@)[0] == '-' ==> neg,
                all_digits(s@.subrange(idx as int, i as int)),
                m == digits_val(s@.subrange(idx as int, i as int)),
                m <= i64::MAX as u128 + 1,
            decreases dot - i,
        {
            let c = s.get_char(i);
            let u: u32 = c as u32;
            if u < 48 || u > 57 {
                proof {
                    let body = sign_skip(int_portion(s@));
                    assert(body[i - idx] == s@[i as int]);
                    assert(!all_digits(body));
                }
                return Err(FractionalAmountParseError::InvalidIntegerPortion);
            }
            proof {
                let pre = s@.subrange(idx as int, i as int);
                let post = s@.subrange(idx as int, i as int + 1);
                assert(post.drop_last() =~= pre);
                assert(post.last() == s@[i as int]);
            }
            m = m * 10 + ((u - 48) as u128);
            i = i + 1;
            if m > i64::MAX as u128 + 1 {
                proof {
                    let body = sign_skip(int_portion(s@));
                    if all_digits(body) {
                        assert(s@.subrange(idx as int, i as int) =~= body.subrange(
                            0,
                            i - idx,
                        ));
                        lemma_digits_val_prefix(body, i - idx);
                        assert(digits_val(body) > i64::MAX as int + 1);
                    }
                }
                return Err(FractionalAmountParseError::InvalidIntegerPortion);
            }
        }
        proof {
            assert(s@.subrange(idx as int, dot as int) =~= s@.subrange(idx as int, i as int));
            assert(all_digits(sign_skip(int_portion(s@))));
            assert(int_syntax_ok(int_portion(s@)));
        }
        if !neg && m == i64::MAX as u128 + 1 {
            // `i64::MAX + 1` is representable only with a minus sign.
            return Err(FractionalAmountParseError::InvalidIntegerPortion);
        }
        let iv: i128 = if neg {
            -(m as i128)
        } else {
            m as i128
        };
        proof {
            assert(iv as int == int_val(int_portion(s@)));
            assert(i64::MIN <= int_val(int_portion(s@)) <= i64::MAX);
        }

        // Every character after the dot must be a digit.
        let flen: usize = if dot < n {
            n - dot - 1
        } else {
            0
        };
        let mut j: usize = 0;
        while j < flen
            invariant
                n == s@.len(),
                dot as int == dot_pos(s@),
                dot < n || flen == 0,
                flen as int == if dot < n { n - dot - 1 as int } else { 0 as int },
                j <= flen,
                int_syntax_ok(int_portion(s@)),
                i64::MIN <= int_val(int_portion(s@)) <= i64::MAX,
                forall|t: int| 0 <= t < j ==> is_digit(#[trigger] s@[dot + 1 + t]),
            decreases flen - j,
        {
            let c = s.get_char(dot + 1 + j);
            let u: u32 = c as u32;
            if u < 48 || u > 57 {
                proof {
                    assert(frac_portion(s@)[j as int] == s@[dot + 1 + j]);
                    assert(!all_digits(frac_portion(s@)));
                }
                return Err(FractionalAmountParseError::NonDigitInFractionalPortion);
            }
            j = j + 1;
        }
        proof {
            assert forall|t: int| 0 <= t < frac_portion(s@).len() implies is_digit(
                #[trigger] frac_portion(s@)[t],
            ) by {
                assert(frac_portion(s@)[t] == s@[dot + 1 + t]);
            }
        }

        // The first four fractional digits at descending place value.
        let f0: u32 = if flen > 0 { digit_at(s, dot + 1) } else { 0 };
        let f1: u32 = if flen > 1 { digit_at(s, dot + 2) } else { 0 };
        let f2: u32 = if flen > 2 { digit_at(s, dot + 3) } else { 0 };
        let f3: u32 = if flen > 3 { digit_at(s, dot + 4) } else { 0 };
        let f: u32 = 1000 * f0 + 100 * f1 + 10 * f2 + f3;
        proof {
            assert(f as int == frac_val(frac_portion(s@)));
        }

        proof {
            assert(iv <= i64::MAX as i128);
            assert(iv >= -(i64::MAX as i128) - 1);
        }
        let scaled: i128 = iv * 10_000 + (f as i128);
        proof {
            assert(scaled as int == scaled_val(s@));
        }
        if scaled < i64::MIN as i128 || scaled > i64::MAX as i128 {
            return Err(FractionalAmountParseError::InvalidIntegerPortion);
        }
        Ok(FractionalAmount(scaled as i64))
    }
}

/// The character for the decimal digit `d`.
pub open spec fn digit_char(d: int) -> char {
    if d == 0 {
        '0'
    } else if d == 1 {
        '1'
    } else if d == 2 {
        '2'
    } else if d == 3 {
        '3'
    } else if d == 4 {
        '4'
    } else if d == 5 {
        '5'
    } else if d == 6 {
        '6'
    } else if d == 7 {
        '7'
    } else if d == 8 {
        '8'
    } else {
        '9'
    }
}

/// The decimal digits of `n`, most significant first, without leading zeroes
/// except for `n == 0` itself.
pub open spec fn dec_digits(n: nat) -> Seq<char>
    decreases n,
{
    if n < 10 {
        seq![digit_char(n as int)]
    } else {
        dec_digits(n / 10).push(digit_char((n % 10) as int))
    }
}

/// Exactly four digits for a fractional part `f < 10_000`, zero-padded.
pub open spec fn frac4_chars(f: int) -> Seq<char> {
    seq![
        digit_char(f / 1000 % 10),
        digit_char(f / 100 % 10),
        digit_char(f / 10 % 10),
        digit_char(f % 10),
    ]
}

/// The canonical rendering of a scaled value: a sign only when negative, the
/// whole units without leading zeroes, a dot, and exactly four fractional
/// digits.
pub open spec fn amount_chars(v: int) -> Seq<char> {
    let m = if v < 0 {
        -v
    } else {
        v
    };
    (if v < 0 {
        seq!['-']
    } else {
        Seq::<char>::empty()
    }) + dec_digits((m / (SCALE as int)) as nat) + seq!['.'] + frac4_chars(m % (SCALE as int))
}

/// The one-character string for the decimal digit `d`.
fn digit_str(d: u64) -> (r: &'static str)
    requires
        d < 10,
    ensures
        r@ =~= seq![digit_char(d as int)],
{
    proof {
        reveal_strlit("0");
        reveal_strlit("1");
        reveal_strlit("2");
        reveal_strlit("3");
        reveal_strlit("4");
        reveal_strlit("5");
        reveal_strlit("6");
        reveal_strlit("7");
        reveal_strlit("8");
        reveal_strlit("9");
    }
    if d == 0 {
        "0"
    } else if d == 1 {
        "1"
    } else if d == 2 {
        "2"
    } else if d == 3 {
        "3"
    } else if d == 4 {
        "4"
    } else if d == 5 {
        "5"
    } else if d == 6 {
        "6"
    } else if d == 7 {
        "7"
    } else if d == 8 {
        "8"
    } else {
        "9"
    }
}

/// Appends the decimal digits of `n` to `out`.
fn push_digits(n: u64, out: &mut String)
    ensures
        final(out)@ == old(out)@ + dec_digits(n as nat),
    decreases n,
{
    if n < 10 {
        out.append(digit_str(n));
    } else {
        push_digits(n / 10, out);
        out.append(digit_str(n % 10));
        proof {
            assert(out@ =~= old(out)@ + dec_digits(n as nat));
        }
    }
}

impl FractionalAmount {
    /// The canonical decimal rendering: the sign only when negative, then the
    /// whole units, a dot, and exactly four fractional digits.
    pub fn to_string(&self) -> (r: String)
        ensures
            r@ == amount_chars(self.0 as int),
    {
        let mut out = String::new();
        let neg = self.0 < 0;
        let m: u64 = if neg {
            (-(self.0 as i128)) as u64
        } else {
            self.0 as u64
        };
        if neg {
            out.append("-");
        }
        push_digits(m / 10_000, &mut out);
        out.append(".");
        let frac: u64 = m % 10_000;
        out.append(digit_str(frac / 1000 % 10));
        out.append(digit_str(frac / 100 % 10));
        out.append(digit_str(frac / 10 % 10));
        out.append(digit_str(frac % 10));
        proof {
            reveal_strlit("-");
            reveal_strlit(".");
            assert(out@ =~= amount_chars(self.0 as int));
        }
        out
    }
}

impl Default for FractionalAmount {
    /// The amount zero.
    fn default() -> (r: Self)
        ensures
            r.0 == 0,
    {
        FractionalAmount(0)
    }
}

} // verus!
