//! The text of a binary32 value: its shortest decimal written out in full,
//! without an exponent.
use crate::binary32::{Binary32, INFINITY_ORDINAL};
use crate::decimal::{
    lemma_pow10_positive, lemma_pow10_split, lemma_pow10_values, pow10, shortest_decimal,
    shortest_decimal_of,
};
use vstd::prelude::*;
use vstd::string::StringExecFns;

verus! {

/// The character of a decimal digit.
pub open spec fn digit_char(d: nat) -> char {
    if d == 0 {
        '0'
    } else if d == 1 {
        '1'
    } else if d == 2 {
        '2'
    } else if d == 3 {
        '3'
    } else if d == 4 {
        '4'
    } else if d == 5 {
        '5'
    } else if d == 6 {
        '6'
    } else if d == 7 {
        '7'
    } else if d == 8 {
        '8'
    } else {
        '9'
    }
}

/// The decimal digits of `n`, without leading zeros; one zero for zero.
pub open spec fn digits_of(n: nat) -> Seq<char>
    decreases n,
{
    if n < 10 {
        seq![digit_char(n)]
    } else {
        digits_of(n / 10) + seq![digit_char(n % 10)]
    }
}

/// The last `width` decimal digits of `n`, leading zeros included.
pub open spec fn padded_digits(n: nat, width: nat) -> Seq<char>
    decreases width,
{
    if width == 0 {
        Seq::empty()
    } else {
        padded_digits(n / 10, (width - 1) as nat) + seq![digit_char(n % 10)]
    }
}

/// `n` zeros.
pub open spec fn zeros(n: nat) -> Seq<char> {
    Seq::new(n, |i: int| '0')
}

/// The decimal `c * 10^g` written out: the digits of `c` followed by `g`
/// zeros, or with a point before the last `-g` of them, behind a zero where
/// no digit is left before the point.
pub open spec fn decimal_text(c: nat, g: int) -> Seq<char> {
    if g >= 0 {
        digits_of(c) + zeros(g as nat)
    } else {
        digits_of(c / pow10((-g) as nat)) + seq!['.'] + padded_digits(
            c % pow10((-g) as nat),
            (-g) as nat,
        )
    }
}

impl Binary32 {
    /// The text of the value: `NaN` for every NaN, and else a `-` where the
    /// sign bit is set, before `inf`, `0` or the shortest decimal that reads
    /// back as the value.
    pub open spec fn text_of(self) -> Seq<char> {
        if self.is_nan() {
            seq!['N', 'a', 'N']
        } else {
            let sign = if self.sign() {
                seq!['-']
            } else {
                Seq::empty()
            };
            if self.is_infinite() {
                sign + seq!['i', 'n', 'f']
            } else if self.is_zero() {
                sign + seq!['0']
            } else {
                let shortest = shortest_decimal_of(self.ordinal());
                sign + decimal_text(shortest.0, shortest.1)
            }
        }
    }
}

/// The text of one decimal digit.
fn digit_text(d: u64) -> (s: &'static str)
    requires
        d < 10,
    ensures
        s@ == seq![digit_char(d as nat)],
{
    proof {
        reveal_strlit("0");
        reveal_strlit("1");
        reveal_strlit("2");
        reveal_strlit("3");
        reveal_strlit("4");
        reveal_strlit("5");
        reveal_strlit("6");
        reveal_strlit("7");
        reveal_strlit("8");
        reveal_strlit("9");
    }
    let s = if d == 0 {
        "0"
    } else if d == 1 {
        "1"
    } else if d == 2 {
        "2"
    } else if d == 3 {
        "3"
    } else if d == 4 {
        "4"
    } else if d == 5 {
        "5"
    } else if d == 6 {
        "6"
    } else if d == 7 {
        "7"
    } else if d == 8 {
        "8"
    } else {
        "9"
    };
    assert(s@ =~= seq![digit_char(d as nat)]);
    s
}

/// Appends the decimal digits of `n`.
fn append_digits(text: &mut String, n: u64)
    ensures
        final(text)@ == old(text)@ + digits_of(n as nat),
    decreases n,
{
    if n >= 10 {
        append_digits(text, n / 10);
    }
    text.append(digit_text(n % 10));
    proof {
        if n >= 10 {
            assert(final(text)@ =~= old(text)@ + digits_of(n as nat));
        }
    }
}

/// Appends the last `width` decimal digits of `n`.
fn append_padded(text: &mut String, n: u64, width: u32)
    ensures
        final(text)@ == old(text)@ + padded_digits(n as nat, width as nat),
    decreases width,
{
    if width > 0 {
        append_padded(text, n / 10, width - 1);
        text.append(digit_text(n % 10));
        proof {
            assert(final(text)@ =~= old(text)@ + padded_digits(n as nat, width as nat));
        }
    } else {
        proof {
            assert(final(text)@ =~= old(text)@ + padded_digits(n as nat, width as nat));
        }
    }
}

/// Appends `count` zeros.
fn append_zeros(text: &mut String, count: u32)
    ensures
        final(text)@ == old(text)@ + zeros(count as nat),
{
    let mut i: u32 = 0;
    proof {
        assert(text@ =~= old(text)@ + zeros(0));
    }
    while i < count
        invariant
            i <= count,
            text@ == old(text)@ + zeros(i as nat),
        decreases count - i,
    {
        proof {
            reveal_strlit("0");
        }
        text.append("0");
        i = i + 1;
        proof {
            assert(text@ =~= old(text)@ + zeros(i as nat));
        }
    }
}

/// Ten to the power `n`, for a power that fits.
fn pow10_u64(n: u32) -> (p: u64)
    requires
        n <= 18,
    ensures
        p == pow10(n as nat),
        p <= 1_000_000_000_000_000_000,
{
    let mut p: u64 = 1;
    let mut i: u32 = 0;
    proof {
        lemma_pow10_values();
        lemma_pow10_split(9, 9);
    }
    while i < n
        invariant
            i <= n <= 18,
            p == pow10(i as nat),
            pow10(18) == 1_000_000_000_000_000_000,
        decreases n - i,
    {
        proof {
            lemma_pow10_split((i + 1) as nat, (18 - (i + 1)) as nat);
            lemma_pow10_positive((18 - (i + 1)) as nat);
            let a: int = pow10((i + 1) as nat) as int;
            let b: int = pow10((18 - (i + 1)) as nat) as int;
            assert(a <= a * b) by (nonlinear_arith)
                requires
                    a > 0,
                    b >= 1,
            ;
        }
        p = p * 10;
        i = i + 1;
    }
    proof {
        lemma_pow10_split(n as nat, (18 - n) as nat);
        lemma_pow10_positive((18 - n) as nat);
        let a: int = pow10(n as nat) as int;
        let b: int = pow10((18 - n) as nat) as int;
        assert(a <= a * b) by (nonlinear_arith)
            requires
                a > 0,
                b >= 1,
        ;
    }
    p
}

/// Appends the decimal `c * 10^g`, written out.
fn append_decimal(text: &mut String, c: u64, g: i32)
    requires
        c <= 0x2000_0000,
        -200 <= g <= 39,
    ensures
        final(text)@ == old(text)@ + decimal_text(c as nat, g as int),
{
    if g >= 0 {
        append_digits(text, c);
        append_zeros(text, g as u32);
        proof {
            assert(final(text)@ =~= old(text)@ + decimal_text(c as nat, g as int));
        }
    } else {
        let width: u32 = (-g) as u32;
        let whole: u64;
        let part: u64;
        if width <= 18 {
            let p = pow10_u64(width);
            proof {
                lemma_pow10_positive(width as nat);
            }
            whole = c / p;
            part = c % p;
        } else {
            proof {
                // ten to the width is above every count of grains
                lemma_pow10_values();
                lemma_pow10_split(9, (width - 9) as nat);
                lemma_pow10_positive((width - 9) as nat);
                let a: int = pow10(9) as int;
                let b: int = pow10((width - 9) as nat) as int;
                assert(a <= a * b) by (nonlinear_arith)
                    requires
                        a > 0,
                        b >= 1,
                ;
                let p: int = pow10(width as nat) as int;
                assert(c < p);
                vstd::arithmetic::div_mod::lemma_small_mod(c as nat, p as nat);
                vstd::arithmetic::div_mod::lemma_basic_div(c as int, p);
            }
            whole = 0;
            part = c;
        }
        append_digits(text, whole);
        proof {
            reveal_strlit(".");
        }
        text.append(".");
        append_padded(text, part, width);
        proof {
            assert("."@ =~= seq!['.']);
            assert(final(text)@ =~= old(text)@ + decimal_text(c as nat, g as int));
        }
    }
}

impl Binary32 {
    /// The text of the value.
    pub fn to_text(self) -> (text: String)
        ensures
            text@ == self.text_of(),
    {
        let k = self.ordinal_bits();
        if k > INFINITY_ORDINAL {
            proof {
                reveal_strlit("NaN");
                assert("NaN"@ =~= seq!['N', 'a', 'N']);
            }
            return String::from_str("NaN");
        }
        let mut text = String::new();
        if self.is_sign_negative() {
            proof {
                reveal_strlit("-");
            }
            text.append("-");
        }
        let ghost sign: Seq<char> = if self.sign() {
            seq!['-']
        } else {
            Seq::empty()
        };
        proof {
            assert("-"@ =~= seq!['-']) by {
                reveal_strlit("-");
            }
            assert(text@ =~= sign);
        }
        if k == INFINITY_ORDINAL {
            proof {
                reveal_strlit("inf");
                assert("inf"@ =~= seq!['i', 'n', 'f']);
            }
            text.append("inf");
        } else if k == 0 {
            proof {
                reveal_strlit("0");
                assert("0"@ =~= seq!['0']);
            }
            text.append("0");
        } else {
            let (c, g) = shortest_decimal(k);
            append_decimal(&mut text, c, g);
        }
        text
    }
}

/// The number of decimal digits of `n`; one for zero.
pub open spec fn digit_count(n: nat) -> nat
    decreases n,
{
    if n < 10 {
        1
    } else {
        1 + digit_count(n / 10)
    }
}

/// The decimal text of a whole number, with a `-` before a negative one.
pub open spec fn integer_text(i: int) -> Seq<char> {
    if i < 0 {
        seq!['-'] + digits_of((-i) as nat)
    } else {
        digits_of(i as nat)
    }
}

/// The exponent of ten of the first digit of the decimal `c * 10^g`.
pub open spec fn leading_exponent(c: nat, g: int) -> int {
    g + digit_count(c) - 1
}

/// The decimal `c * 10^g` in exponent form: the first digit of `c`, the
/// others behind a point if there are any, an `e` and the exponent of ten
/// of the first digit.
pub open spec fn exponent_text(c: nat, g: int) -> Seq<char> {
    let rest = (digit_count(c) - 1) as nat;
    let mantissa = if rest == 0 {
        digits_of(c)
    } else {
        digits_of(c / pow10(rest)) + seq!['.'] + padded_digits(c % pow10(rest), rest)
    };
    mantissa + seq!['e'] + integer_text(leading_exponent(c, g))
}

/// The decimal `c * 10^g` as the longer rendering shows it: in exponent
/// form where its first digit stands for less than 10^-4 or for 10^16 or
/// more, and else written out, with `.0` behind a whole number.
pub open spec fn verbose_decimal_text(c: nat, g: int) -> Seq<char> {
    if leading_exponent(c, g) < -4 || leading_exponent(c, g) >= 16 {
        exponent_text(c, g)
    } else if g >= 0 {
        decimal_text(c, g) + seq!['.', '0']
    } else {
        decimal_text(c, g)
    }
}

impl Binary32 {
    /// The text of the value in the longer rendering: as [`Binary32::text_of`],
    /// but with a point in every number and with an exponent for the very
    /// small and the very large.
    pub open spec fn verbose_text_of(self) -> Seq<char> {
        if self.is_nan() {
            seq!['N', 'a', 'N']
        } else {
            let sign = if self.sign() {
                seq!['-']
            } else {
                Seq::empty()
            };
            if self.is_infinite() {
                sign + seq!['i', 'n', 'f']
            } else if self.is_zero() {
                sign + seq!['0', '.', '0']
            } else {
                let shortest = shortest_decimal_of(self.ordinal());
                sign + verbose_decimal_text(shortest.0, shortest.1)
            }
        }
    }
}

/// The number of decimal digits of `n`.
fn count_digits(n: u64) -> (count: u32)
    requires
        n <= 0x2000_0000,
    ensures
        count == digit_count(n as nat),
        1 <= count <= 10,
{
    let mut count: u32 = 1;
    let mut left: u64 = n;
    proof {
        assert(pow10(0) == 1);
        assert(left * 1 == left);
    }
    while left >= 10
        invariant
            1 <= count,
            count + digit_count(left as nat) == 1 + digit_count(n as nat),
            left * pow10((count - 1) as nat) <= n,
            n <= 0x2000_0000,
            count <= 10,
        decreases left,
    {
        proof {
            assert(pow10(count as nat) == 10 * pow10((count - 1) as nat));
            let p: int = pow10((count - 1) as nat) as int;
            lemma_pow10_positive((count - 1) as nat);
            assert((left / 10) * (10 * p) <= left * p) by (nonlinear_arith)
                requires
                    (left / 10) * 10 <= left,
                    p > 0,
            ;
            if count >= 10 {
                lemma_pow10_values();
                lemma_pow10_split(9, (count - 10) as nat);
                lemma_pow10_positive((count - 10) as nat);
                let a: int = pow10(9) as int;
                let b: int = pow10((count - 10) as nat) as int;
                assert(left * p >= 10 * a) by (nonlinear_arith)
                    requires
                        left >= 10,
                        p == a * b,
                        a > 0,
                        b >= 1,
                ;
            }
        }
        left = left / 10;
        count = count + 1;
    }
    proof {
        assert(pow10(0) == 1);
    }
    count
}

/// Appends the decimal text of a whole number.
fn append_integer(text: &mut String, i: i32)
    requires
        -1000 <= i <= 1000,
    ensures
        final(text)@ == old(text)@ + integer_text(i as int),
{
    if i < 0 {
        proof {
            reveal_strlit("-");
            assert("-"@ =~= seq!['-']);
        }
        text.append("-");
        append_digits(text, (-i) as u64);
        proof {
            assert(final(text)@ =~= old(text)@ + integer_text(i as int));
        }
    } else {
        append_digits(text, i as u64);
    }
}

/// Appends the decimal `c * 10^g` in exponent form.
fn append_exponent_form(text: &mut String, c: u64, g: i32, count: u32)
    requires
        c <= 0x2000_0000,
        -200 <= g <= 39,
        count == digit_count(c as nat),
        1 <= count <= 10,
    ensures
        final(text)@ == old(text)@ + exponent_text(c as nat, g as int),
{
    let rest: u32 = count - 1;
    if rest == 0 {
        append_digits(text, c);
    } else {
        let p = pow10_u64(rest);
        proof {
            lemma_pow10_positive(rest as nat);
        }
        append_digits(text, c / p);
        proof {
            reveal_strlit(".");
            assert("."@ =~= seq!['.']);
        }
        text.append(".");
        append_padded(text, c % p, rest);
    }
    proof {
        reveal_strlit("e");
        assert("e"@ =~= seq!['e']);
    }
    text.append("e");
    append_integer(text, g + (count as i32) - 1);
    proof {
        assert(final(text)@ =~= old(text)@ + exponent_text(c as nat, g as int));
    }
}

/// Appends the decimal `c * 10^g` as the longer rendering shows it.
fn append_verbose_decimal(text: &mut String, c: u64, g: i32)
    requires
        c <= 0x2000_0000,
        -200 <= g <= 39,
    ensures
        final(text)@ == old(text)@ + verbose_decimal_text(c as nat, g as int),
{
    let count = count_digits(c);
    let leading: i32 = g + (count as i32) - 1;
    if leading < -4 || leading >= 16 {
        append_exponent_form(text, c, g, count);
    } else if g >= 0 {
        append_decimal(text, c, g);
        proof {
            reveal_strlit(".0");
            assert(".0"@ =~= seq!['.', '0']);
        }
        text.append(".0");
    } else {
        append_decimal(text, c, g);
    }
}

impl Binary32 {
    /// The text of the value in the longer rendering.
    pub fn to_verbose_text(self) -> (text: String)
        ensures
            text@ == self.verbose_text_of(),
    {
        let k = self.ordinal_bits();
        if k > INFINITY_ORDINAL {
            proof {
                reveal_strlit("NaN");
                assert("NaN"@ =~= seq!['N', 'a', 'N']);
            }
            return String::from_str("NaN");
        }
        let mut text = String::new();
        if self.is_sign_negative() {
            proof {
                reveal_strlit("-");
            }
            text.append("-");
        }
        let ghost sign: Seq<char> = if self.sign() {
            seq!['-']
        } else {
            Seq::empty()
        };
        proof {
            assert("-"@ =~= seq!['-']) by {
                reveal_strlit("-");
            }
            assert(text@ =~= sign);
        }
        if k == INFINITY_ORDINAL {
            proof {
                reveal_strlit("inf");
                assert("inf"@ =~= seq!['i', 'n', 'f']);
            }
            text.append("inf");
        } else if k == 0 {
            proof {
                reveal_strlit("0.0");
                assert("0.0"@ =~= seq!['0', '.', '0']);
            }
            text.append("0.0");
        } else {
            let (c, g) = shortest_decimal(k);
            append_verbose_decimal(&mut text, c, g);
        }
        text
    }
}

} // verus!
