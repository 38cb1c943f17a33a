//! Decimal integer literals: the exact grammar and value of 64-bit
//! integer tokens, with verified parsing and formatting.
//!
//! A token is an integer literal when, after an optional single `+` or `-`
//! sign, it consists of one or more ASCII digits and its value fits the
//! target type. This is the grammar of `str::parse` for the integer types.

use vstd::prelude::*;

verus! {

/// Whether `c` is an ASCII decimal digit.
pub open spec fn is_digit(c: char) -> bool {
    48 <= c as int && c as int <= 57
}

/// The numeric value of an ASCII digit.
pub open spec fn digit_val(c: char) -> int {
    c as int - 48
}

/// Whether every character of `s` is an ASCII digit.
pub open spec fn all_digits(s: Seq<char>) -> bool {
    forall|i: int| 0 <= i < s.len() ==> is_digit(#[trigger] s[i])
}

/// The value of a digit string, most significant digit first.
pub open spec fn digits_value(s: Seq<char>) -> int
    decreases s.len(),
{
    if s.len() == 0 {
        0
    } else {
        digits_value(s.drop_last()) * 10 + digit_val(s.last())
    }
}

/// The digit character for a value below ten.
pub open spec fn digit_char(n: int) -> char {
    (n + 48) as char
}

/// The decimal rendering of a natural number: no sign, no leading zero
/// except for zero itself.
pub open spec fn dec_digits(n: nat) -> Seq<char>
    decreases n,
{
    if n < 10 {
        seq![digit_char(n as int)]
    } else {
        dec_digits(n / 10).push(digit_char((n % 10) as int))
    }
}

/// The decimal rendering of an integer: a `-` sign for negatives.
pub open spec fn int_text(i: int) -> Seq<char> {
    if i >= 0 {
        dec_digits(i as nat)
    } else {
        seq!['-'] + dec_digits((-i) as nat)
    }
}

/// The unsigned part of an integer token: everything after one optional
/// leading `+` or `-`.
pub open spec fn sign_split(s: Seq<char>) -> (bool, Seq<char>) {
    if s.len() >= 1 && s[0] == '-' {
        (true, s.skip(1))
    } else if s.len() >= 1 && s[0] == '+' {
        (false, s.skip(1))
    } else {
        (false, s)
    }
}

/// Whether `s` is a `u64` literal as `str::parse::<u64>` accepts it:
/// an optional `+`, then one or more digits, value below 2^64.
pub open spec fn is_u64_literal(s: Seq<char>) -> bool {
    let (neg, digits) = sign_split(s);
    &&& !neg || s[0] != '-'
    &&& !(s.len() >= 1 && s[0] == '-')
    &&& digits.len() >= 1
    &&& all_digits(digits)
    &&& digits_value(digits) <= u64::MAX
}

/// Whether `s` is an `i64` literal as `str::parse::<i64>` accepts it:
/// an optional sign, then one or more digits, value within `i64`.
pub open spec fn is_i64_literal(s: Seq<char>) -> bool {
    let (neg, digits) = sign_split(s);
    &&& digits.len() >= 1
    &&& all_digits(digits)
    &&& i64::MIN <= i64_literal_value(s) <= i64::MAX
}

/// The signed value of an integer token (meaningful when the token has
/// the sign-and-digits shape).
pub open spec fn i64_literal_value(s: Seq<char>) -> int {
    let (neg, digits) = sign_split(s);
    if neg {
        -digits_value(digits)
    } else {
        digits_value(digits)
    }
}

/// A digit string's value is not negative.
pub proof fn lemma_digits_value_nonneg(s: Seq<char>)
    requires
        all_digits(s),
    ensures
        digits_value(s) >= 0,
    decreases s.len(),
{
    if s.len() > 0 {
        assert(all_digits(s.drop_last())) by {
            assert(forall|i: int|
                0 <= i < s.len() - 1 ==> is_digit(#[trigger] s.drop_last()[i]) == is_digit(
                    s[i],
                ));
        }
        lemma_digits_value_nonneg(s.drop_last());
    }
}

/// Extending a digit string by one digit multiplies its value by ten and
/// adds the digit; a prefix therefore never exceeds the whole.
pub proof fn lemma_digits_value_prefix(s: Seq<char>, k: int)
    requires
        all_digits(s),
        0 <= k <= s.len(),
    ensures
        digits_value(s.take(k)) <= digits_value(s),
    decreases s.len() - k,
{
    if k < s.len() {
        lemma_digits_value_prefix(s, k + 1);
        assert(s.take(k + 1).drop_last() =~= s.take(k));
        assert(all_digits(s.take(k))) by {
            assert(forall|i: int|
                0 <= i < k ==> is_digit(#[trigger] s.take(k)[i]) == is_digit(s[i]));
        }
        lemma_digits_value_nonneg(s.take(k));
        assert(digits_value(s.take(k + 1)) == digits_value(s.take(k)) * 10 + digit_val(
            s.take(k + 1).last(),
        ));
        assert(digits_value(s.take(k)) * 10 >= digits_value(s.take(k))) by (nonlinear_arith)
            requires
                digits_value(s.take(k)) >= 0,
        ;
        assert(digit_val(s.take(k + 1).last()) >= 0);
    } else {
        assert(s.take(k) =~= s);
    }
}

/// The decimal rendering of `n` is all digits, starts with `0` only for
/// zero itself, and evaluates back to `n`.
pub proof fn lemma_dec_digits(n: nat)
    ensures
        dec_digits(n).len() >= 1,
        all_digits(dec_digits(n)),
        digits_value(dec_digits(n)) == n,
        dec_digits(n)[0] == '0' <==> n == 0,
        n > 0 ==> dec_digits(n)[0] != '0',
    decreases n,
{
    if n < 10 {
        reveal_with_fuel(digits_value, 2);
        assert(0 <= n + 48 < 0xD800);
        assert(digit_char(n as int) as int == n + 48);
        assert(dec_digits(n) =~= seq![digit_char(n as int)]);
        assert(seq![digit_char(n as int)].drop_last() =~= Seq::<char>::empty());
        assert(is_digit(digit_char(n as int)));
        assert(digit_val(digit_char(n as int)) == n);
        assert(digits_value(seq![digit_char(n as int)]) == n);
    } else {
        lemma_dec_digits(n / 10);
        let prev = dec_digits(n / 10);
        let whole = dec_digits(n);
        assert(0 <= n % 10 + 48 < 0xD800);
        assert(digit_char((n % 10) as int) as int == n % 10 + 48);
        assert(whole =~= prev.push(digit_char((n % 10) as int)));
        assert(whole.drop_last() =~= prev);
        assert(whole.last() == digit_char((n % 10) as int));
        assert(is_digit(whole.last()));
        assert(digit_val(whole.last()) == n % 10);
        assert(digits_value(whole) == digits_value(prev) * 10 + n % 10);
        assert(digits_value(whole) == (n / 10) * 10 + n % 10);
        assert((n / 10) * 10 + n % 10 == n) by (nonlinear_arith);
        assert(whole[0] == prev[0]);
        assert(n / 10 > 0);
    }
}

/// Executable digit test.
pub fn digit_check(c: char) -> (r: bool)
    ensures
        r == is_digit(c),
{
    let u = c as u32;
    48 <= u && u <= 57
}

/// The decimal rendering of a `u64`, most significant digit first.
pub fn format_u64(n: u64) -> (r: Vec<char>)
    ensures
        r@ == dec_digits(n as nat),
    decreases n,
{
    if n < 10 {
        let c = (n as u8 + 48) as char;
        let mut v: Vec<char> = Vec::new();
        v.push(c);
        proof {
            assert(v@ =~= seq![digit_char(n as int)]);
        }
        v
    } else {
        let mut v = format_u64(n / 10);
        let c = ((n % 10) as u8 + 48) as char;
        v.push(c);
        proof {
            assert(v@ =~= dec_digits((n / 10) as nat).push(digit_char((n % 10) as int)));
        }
        v
    }
}

/// The decimal rendering of an `i64`, with a `-` sign for negatives.
pub fn format_i64(i: i64) -> (r: Vec<char>)
    ensures
        r@ == int_text(i as int),
{
    if i >= 0 {
        format_u64(i as u64)
    } else {
        let mag: u64 = if i == i64::MIN {
            9223372036854775808u64
        } else {
            (-i) as u64
        };
        let mut v: Vec<char> = Vec::new();
        v.push('-');
        let digits = format_u64(mag);
        let mut k: usize = 0;
        while k < digits.len()
            invariant
                0 <= k <= digits.len(),
                v@ == seq!['-'] + digits@.take(k as int),
            decreases digits.len() - k,
        {
            v.push(digits[k]);
            proof {
                assert(v@ =~= seq!['-'] + digits@.take(k + 1int));
            }
            k = k + 1;
        }
        proof {
            assert(digits@.take(digits@.len() as int) =~= digits@);
            assert(mag as int == -(i as int));
        }
        v
    }
}

/// Parses the all-digit part of an integer token into a `u64`,
/// returning `None` exactly when the shape is wrong or the value
/// overflows.
fn parse_digits_u64(s: &Vec<char>, from: usize) -> (r: Option<u64>)
    requires
        from <= s@.len(),
    ensures
        match r {
            Some(n) => {
                &&& all_digits(s@.skip(from as int))
                &&& s@.len() - from >= 1
                &&& digits_value(s@.skip(from as int)) == n
            },
            None => {
                ||| s@.len() - from == 0
                ||| !all_digits(s@.skip(from as int))
                ||| digits_value(s@.skip(from as int)) > u64::MAX
            },
        },
{
    let ghost digits = s@.skip(from as int);
    if from >= s.len() {
        return None;
    }
    let mut acc: u64 = 0;
    let mut k: usize = from;
    while k < s.len()
        invariant
            from <= k <= s@.len(),
            digits == s@.skip(from as int),
            all_digits(digits.take(k - from)),
            acc == digits_value(digits.take(k - from)),
        decreases s@.len() - k,
    {
        let c = s[k];
        if !digit_check(c) {
            proof {
                assert(digits[k - from] == s@[k as int]);
            }
            return None;
        }
        let d: u64 = (c as u32 - 48) as u64;
        proof {
            assert(digits.take(k + 1 - from as int).drop_last() =~= digits.take(k - from));
            assert(digits.take(k + 1 - from as int).last() == s@[k as int]);
        }
        if acc > (u64::MAX - d) / 10 {
            proof {
                let part = digits.take(k + 1 - from as int);
                assert(digits_value(part) == acc * 10 + d);
                assert(acc * 10 + d > u64::MAX) by (nonlinear_arith)
                    requires
                        acc > (u64::MAX - d) / 10,
                        0 <= d <= 9,
                ;
                assert(forall|i: int|
                    0 <= i < part.len() ==> is_digit(#[trigger] part[i]) == is_digit(digits[i]));
                if all_digits(digits) {
                    lemma_digits_value_prefix(digits, k + 1 - from as int);
                }
            }
            return None;
        }
        proof {
            assert(acc * 10 + d <= u64::MAX) by (nonlinear_arith)
                requires
                    acc <= (u64::MAX - d) / 10,
                    0 <= d <= 9,
            ;
        }
        acc = acc * 10 + d;
        k = k + 1;
    }
    proof {
        assert(digits.take(k - from) =~= digits);
    }
    Some(acc)
}

/// Parses an integer token as `str::parse::<i64>` does: `Some` exactly
/// for i64 literals, with the literal's value.
pub fn parse_i64(s: &Vec<char>) -> (r: Option<i64>)
    ensures
        r is Some <==> is_i64_literal(s@),
        r is Some ==> r.unwrap() as int == i64_literal_value(s@),
{
    if s.len() == 0 {
        return None;
    }
    let first = s[0];
    let neg = first == '-';
    let signed = neg || first == '+';
    let from: usize = if signed {
        1
    } else {
        0
    };
    match parse_digits_u64(s, from) {
        None => {
            proof {
                let (n2, digits) = sign_split(s@);
                assert(digits =~= s@.skip(from as int));
                if is_i64_literal(s@) {
                    lemma_digits_value_nonneg(digits);
                }
            }
            None
        },
        Some(mag) => {
            proof {
                let (n2, digits) = sign_split(s@);
                assert(digits =~= s@.skip(from as int));
                lemma_digits_value_nonneg(digits);
            }
            if neg {
                if mag > 9223372036854775808u64 {
                    None
                } else if mag == 9223372036854775808u64 {
                    Some(i64::MIN)
                } else {
                    Some(-(mag as i64))
                }
            } else {
                if mag > 9223372036854775807u64 {
                    None
                } else {
                    Some(mag as i64)
                }
            }
        },
    }
}

/// Parses an unsigned integer token as `str::parse::<u64>` does.
pub fn parse_u64(s: &Vec<char>) -> (r: Option<u64>)
    ensures
        r is Some <==> is_u64_literal(s@),
        r is Some ==> r.unwrap() == digits_value(sign_split(s@).1),
{
    if s.len() == 0 {
        return None;
    }
    let first = s[0];
    if first == '-' {
        return None;
    }
    let from: usize = if first == '+' {
        1
    } else {
        0
    };
    let r = parse_digits_u64(s, from);
    proof {
        let (n2, digits) = sign_split(s@);
        assert(digits =~= s@.skip(from as int));
        if r is Some {
            lemma_digits_value_nonneg(digits);
        }
    }
    r
}

/// Formatting an `i64` yields an i64 literal that parses back to the
/// same value: the two directions of the integer ruleset agree.
pub proof fn lemma_int_text_roundtrip(i: int)
    requires
        i64::MIN <= i <= i64::MAX,
    ensures
        is_i64_literal(int_text(i)),
        i64_literal_value(int_text(i)) == i,
        int_text(i).len() >= 1,
        all_digits(int_text(i)) || (int_text(i)[0] == '-' && all_digits(int_text(i).skip(1))),
{
    if i >= 0 {
        lemma_dec_digits(i as nat);
        let s = int_text(i);
        assert(s == dec_digits(i as nat));
        assert(s[0] != '-' && s[0] != '+') by {
            assert(is_digit(s[0]));
        }
        assert(sign_split(s) == (false, s));
    } else {
        lemma_dec_digits((-i) as nat);
        let s = int_text(i);
        let digits = dec_digits((-i) as nat);
        assert(s == seq!['-'] + digits);
        assert(s[0] == '-');
        assert(s.skip(1) =~= digits);
        assert(sign_split(s) == (true, s.skip(1)));
    }
}

} // verus!
