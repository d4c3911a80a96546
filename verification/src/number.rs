//! Numbers as decimal text.

use vstd::arithmetic::div_mod::*;
use vstd::arithmetic::power::*;
use vstd::prelude::*;

verus! {

/// The character of the digit `d`.
pub open spec fn digit_char(d: int) -> char {
    ('0' as int + d) as char
}

/// `n` written in base ten, without leading zeros.
pub open spec fn decimal(n: nat) -> Seq<char>
    decreases n,
{
    if n < 10 {
        seq![digit_char(n as int)]
    } else {
        decimal(n / 10).push(digit_char((n % 10) as int))
    }
}

pub open spec fn is_digit(c: char) -> bool {
    '0' <= c <= '9'
}

pub open spec fn all_digits(s: Seq<char>) -> bool {
    forall|i: int| 0 <= i < s.len() ==> is_digit(#[trigger] s[i])
}

/// The number that a row of digits stands for in base ten.
pub open spec fn decimal_value(s: Seq<char>) -> int
    decreases s.len(),
{
    if s.len() == 0 {
        0
    } else {
        decimal_value(s.drop_last()) * 10 + (s.last() as int - '0' as int)
    }
}

/// `s` begins with a sign.
pub open spec fn has_sign(s: Seq<char>) -> bool {
    s.len() > 0 && (s[0] == '+' || s[0] == '-')
}

/// `s` without its sign.
pub open spec fn unsigned(s: Seq<char>) -> Seq<char> {
    if has_sign(s) {
        s.drop_first()
    } else {
        s
    }
}

/// The number that `s` stands for: an optional sign and then digits, at least one.
pub open spec fn signed_value(s: Seq<char>) -> Option<int> {
    let digits = unsigned(s);
    if digits.len() == 0 || !all_digits(digits) {
        None
    } else if s[0] == '-' {
        Some(-decimal_value(digits))
    } else {
        Some(decimal_value(digits))
    }
}

/// The number that `s` stands for, where it fits into 16 bits with a sign.
pub open spec fn i16_value(s: Seq<char>) -> Option<i16> {
    match signed_value(s) {
        Some(n) => if i16::MIN <= n <= i16::MAX {
            Some(n as i16)
        } else {
            None
        },
        None => None,
    }
}

fn digit_str(d: usize) -> (r: &'static str)
    requires
        d < 10,
    ensures
        r@ == seq![digit_char(d as int)],
{
    proof {
        reveal_strlit("0");
        reveal_strlit("1");
        reveal_strlit("2");
        reveal_strlit("3");
        reveal_strlit("4");
        reveal_strlit("5");
        reveal_strlit("6");
        reveal_strlit("7");
        reveal_strlit("8");
        reveal_strlit("9");
    }
    let r = match d {
        0 => "0",
        1 => "1",
        2 => "2",
        3 => "3",
        4 => "4",
        5 => "5",
        6 => "6",
        7 => "7",
        8 => "8",
        _ => "9",
    };
    assert(r@ =~= seq![digit_char(d as int)]);
    r
}

/// Writes `n` in base ten.
pub fn decimal_string(n: usize) -> (r: String)
    ensures
        r@ == decimal(n as nat),
    decreases n,
{
    if n < 10 {
        digit_str(n).to_owned()
    } else {
        let mut r = decimal_string(n / 10);
        r.append(digit_str(n % 10));
        assert(r@ =~= decimal(n as nat));
        r
    }
}

/// Reads a number of 16 bits with a sign.
pub fn parse_i16(s: &str) -> (r: Option<i16>)
    ensures
        r == i16_value(s@),
{
    let len: usize = s.unicode_len();
    let signed = len > 0 && (s.get_char(0) == '+' || s.get_char(0) == '-');
    let first: usize = if signed {
        1
    } else {
        0
    };
    let ghost digits = unsigned(s@);
    assert(digits =~= s@.skip(first as int));
    if len == first {
        return None;
    }
    let mut value: i32 = 0;
    let mut i: usize = first;
    assert(digits.take(0).len() == 0);
    while i < len
        invariant
            len == s@.len(),
            first <= i <= len,
            first < len,
            digits == unsigned(s@),
            digits == s@.skip(first as int),
            all_digits(digits.take(i - first)),
            value == decimal_value(digits.take(i - first)),
            0 <= value <= 0x8000,
        decreases len - i,
    {
        let c = s.get_char(i);
        assert(digits[i - first] == c);
        if c < '0' || '9' < c {
            assert(!is_digit(digits[i - first]));
            return None;
        }
        value = value * 10 + (c as i32 - '0' as i32);
        proof {
            let now = digits.take(i + 1 - first);
            assert(now.drop_last() =~= digits.take(i - first));
            assert(now.last() == c);
            assert forall|k: int| 0 <= k < now.len() implies is_digit(#[trigger] now[k]) by {
                if k < i - first {
                    assert(now[k] == digits.take(i - first)[k]);
                }
            }
        }
        if value > 0x8000 {
            proof {
                if all_digits(digits) {
                    lemma_longer_is_larger(digits, i + 1 - first);
                }
            }
            return None;
        }
        i = i + 1;
    }
    assert(digits.take(len - first) =~= digits);
    if s.get_char(0) == '-' {
        Some((0 - value) as i16)
    } else if value == 0x8000 {
        None
    } else {
        Some(value as i16)
    }
}

/// Digits appended to a number do not make it smaller.
proof fn lemma_longer_is_larger(s: Seq<char>, k: int)
    requires
        0 <= k <= s.len(),
        all_digits(s),
    ensures
        0 <= decimal_value(s.take(k)) <= decimal_value(s),
    decreases s.len(),
{
    if k == s.len() {
        assert(s.take(k) =~= s);
        if s.len() > 0 {
            assert(is_digit(s.last()));
            assert(s.drop_last() =~= s.take(k - 1));
            assert forall|i: int| 0 <= i < s.drop_last().len() implies is_digit(
                #[trigger] s.drop_last()[i],
            ) by {
                assert(is_digit(s[i]));
            }
            lemma_longer_is_larger(s.drop_last(), k - 1);
            assert(s.drop_last().take(k - 1) =~= s.drop_last());
        }
    } else {
        assert(is_digit(s.last()));
        assert forall|i: int| 0 <= i < s.drop_last().len() implies is_digit(
            #[trigger] s.drop_last()[i],
        ) by {
            assert(is_digit(s[i]));
        }
        lemma_longer_is_larger(s.drop_last(), k);
        assert(s.drop_last().take(k) =~= s.take(k));
    }
}

/// What `decimal` writes consists of digits, at least one, and stands for the number written.
pub proof fn lemma_decimal_value(n: nat)
    ensures
        decimal(n).len() > 0,
        all_digits(decimal(n)),
        decimal_value(decimal(n)) == n,
    decreases n,
{
    if n < 10 {
        reveal_with_fuel(decimal_value, 2);
        assert(decimal(n).drop_last() =~= seq![]);
    } else {
        lemma_decimal_value(n / 10);
        assert(decimal(n).drop_last() =~= decimal(n / 10));
        assert forall|i: int| 0 <= i < decimal(n).len() implies is_digit(
            #[trigger] decimal(n)[i],
        ) by {
            if i < decimal(n / 10).len() {
                assert(decimal(n)[i] == decimal(n / 10)[i]);
            }
        }
    }
}

/// Reading back a number that was written gives that number, for every number that is a valid
/// parameter index.
pub proof fn law_index_round_trip(n: nat)
    requires
        n <= i16::MAX,
    ensures
        i16_value(decimal(n)) == Some(n as i16),
{
    lemma_decimal_value(n);
    assert(is_digit(decimal(n)[0]));
}

/// The `k`-th digit from the right of a number that is written counts the powers of ten with
/// that exponent. There are as many digits as it takes, and no leading zeros.
pub proof fn law_decimal(n: nat, k: nat)
    ensures
        decimal(n).len() >= 1,
        n < pow(10, decimal(n).len()),
        n >= 1 ==> pow(10, (decimal(n).len() - 1) as nat) <= n,
        n == 0 ==> decimal(n).len() == 1,
        k < decimal(n).len() ==> decimal(n)[decimal(n).len() - 1 - k] as int == '0' as int + (
        n as int / pow(10, k)) % 10,
    decreases n,
{
    reveal(pow);
    lemma_pow0(10);
    lemma_pow1(10);
    if n >= 10 {
        let less = n / 10;
        let len = decimal(less).len();
        law_decimal(less, if k == 0 {
            0
        } else {
            (k - 1) as nat
        });
        assert(pow(10, len + 1) == 10 * pow(10, len));
        if len >= 1 {
            assert(pow(10, len) == 10 * pow(10, (len - 1) as nat));
        }
        if k > 0 {
            lemma_pow_positive(10, (k - 1) as nat);
            lemma_div_denominator(n as int, 10, pow(10, (k - 1) as nat));
            if k < decimal(n).len() {
                assert(decimal(n)[decimal(n).len() - 1 - k] == decimal(less)[len - 1 - (k - 1)]);
            }
        }
    }
}

proof fn lemma_zeros(zeros: Seq<char>, s: Seq<char>)
    requires
        forall|i: int| 0 <= i < zeros.len() ==> #[trigger] zeros[i] == '0',
        all_digits(s),
    ensures
        all_digits(zeros + s),
        decimal_value(zeros + s) == decimal_value(s),
    decreases s.len(), zeros.len(),
{
    if s.len() > 0 {
        assert((zeros + s).drop_last() =~= zeros + s.drop_last());
        lemma_zeros(zeros, s.drop_last());
        assert forall|i: int| 0 <= i < (zeros + s).len() implies is_digit(
            #[trigger] (zeros + s)[i],
        ) by {
            if i >= zeros.len() {
                assert((zeros + s)[i] == s[i - zeros.len()]);
            }
        }
    } else if zeros.len() > 0 {
        assert(zeros + s =~= zeros);
        assert(zeros.drop_last() + s =~= zeros.drop_last());
        lemma_zeros(zeros.drop_last(), s);
    } else {
        assert(zeros + s =~= s);
    }
}

/// A sign or none, then zeros, then a number as it is written: this reads as that number, below
/// zero where the sign says so, as long as it fits into 16 bits.
pub proof fn law_reads_what_is_written(sign: Seq<char>, zeros: Seq<char>, n: nat)
    requires
        sign == seq!['+'] || sign == seq!['-'] || sign.len() == 0,
        forall|i: int| 0 <= i < zeros.len() ==> #[trigger] zeros[i] == '0',
    ensures
        i16_value(sign + zeros + decimal(n)) == if sign == seq!['-'] {
            if n <= 0x8000 {
                Some((0 - n) as i16)
            } else {
                None
            }
        } else {
            if n <= 0x7fff {
                Some(n as i16)
            } else {
                None
            }
        },
{
    let s = sign + zeros + decimal(n);
    let digits = zeros + decimal(n);
    lemma_decimal_value(n);
    lemma_zeros(zeros, decimal(n));
    if sign.len() == 0 {
        assert(s =~= digits);
        assert(is_digit(digits[0]));
        assert(!has_sign(s));
    } else {
        assert(s[0] == sign[0]);
        assert(s.drop_first() =~= digits);
    }
    assert(unsigned(s) == digits);
    assert(sign == seq!['-'] <==> s[0] == '-');
}

/// A row of digits is zeros and then a number as it is written.
proof fn lemma_digits_are_written(s: Seq<char>) -> (r: (Seq<char>, nat))
    requires
        s.len() > 0,
        all_digits(s),
    ensures
        forall|i: int| 0 <= i < r.0.len() ==> #[trigger] r.0[i] == '0',
        s == r.0 + decimal(r.1),
    decreases s.len(),
{
    let front = s.drop_last();
    assert(is_digit(s.last()));
    let d = (s.last() as int - '0' as int) as nat;
    assert(s =~= front.push(s.last()));
    assert(digit_char(d as int) == s.last());
    if front.len() == 0 {
        assert(s =~= Seq::<char>::empty() + decimal(d));
        (Seq::empty(), d)
    } else {
        assert forall|i: int| 0 <= i < front.len() implies is_digit(#[trigger] front[i]) by {
            assert(is_digit(s[i]));
        }
        let (zeros, m) = lemma_digits_are_written(front);
        if m == 0 {
            assert(digit_char(0) == '0');
            assert(front =~= zeros.push('0'));
            assert(s =~= front + decimal(d));
            (front, d)
        } else {
            let n = m * 10 + d;
            assert(n / 10 == m && n % 10 == d);
            assert(s =~= zeros + decimal(n));
            (zeros, n)
        }
    }
}

/// Nothing else is read as a number: where there is one, the text is a sign or none, then zeros,
/// then that number as it is written.
pub proof fn law_reads_nothing_else(s: Seq<char>) -> (r: (Seq<char>, Seq<char>, nat))
    ensures
        i16_value(s) matches Some(v) ==> {
            let (sign, zeros, n) = r;
            &&& sign == seq!['+'] || sign == seq!['-'] || sign.len() == 0
            &&& forall|i: int| 0 <= i < zeros.len() ==> #[trigger] zeros[i] == '0'
            &&& s == sign + zeros + decimal(n)
            &&& v == if sign == seq!['-'] {
                0 - n
            } else {
                n as int
            }
        },
{
    if i16_value(s) is Some {
        let digits = unsigned(s);
        let (zeros, n) = lemma_digits_are_written(digits);
        lemma_decimal_value(n);
        lemma_zeros(zeros, decimal(n));
        let sign = if has_sign(s) {
            seq![s[0]]
        } else {
            seq![]
        };
        assert(s =~= sign + digits);
        assert(s =~= sign + zeros + decimal(n));
        assert(sign == seq!['-'] <==> s[0] == '-') by {
            if sign == seq!['-'] {
                assert(sign[0] == '-');
            }
        }
        assert(sign =~= seq!['+'] || sign =~= seq!['-'] || sign.len() == 0);
        (sign, zeros, n)
    } else {
        (seq![], seq![], 0)
    }
}

} // verus!
