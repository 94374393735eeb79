//! What holds of the texts that are read: numbers, lists, patterns and the order of texts.

use vstd::arithmetic::power::pow;
use vstd::prelude::*;
use crate::text::{
    before_null, behind_fraction, column_number, digits_value, exponent_of, exponent_value, filled,
    fold_case, fraction_of, has_sign, is_blank, is_digit, is_found, leading_digits,
    lemma_first_null, like, listed_numbers, number_of, numeral, pieces, scaled, significant,
    text_before, trimmed, unsigned_part,
};

verus! {

// ---------------------------------------------------------------------------------------------
// Numbers
// ---------------------------------------------------------------------------------------------

/// The digits of `n`, without leading zeros.
pub open spec fn decimal(n: nat) -> Seq<char>
    decreases n,
{
    if n < 10 {
        seq![(48 + n) as char]
    } else {
        decimal(n / 10).push((48 + n % 10) as char)
    }
}

/// `z` zeros.
pub open spec fn zeros(z: nat) -> Seq<char> {
    Seq::new(z, |i: int| '0')
}

/// A sign, or none.
pub open spec fn is_sign(sign: Seq<char>) -> bool {
    sign == Seq::<char>::empty() || sign == seq!['-'] || sign == seq!['+']
}

/// `n` with a sign in front of it.
pub open spec fn signed(sign: Seq<char>, n: nat) -> int {
    if sign == seq!['-'] {
        -(n as int)
    } else {
        n as int
    }
}

proof fn lemma_decimal(n: nat)
    ensures
        decimal(n).len() > 0,
        forall|i: int| 0 <= i < decimal(n).len() ==> is_digit(#[trigger] decimal(n)[i]),
        digits_value(decimal(n)) == n,
    decreases n,
{
    if n < 10 {
        assert(decimal(n).drop_last() =~= Seq::<char>::empty());
        assert(digits_value(decimal(n).drop_last()) == 0);
    } else {
        lemma_decimal(n / 10);
        assert(decimal(n).drop_last() =~= decimal(n / 10));
    }
}

proof fn lemma_leading_zeros(z: nat, s: Seq<char>)
    ensures
        digits_value(zeros(z) + s) == digits_value(s),
    decreases s.len(), z,
{
    let all = zeros(z) + s;
    if s.len() > 0 {
        lemma_leading_zeros(z, s.drop_last());
        assert(all.drop_last() =~= zeros(z) + s.drop_last());
    } else if z > 0 {
        lemma_leading_zeros((z - 1) as nat, s);
        assert(all.drop_last() =~= zeros((z - 1) as nat) + s);
    } else {
        assert(all =~= s);
    }
}

/// Digits are the digits of the number that they write, behind zeros.
pub proof fn law_digits_write_their_value(s: Seq<char>) -> (z: nat)
    requires
        s.len() > 0,
        forall|i: int| 0 <= i < s.len() ==> '0' <= #[trigger] s[i] <= '9',
    ensures
        s == zeros(z) + decimal(digits_value(s)),
    decreases s.len(),
{
    let rest = s.drop_last();
    let d = (s.last() as nat - '0' as nat) as nat;
    assert('0' <= s[s.len() - 1] <= '9');
    if rest.len() == 0 {
        assert(digits_value(rest) == 0);
        assert(s =~= zeros(0) + decimal(digits_value(s)));
        0
    } else {
        assert forall|i: int| 0 <= i < rest.len() implies '0' <= #[trigger] rest[i] <= '9' by {
            assert(rest[i] == s[i]);
        }
        let z = law_digits_write_their_value(rest);
        let v = digits_value(rest);
        assert(digits_value(s) == 10 * v + d);
        assert(s.last() == (48 + d) as char);
        assert(s =~= rest.push(s.last()));
        if v == 0 {
            assert(decimal(0) == seq!['0']);
            assert(decimal(digits_value(s)) == seq![s.last()]);
            assert(zeros(z) + decimal(0) =~= zeros(z + 1));
            assert(s =~= zeros(z + 1) + decimal(digits_value(s)));
            z + 1
        } else {
            let all = digits_value(s);
            assert(all / 10 == v && all % 10 == d);
            assert(decimal(all) == decimal(v).push(s.last()));
            assert(s =~= zeros(z) + decimal(digits_value(s)));
            z
        }
    }
}

/// The digits of a number, behind any number of zeros, write the number.
pub proof fn law_value_of_digits(z: nat, n: nat)
    ensures
        digits_value(zeros(z) + decimal(n)) == n,
{
    lemma_decimal(n);
    lemma_leading_zeros(z, decimal(n));
}

/// A number written in decimal, behind a sign and any number of zeros, is read as that number if
/// it has 32 bits, and otherwise as none.
pub proof fn law_numbers_are_read(sign: Seq<char>, z: nat, n: nat)
    requires
        is_sign(sign),
    ensures
        number_of(sign + zeros(z) + decimal(n)) == (if -2147483648 <= signed(sign, n)
            <= 2147483647 {
            Some(signed(sign, n) as i32)
        } else {
            None
        }),
{
    let s = sign + zeros(z) + decimal(n);
    let body = zeros(z) + decimal(n);
    lemma_decimal(n);
    law_value_of_digits(z, n);
    assert forall|i: int| 0 <= i < body.len() implies is_digit(#[trigger] body[i]) by {
        if i >= z {
            assert(body[i] == decimal(n)[i - z]);
        }
    }
    assert(is_digit(body[0]));
    assert(sign.len() == 0 ==> s =~= body);
    assert(sign.len() > 0 ==> s[0] == sign[0] && s.skip(1) =~= body);
    if sign == seq!['-'] {
        assert(sign[0] == '-');
    } else if sign == seq!['+'] {
        assert(sign[0] == '+');
    } else {
        assert(s[0] == body[0]);
    }
    assert(unsigned_part(s) == body);
}

/// Nothing else is read as a number.
pub proof fn law_only_numbers_are_read(s: Seq<char>) -> (r: (Seq<char>, nat, nat))
    requires
        number_of(s) is Some,
    ensures
        is_sign(r.0),
        s == r.0 + zeros(r.1) + decimal(r.2),
        number_of(s)->0 == signed(r.0, r.2),
{
    let body = unsigned_part(s);
    assert forall|i: int| 0 <= i < body.len() implies '0' <= #[trigger] body[i] <= '9' by {
        assert(is_digit(body[i]));
    }
    let z = law_digits_write_their_value(body);
    let n = digits_value(body);
    let sign = if s[0] == '-' {
        seq!['-']
    } else if s[0] == '+' {
        seq!['+']
    } else {
        Seq::<char>::empty()
    };
    assert(s =~= sign + body);
    assert(s =~= sign + zeros(z) + decimal(n));
    if s[0] != '-' {
        assert(sign != seq!['-']) by {
            if sign == seq!['-'] {
                assert(sign[0] == '-');
            }
        }
    }
    (sign, z, n)
}

// ---------------------------------------------------------------------------------------------
// Numerals
// ---------------------------------------------------------------------------------------------

/// Every character is a blank: a space, a tab, a line feed, a vertical tab, a form feed or a
/// carriage return.
pub open spec fn are_blanks(s: Seq<char>) -> bool {
    forall|i: int|
        0 <= i < s.len() ==> #[trigger] s[i] == ' ' || 9 <= s[i] as int <= 13
}

/// Every character is a digit.
pub open spec fn are_digits(s: Seq<char>) -> bool {
    forall|i: int| 0 <= i < s.len() ==> '0' <= #[trigger] s[i] <= '9'
}

proof fn lemma_trim_front(a: Seq<char>, s: Seq<char>)
    requires
        are_blanks(a),
    ensures
        trimmed(a + s) == trimmed(s),
    decreases a.len(),
{
    if a.len() > 0 {
        assert(a[0] == ' ' || 9 <= a[0] as int <= 13);
        assert((a + s)[0] == a[0]);
        assert((a + s).skip(1) =~= a.skip(1) + s);
        assert forall|i: int| 0 <= i < a.skip(1).len() implies #[trigger] a.skip(1)[i] == ' ' || 9
            <= a.skip(1)[i] as int <= 13 by {
            assert(a[i + 1] == ' ' || 9 <= a[i + 1] as int <= 13);
        }
        lemma_trim_front(a.skip(1), s);
    } else {
        assert(a + s =~= s);
    }
}

proof fn lemma_trim_back(s: Seq<char>, b: Seq<char>)
    requires
        are_blanks(b),
    ensures
        trimmed(s + b) == trimmed(s),
    decreases s.len() + b.len(),
{
    let all = s + b;
    if b.len() == 0 {
        assert(all =~= s);
    } else if s.len() == 0 {
        assert(all =~= b + s);
        lemma_trim_front(b, s);
    } else if is_blank(s[0]) {
        assert(all[0] == s[0]);
        assert(all.skip(1) =~= s.skip(1) + b);
        lemma_trim_back(s.skip(1), b);
    } else {
        let c = b.drop_last();
        assert(b[b.len() - 1] == ' ' || 9 <= b[b.len() - 1] as int <= 13);
        assert(all[0] == s[0]);
        assert(all.last() == b[b.len() - 1]);
        assert(all.drop_last() =~= s + c);
        assert forall|i: int| 0 <= i < c.len() implies #[trigger] c[i] == ' ' || 9 <= c[i] as int
            <= 13 by {
            assert(b[i] == ' ' || 9 <= b[i] as int <= 13);
        }
        lemma_trim_back(s, c);
    }
}

/// Blanks in front of a text and behind it do not change the number that it stands for.
pub proof fn law_blanks_are_ignored(a: Seq<char>, s: Seq<char>, b: Seq<char>)
    requires
        are_blanks(a),
        are_blanks(b),
    ensures
        column_number(a + s + b) == column_number(s),
{
    lemma_trim_back(a + s, b);
    lemma_trim_front(a, s);
}

proof fn lemma_count_digits(w: Seq<char>, rest: Seq<char>)
    requires
        are_digits(w),
        rest.len() == 0 || !is_digit(rest[0]),
    ensures
        leading_digits(w + rest) == w.len(),
    decreases w.len(),
{
    if w.len() > 0 {
        assert('0' <= w[0] <= '9');
        assert((w + rest)[0] == w[0]);
        assert((w + rest).skip(1) =~= w.skip(1) + rest);
        assert forall|i: int| 0 <= i < w.skip(1).len() implies '0' <= #[trigger] w.skip(1)[i]
            <= '9' by {
            assert('0' <= w[i + 1] <= '9');
        }
        lemma_count_digits(w.skip(1), rest);
    } else {
        assert(w + rest =~= rest);
    }
}

/// Up to eighteen digits are all read; more write a number that is too great.
proof fn lemma_significant(d: Seq<char>)
    requires
        are_digits(d),
    ensures
        significant(d).len() <= d.len(),
        digits_value(significant(d)) <= digits_value(d),
        digits_value(d) < 922_337_203_685_477_579 ==> significant(d) == d,
        digits_value(d) >= 922_337_203_685_477_579 ==> digits_value(significant(d))
            >= 922_337_203_685_477_579,
    decreases d.len(),
{
    if d.len() > 0 {
        let rest = d.drop_last();
        assert('0' <= d[d.len() - 1] <= '9');
        assert forall|i: int| 0 <= i < rest.len() implies '0' <= #[trigger] rest[i] <= '9' by {
            assert('0' <= d[i] <= '9');
        }
        lemma_significant(rest);
        let s = significant(rest);
        assert(s.push(d.last()).drop_last() =~= s);
        assert(rest.push(d.last()) =~= d);
        assert(digits_value(s.push(d.last())) == 10 * digits_value(s) + (d.last() as nat
            - '0' as nat) as nat);
    }
}

proof fn lemma_scaled_up(m: nat, x: nat)
    ensures
        scaled(m, x as int) == Some((m * pow(10, x)) as nat),
        pow(10, x) > 0,
    decreases x,
{
    reveal(pow);
    if x > 0 {
        lemma_scaled_up(10 * m, (x - 1) as nat);
        let p = pow(10, (x - 1) as nat);
        assert(pow(10, x) == 10 * p);
        assert((10 * m) * p == m * (10 * p)) by (nonlinear_arith);
        lemma_scaled_up(m, (x - 1) as nat);
    } else {
        assert(pow(10, 0) == 1);
        assert(m * 1 == m) by (nonlinear_arith);
    }
}

proof fn lemma_scaled_down(m: nat, x: nat, q: nat)
    requires
        x < 342,
    ensures
        scaled(m, -(x as int)) == Some(q) <==> m == q * pow(10, x),
    decreases x,
{
    reveal(pow);
    if x > 0 {
        let p = pow(10, (x - 1) as nat);
        assert(pow(10, x) == 10 * p);
        assert(q * (10 * p) == 10 * (q * p)) by (nonlinear_arith);
        if m % 10 == 0 {
            lemma_scaled_down(m / 10, (x - 1) as nat, q);
            assert(m == 10 * (m / 10));
        }
    } else {
        assert(pow(10, 0) == 1);
        assert(q * 1 == q) by (nonlinear_arith);
    }
}

/// A numeral: a sign, digits, perhaps a point and digits, perhaps a letter `e` or `E` with a
/// digits behind an optional sign.
pub open spec fn numeral_text(
    sign: Seq<char>,
    whole: Seq<char>,
    fraction: Option<Seq<char>>,
    exponent: Option<(char, Seq<char>, Seq<char>)>,
) -> Seq<char> {
    sign + whole + (match fraction {
        Some(f) => seq!['.'] + f,
        None => Seq::empty(),
    }) + (match exponent {
        Some((letter, esign, e)) => seq![letter] + esign + e,
        None => Seq::empty(),
    })
}

/// What the parts of a numeral are: signs and digits, at least one digit around the point and at
/// least one in an exponent.
pub open spec fn are_parts(
    sign: Seq<char>,
    whole: Seq<char>,
    fraction: Option<Seq<char>>,
    exponent: Option<(char, Seq<char>, Seq<char>)>,
) -> bool {
    &&& is_sign(sign)
    &&& are_digits(whole)
    &&& (fraction matches Some(f) ==> are_digits(f))
    &&& both_digits(whole, fraction).len() > 0
    &&& (exponent matches Some((letter, esign, e)) ==> (letter == 'e' || letter == 'E') && is_sign(
        esign,
    ) && are_digits(e) && e.len() > 0)
}

/// The exponent has less than six digits behind its leading zeros.
pub open spec fn is_short(exponent: Option<(char, Seq<char>, Seq<char>)>) -> bool {
    exponent matches Some((letter, esign, e)) ==> digits_value(e) < 100000
}

/// The number of digits behind the point.
pub open spec fn places(fraction: Option<Seq<char>>) -> nat {
    match fraction {
        Some(f) => f.len(),
        None => 0,
    }
}

/// The digits in front of the point and behind it.
pub open spec fn both_digits(whole: Seq<char>, fraction: Option<Seq<char>>) -> Seq<char> {
    whole + (match fraction {
        Some(f) => f,
        None => Seq::empty(),
    })
}

/// The power of ten that an exponent gives.
pub open spec fn power_of(exponent: Option<(char, Seq<char>, Seq<char>)>) -> int {
    match exponent {
        Some((letter, esign, e)) => signed(esign, digits_value(e)),
        None => 0,
    }
}

proof fn lemma_exponent(esign: Seq<char>, e: Seq<char>)
    requires
        is_sign(esign),
        are_digits(e),
        e.len() > 0,
        digits_value(e) < 100000,
    ensures
        exponent_of(esign + e) == Some(signed(esign, digits_value(e))),
{
    let s = esign + e;
    lemma_exponent_value(e);
    assert('0' <= e[0] <= '9');
    assert(esign.len() == 0 ==> s =~= e);
    assert(esign.len() > 0 ==> s[0] == esign[0] && s.skip(1) =~= e);
    if esign == seq!['-'] {
        assert(esign[0] == '-');
    } else if esign == seq!['+'] {
        assert(esign[0] == '+');
    } else {
        assert(s[0] == e[0]);
    }
    assert(unsigned_part(s) == e);
    lemma_count_digits(e, Seq::empty());
    assert(e + Seq::<char>::empty() =~= e);
}

proof fn lemma_exponent_value(e: Seq<char>)
    requires
        are_digits(e),
        digits_value(e) < 100000,
    ensures
        exponent_value(e) == digits_value(e),
    decreases e.len(),
{
    if e.len() > 0 {
        let rest = e.drop_last();
        assert('0' <= e[e.len() - 1] <= '9');
        assert forall|i: int| 0 <= i < rest.len() implies '0' <= #[trigger] rest[i] <= '9' by {
            assert('0' <= e[i] <= '9');
        }
        lemma_exponent_value(rest);
    }
}

proof fn lemma_numeral(
    whole: Seq<char>,
    fraction: Option<Seq<char>>,
    exponent: Option<(char, Seq<char>, Seq<char>)>,
)
    requires
        are_parts(Seq::empty(), whole, fraction, exponent),
        is_short(exponent),
    ensures
        numeral(numeral_text(Seq::empty(), whole, fraction, exponent)) == Some(
            (both_digits(whole, fraction), power_of(exponent) - places(fraction)),
        ),
{
    let u = numeral_text(Seq::empty(), whole, fraction, exponent);
    let tail = match exponent {
        Some((letter, esign, e)) => seq![letter] + esign + e,
        None => Seq::<char>::empty(),
    };
    let behind = (match fraction {
        Some(f) => seq!['.'] + f,
        None => Seq::<char>::empty(),
    }) + tail;
    assert(u =~= whole + behind);
    if let Some((letter, esign, e)) = exponent {
        assert(tail[0] == letter);
    }
    if fraction is Some {
        assert(behind[0] == '.');
    } else {
        assert(behind =~= tail);
    }
    lemma_count_digits(whole, behind);
    assert(u.take(whole.len() as int) =~= whole);
    assert(u.skip(whole.len() as int) =~= behind);
    match fraction {
        Some(f) => {
            assert(behind.skip(1) =~= f + tail);
            lemma_count_digits(f, tail);
            assert(behind.skip(1).take(f.len() as int) =~= f);
            assert(behind.skip(1 + f.len() as int) =~= tail);
        },
        None => {},
    }
    match exponent {
        Some((letter, esign, e)) => {
            lemma_exponent(esign, e);
            assert(tail.skip(1) =~= esign + e);
        },
        None => {},
    }
    assert(both_digits(whole, fraction) =~= whole + fraction_of(behind));
}

/// A numeral of up to eighteen digits stands for the number `k` exactly if its value is `k`: its
/// digits, taken as one number, times the power of ten that the exponent gives, less one for each
/// digit behind the point.
pub proof fn law_numerals_stand_for_their_value(
    sign: Seq<char>,
    whole: Seq<char>,
    fraction: Option<Seq<char>>,
    exponent: Option<(char, Seq<char>, Seq<char>)>,
    k: i32,
)
    requires
        are_parts(sign, whole, fraction, exponent),
        is_short(exponent),
        digits_value(both_digits(whole, fraction)) < 922_337_203_685_477_579,
        power_of(exponent) - places(fraction) > -342,
    ensures
        column_number(numeral_text(sign, whole, fraction, exponent)) == Some(k) <==> {
            let n = signed(sign, digits_value(both_digits(whole, fraction)));
            let x = power_of(exponent) - places(fraction);
            if x >= 0 {
                k == n * pow(10, x as nat)
            } else {
                n == k * pow(10, (-x) as nat)
            }
        },
{
    let digits = both_digits(whole, fraction);
    let m = digits_value(digits);
    let x = power_of(exponent) - places(fraction);
    lemma_parts(sign, whole, fraction, exponent);
    assert forall|i: int| 0 <= i < digits.len() implies '0' <= #[trigger] digits[i] <= '9' by {
        if i < whole.len() {
            assert('0' <= whole[i] <= '9');
        } else {
            assert('0' <= fraction->0[i - whole.len()] <= '9');
        }
    }
    lemma_significant(digits);
    lemma_scaled(m, x, k, sign == seq!['-']);
}

/// A numeral whose digits write a greater number stands for nothing, unless its exponent or its
/// point makes it smaller.
pub proof fn law_great_numerals_stand_for_nothing(
    sign: Seq<char>,
    whole: Seq<char>,
    fraction: Option<Seq<char>>,
    exponent: Option<(char, Seq<char>, Seq<char>)>,
)
    requires
        are_parts(sign, whole, fraction, exponent),
        is_short(exponent),
        digits_value(both_digits(whole, fraction)) >= 922_337_203_685_477_579,
        power_of(exponent) >= places(fraction),
    ensures
        column_number(numeral_text(sign, whole, fraction, exponent)) is None,
{
    let digits = both_digits(whole, fraction);
    let d = significant(digits);
    let x = power_of(exponent) - places(fraction) + digits.len() - d.len();
    lemma_parts(sign, whole, fraction, exponent);
    assert forall|i: int| 0 <= i < digits.len() implies '0' <= #[trigger] digits[i] <= '9' by {
        if i < whole.len() {
            assert('0' <= whole[i] <= '9');
        } else {
            assert('0' <= fraction->0[i - whole.len()] <= '9');
        }
    }
    lemma_significant(digits);
    lemma_scaled_up(digits_value(d), x as nat);
    let p = pow(10, x as nat);
    let m = digits_value(d);
    assert(m * p >= m) by (nonlinear_arith)
        requires
            p > 0,
            m >= 0,
    ;
}

/// A numeral whose digits are all zero stands for zero, and so does one that is too small by far,
/// unless its digits end in a zero.
pub proof fn law_small_numerals_stand_for_zero(
    sign: Seq<char>,
    whole: Seq<char>,
    fraction: Option<Seq<char>>,
    exponent: Option<(char, Seq<char>, Seq<char>)>,
)
    requires
        are_parts(sign, whole, fraction, exponent),
        is_short(exponent),
        digits_value(both_digits(whole, fraction)) < 922_337_203_685_477_579,
        digits_value(both_digits(whole, fraction)) == 0 || (digits_value(
            both_digits(whole, fraction),
        ) % 10 != 0 && power_of(exponent) - places(fraction) <= -342),
    ensures
        column_number(numeral_text(sign, whole, fraction, exponent)) == Some(0i32),
{
    let digits = both_digits(whole, fraction);
    lemma_parts(sign, whole, fraction, exponent);
    assert forall|i: int| 0 <= i < digits.len() implies '0' <= #[trigger] digits[i] <= '9' by {
        if i < whole.len() {
            assert('0' <= whole[i] <= '9');
        } else {
            assert('0' <= fraction->0[i - whole.len()] <= '9');
        }
    }
    lemma_significant(digits);
    lemma_zero_stays(power_of(exponent) - places(fraction));
}

proof fn lemma_zero_stays(x: int)
    ensures
        scaled(0, x) == Some(0nat),
    decreases
            (if x < 0 {
                -x
            } else {
                x
            }),
{
    if x > 0 {
        lemma_zero_stays(x - 1);
    } else if x < 0 {
        lemma_zero_stays(x + 1);
    }
}

/// `s` is a numeral of these parts between blanks.
pub open spec fn is_numeral_between(
    s: Seq<char>,
    a: Seq<char>,
    sign: Seq<char>,
    whole: Seq<char>,
    fraction: Option<Seq<char>>,
    exponent: Option<(char, Seq<char>, Seq<char>)>,
    b: Seq<char>,
) -> bool {
    &&& are_blanks(a)
    &&& are_blanks(b)
    &&& are_parts(sign, whole, fraction, exponent)
    &&& s == a + numeral_text(sign, whole, fraction, exponent) + b
}

proof fn lemma_between_blanks(s: Seq<char>) -> (r: (Seq<char>, Seq<char>))
    ensures
        are_blanks(r.0),
        are_blanks(r.1),
        s == r.0 + trimmed(s) + r.1,
    decreases s.len(),
{
    if s.len() > 0 && is_blank(s[0]) {
        let (a, b) = lemma_between_blanks(s.skip(1));
        let c = seq![s[0]] + a;
        assert(s =~= seq![s[0]] + s.skip(1));
        assert(s =~= c + trimmed(s) + b);
        assert forall|i: int| 0 <= i < c.len() implies #[trigger] c[i] == ' ' || 9 <= c[i] as int
            <= 13 by {
            if i > 0 {
                assert(a[i - 1] == ' ' || 9 <= a[i - 1] as int <= 13);
            }
        }
        (c, b)
    } else if s.len() > 0 && is_blank(s.last()) {
        let (a, b) = lemma_between_blanks(s.drop_last());
        let c = b.push(s.last());
        assert(s =~= s.drop_last().push(s.last()));
        assert(s =~= a + trimmed(s) + c);
        assert forall|i: int| 0 <= i < c.len() implies #[trigger] c[i] == ' ' || 9 <= c[i] as int
            <= 13 by {
            if i < b.len() {
                assert(b[i] == ' ' || 9 <= b[i] as int <= 13);
            }
        }
        (a, c)
    } else {
        let e = Seq::<char>::empty();
        assert(s =~= e + s + e);
        (e, e)
    }
}

proof fn lemma_are_digits(s: Seq<char>)
    ensures
        leading_digits(s) <= s.len(),
        are_digits(s.take(leading_digits(s) as int)),
    decreases s.len(),
{
    if s.len() > 0 && is_digit(s[0]) {
        let rest = s.skip(1);
        lemma_are_digits(rest);
        let d = s.take(leading_digits(s) as int);
        let e = rest.take(leading_digits(rest) as int);
        assert forall|i: int| 0 <= i < d.len() implies '0' <= #[trigger] d[i] <= '9' by {
            if i > 0 {
                assert('0' <= e[i - 1] <= '9');
            }
        }
    }
}

/// The sign in front of `s` and what stands behind it.
proof fn lemma_sign_apart(s: Seq<char>) -> (sign: Seq<char>)
    ensures
        is_sign(sign),
        s == sign + unsigned_part(s),
{
    if has_sign(s) {
        let sign = seq![s[0]];
        assert(s =~= sign + s.skip(1));
        sign
    } else {
        assert(s =~= Seq::<char>::empty() + s);
        Seq::empty()
    }
}

/// Only numerals stand for a number: one between blanks, with at least one digit around the point
/// and at least one in an exponent.
pub proof fn law_only_numerals_stand_for_numbers(s: Seq<char>)
    ensures
        column_number(s) is Some ==> exists|
            a: Seq<char>,
            sign: Seq<char>,
            whole: Seq<char>,
            fraction: Option<Seq<char>>,
            exponent: Option<(char, Seq<char>, Seq<char>)>,
            b: Seq<char>,
        |
            is_numeral_between(s, a, sign, whole, fraction, exponent, b),
{
    if column_number(s) is Some {
        let t = trimmed(s);
        let (a, b) = lemma_between_blanks(s);
        let sign = lemma_sign_apart(t);
        let (whole, fraction, exponent) = lemma_numeral_apart(unsigned_part(t));
        assert(t =~= numeral_text(sign, whole, fraction, exponent)) by {
            assert(sign + unsigned_part(t) =~= numeral_text(sign, whole, fraction, exponent));
        }
        assert(is_numeral_between(s, a, sign, whole, fraction, exponent, b));
    }
}

/// A numeral without a sign comes apart into its parts.
proof fn lemma_numeral_apart(u: Seq<char>) -> (r: (
    Seq<char>,
    Option<Seq<char>>,
    Option<(char, Seq<char>, Seq<char>)>,
))
    requires
        numeral(u) is Some,
    ensures
        are_parts(Seq::empty(), r.0, r.1, r.2),
        u == numeral_text(Seq::empty(), r.0, r.1, r.2),
{
    assert(is_sign(Seq::empty()));
    lemma_are_digits(u);
    let whole = u.take(leading_digits(u) as int);
    let behind = u.skip(leading_digits(u) as int);
    assert(u =~= whole + behind);
    let (fraction, rest) = lemma_fraction_apart(behind);
    assert(both_digits(whole, fraction) =~= whole + fraction_of(behind));
    if rest.len() == 0 {
        assert(u =~= numeral_text(Seq::empty(), whole, fraction, None));
        (whole, fraction, None)
    } else {
        let esign = lemma_sign_apart(rest.skip(1));
        let e = unsigned_part(rest.skip(1));
        lemma_are_digits(e);
        assert(e.take(leading_digits(e) as int) =~= e);
        let exponent = Some((rest[0], esign, e));
        assert(rest =~= seq![rest[0]] + rest.skip(1));
        assert(rest =~= seq![rest[0]] + esign + e);
        assert(u =~= numeral_text(Seq::empty(), whole, fraction, exponent));
        (whole, fraction, exponent)
    }
}

/// The digits behind the point, if there is one, and what follows.
proof fn lemma_fraction_apart(s: Seq<char>) -> (r: (Option<Seq<char>>, Seq<char>))
    ensures
        r.1 == behind_fraction(s),
        r.0 matches Some(f) ==> are_digits(f) && f == fraction_of(s) && s == seq!['.'] + f + r.1,
        r.0 is None ==> fraction_of(s).len() == 0 && s == r.1,
{
    if s.len() > 0 && s[0] == '.' {
        let rest = s.skip(1);
        lemma_are_digits(rest);
        let f = fraction_of(s);
        assert(s =~= seq!['.'] + f + behind_fraction(s));
        (Some(f), behind_fraction(s))
    } else {
        (None, s)
    }
}

/// A numeral comes apart into its sign and the rest.
proof fn lemma_parts(
    sign: Seq<char>,
    whole: Seq<char>,
    fraction: Option<Seq<char>>,
    exponent: Option<(char, Seq<char>, Seq<char>)>,
)
    requires
        are_parts(sign, whole, fraction, exponent),
        is_short(exponent),
    ensures
        ({
            let s = numeral_text(sign, whole, fraction, exponent);
            &&& trimmed(s) == s
            &&& s[0] == '-' <==> sign == seq!['-']
            &&& numeral(unsigned_part(s)) == Some(
                (both_digits(whole, fraction), power_of(exponent) - places(fraction)),
            )
        }),
{
    let s = numeral_text(sign, whole, fraction, exponent);
    let u = numeral_text(Seq::empty(), whole, fraction, exponent);
    assert(is_sign(Seq::empty()));
    lemma_numeral(whole, fraction, exponent);
    lemma_ends(whole, fraction, exponent);
    assert(s =~= sign + u);
    assert(s.last() == u.last());
    if sign == seq!['-'] {
        assert(sign[0] == '-');
        assert(s[0] == '-');
        assert(s.skip(1) =~= u);
    } else if sign == seq!['+'] {
        assert(sign[0] == '+');
        assert(s[0] == '+');
        assert(s.skip(1) =~= u);
    } else {
        assert(s =~= u);
    }
}

/// What the scaled number with its sign is.
proof fn lemma_scaled(m: nat, x: int, k: i32, negative: bool)
    requires
        x > -342,
    ensures
        ({
            let n = if negative {
                -(m as int)
            } else {
                m as int
            };
            (scaled(m, x) matches Some(r) && k == (if negative {
                -(r as int)
            } else {
                r as int
            })) <==> if x >= 0 {
                k == n * pow(10, x as nat)
            } else {
                n == k * pow(10, (-x) as nat)
            }
        }),
{
    if x >= 0 {
        let p = pow(10, x as nat);
        lemma_scaled_up(m, x as nat);
        assert((-(m as int)) * p == -((m as int) * p)) by (nonlinear_arith);
        assert((m as int) * p >= 0) by (nonlinear_arith)
            requires
                p > 0,
        ;
    } else {
        let p = pow(10, (-x) as nat);
        lemma_scaled_up(0, (-x) as nat);
        let v = if negative {
            -(k as int)
        } else {
            k as int
        };
        assert((-(k as int)) * p == -((k as int) * p)) by (nonlinear_arith);
        if v >= 0 {
            lemma_scaled_down(m, (-x) as nat, v as nat);
        } else {
            assert(v * p < 0) by (nonlinear_arith)
                requires
                    p > 0,
                    v < 0,
            ;
        }
    }
}

proof fn lemma_ends(
    whole: Seq<char>,
    fraction: Option<Seq<char>>,
    exponent: Option<(char, Seq<char>, Seq<char>)>,
)
    requires
        are_parts(Seq::empty(), whole, fraction, exponent),
        is_short(exponent),
    ensures
        ({
            let u = numeral_text(Seq::empty(), whole, fraction, exponent);
            &&& u.len() > 0
            &&& is_digit(u[0]) || u[0] == '.'
            &&& is_digit(u.last()) || u.last() == '.'
        }),
{
    let u = numeral_text(Seq::empty(), whole, fraction, exponent);
    if whole.len() > 0 {
        assert('0' <= whole[0] <= '9');
        assert(u[0] == whole[0]);
    } else {
        assert(u[0] == '.');
    }
    match exponent {
        Some((letter, esign, e)) => {
            assert('0' <= e[e.len() - 1] <= '9');
            assert(u.last() == e[e.len() - 1]);
        },
        None => {
            match fraction {
                Some(f) => {
                    if f.len() > 0 {
                        assert('0' <= f[f.len() - 1] <= '9');
                        assert(u.last() == f[f.len() - 1]);
                    } else {
                        assert(u.last() == '.');
                    }
                },
                None => {
                    assert('0' <= whole[whole.len() - 1] <= '9');
                    assert(u.last() == whole[whole.len() - 1]);
                },
            }
        },
    }
}

// ---------------------------------------------------------------------------------------------
// Lists
// ---------------------------------------------------------------------------------------------

/// `s` has no comma.
pub open spec fn has_no_comma(s: Seq<char>) -> bool {
    forall|i: int| 0 <= i < s.len() ==> #[trigger] s[i] != ','
}

/// The texts of a list with a comma between each two.
pub open spec fn joined(list: Seq<Seq<char>>) -> Seq<char>
    decreases list.len(),
{
    if list.len() == 0 {
        Seq::empty()
    } else if list.len() == 1 {
        list[0]
    } else {
        joined(list.drop_last()).push(',') + list.last()
    }
}

proof fn lemma_one_piece(x: Seq<char>)
    requires
        has_no_comma(x),
    ensures
        pieces(x, ',') == seq![x],
    decreases x.len(),
{
    if x.len() > 0 {
        assert(x[x.len() - 1] != ',');
        assert forall|i: int| 0 <= i < x.drop_last().len() implies #[trigger] x.drop_last()[i]
            != ',' by {
            assert(x[i] != ',');
        }
        lemma_one_piece(x.drop_last());
        assert(x.drop_last().push(x.last()) =~= x);
        assert(pieces(x, ',') =~= seq![x]);
    } else {
        assert(x =~= Seq::<char>::empty());
    }
}

proof fn lemma_piece_more(a: Seq<char>, x: Seq<char>)
    requires
        has_no_comma(x),
    ensures
        pieces(a.push(',') + x, ',') == pieces(a, ',').push(x),
    decreases x.len(),
{
    let s = a.push(',') + x;
    if x.len() > 0 {
        let y = x.drop_last();
        assert(x[x.len() - 1] != ',');
        assert forall|i: int| 0 <= i < y.len() implies #[trigger] y[i] != ',' by {
            assert(x[i] != ',');
        }
        lemma_piece_more(a, y);
        assert(s.drop_last() =~= a.push(',') + y);
        assert(s.last() == x.last());
        assert(y.push(x.last()) =~= x);
        assert(pieces(a, ',').push(y).drop_last() =~= pieces(a, ','));
    } else {
        assert(s =~= a.push(','));
        assert(s.drop_last() =~= a);
        assert(x =~= Seq::<char>::empty());
    }
}

proof fn lemma_pieces_of_joined(list: Seq<Seq<char>>)
    requires
        list.len() > 0,
        forall|i: int| 0 <= i < list.len() ==> has_no_comma(#[trigger] list[i]),
    ensures
        pieces(joined(list), ',') == list,
    decreases list.len(),
{
    if list.len() == 1 {
        assert(has_no_comma(list[0]));
        lemma_one_piece(list[0]);
        assert(list =~= seq![list[0]]);
    } else {
        let rest = list.drop_last();
        assert forall|i: int| 0 <= i < rest.len() implies has_no_comma(#[trigger] rest[i]) by {
            assert(rest[i] == list[i]);
        }
        lemma_pieces_of_joined(rest);
        assert(has_no_comma(list[list.len() - 1]));
        lemma_piece_more(joined(rest), list.last());
        assert(rest.push(list.last()) =~= list);
    }
}

proof fn lemma_filled_is_filter(list: Seq<Seq<char>>)
    ensures
        filled(list) == list.filter(|p: Seq<char>| p.len() > 0),
        forall|x: Seq<char>| #[trigger]
            filled(list).contains(x) <==> list.contains(x) && x.len() > 0,
    decreases list.len(),
{
    reveal(Seq::filter);
    let all = filled(list);
    if list.len() > 0 {
        let rest = list.drop_last();
        let before = filled(rest);
        lemma_filled_is_filter(rest);
        assert forall|x: Seq<char>| #[trigger] all.contains(x) <==> list.contains(x) && x.len()
            > 0 by {
            if all.contains(x) {
                let i = all.index_of(x);
                if i < before.len() {
                    assert(before[i] == x);
                    assert(before.contains(x));
                    let j = rest.index_of(x);
                    assert(list[j] == x);
                } else {
                    assert(list[list.len() - 1] == x);
                }
            }
            if list.contains(x) && x.len() > 0 {
                let j = list.index_of(x);
                if j < rest.len() {
                    assert(rest[j] == x);
                    assert(before.contains(x));
                    let i = before.index_of(x);
                    assert(all[i] == x);
                } else {
                    assert(all[all.len() - 1] == x);
                }
            }
        }
    }
}

/// A line that joins texts with commas is read as the numbers of those that are not empty, whole
/// and in their order; it is not read at all if one of these is no number.
pub proof fn law_lists_are_read(list: Seq<Seq<char>>)
    requires
        list.len() > 0,
        forall|i: int| 0 <= i < list.len() ==> has_no_comma(#[trigger] list[i]),
    ensures
        (exists|i: int|
            0 <= i < list.len() && (#[trigger] list[i]).len() > 0 && number_of(list[i]) is None)
            ==> listed_numbers(joined(list)) is None,
        (forall|i: int|
            0 <= i < list.len() && (#[trigger] list[i]).len() > 0 ==> number_of(list[i]) is Some)
            ==> listed_numbers(joined(list)) == Some(
            list.filter(|p: Seq<char>| p.len() > 0).map_values(
                |p: Seq<char>| number_of(p)->0,
            ),
        ),
{
    lemma_pieces_of_joined(list);
    lemma_filled_is_filter(list);
    let f = filled(list);
    if exists|i: int|
        0 <= i < list.len() && (#[trigger] list[i]).len() > 0 && number_of(list[i]) is None {
        let i = choose|i: int|
            0 <= i < list.len() && (#[trigger] list[i]).len() > 0 && number_of(list[i]) is None;
        assert(list.contains(list[i]));
        assert(f.contains(list[i]));
        let j = f.index_of(list[i]);
        assert(number_of(f[j]) is None);
    }
    if forall|i: int|
        0 <= i < list.len() && (#[trigger] list[i]).len() > 0 ==> number_of(list[i]) is Some {
        assert forall|j: int| 0 <= j < f.len() implies number_of(#[trigger] f[j]) is Some by {
            assert(f.contains(f[j]));
            let i = list.index_of(f[j]);
            assert(list[i].len() > 0);
        }
    }
}

/// Numbers written in decimal and joined with commas are read as those numbers, in their order.
pub proof fn law_joined_numbers_are_read(numbers: Seq<nat>, list: Seq<Seq<char>>)
    requires
        numbers.len() > 0,
        list.len() == numbers.len(),
        forall|i: int|
            0 <= i < list.len() ==> #[trigger] numbers[i] <= 2147483647 && list[i] == decimal(
                numbers[i],
            ),
    ensures
        listed_numbers(joined(list)) is Some,
        listed_numbers(joined(list))->0.len() == numbers.len(),
        forall|i: int|
            0 <= i < numbers.len() ==> #[trigger] listed_numbers(joined(list))->0[i] == numbers[i],
{
    assert forall|i: int| 0 <= i < list.len() implies has_no_comma(#[trigger] list[i]) && list[i].len()
        > 0 && number_of(list[i]) == Some(numbers[i] as i32) by {
        let n = numbers[i];
        lemma_decimal(n);
        let none = Seq::<char>::empty();
        law_numbers_are_read(none, 0, n);
        assert(none != seq!['-']) by {
            assert(none.len() != seq!['-'].len());
        }
        assert(none + zeros(0) + decimal(n) =~= decimal(n));
        assert forall|k: int| 0 <= k < list[i].len() implies #[trigger] list[i][k] != ',' by {
            assert(is_digit(decimal(n)[k]));
        }
    }
    law_lists_are_read(list);
    lemma_filter_all(list);
}

proof fn lemma_filter_all(list: Seq<Seq<char>>)
    requires
        forall|i: int| 0 <= i < list.len() ==> (#[trigger] list[i]).len() > 0,
    ensures
        list.filter(|p: Seq<char>| p.len() > 0) == list,
    decreases list.len(),
{
    reveal(Seq::filter);
    if list.len() > 0 {
        let rest = list.drop_last();
        assert forall|i: int| 0 <= i < rest.len() implies (#[trigger] rest[i]).len() > 0 by {
            assert(rest[i] == list[i]);
        }
        lemma_filter_all(rest);
        assert(list[list.len() - 1].len() > 0);
        assert(rest.push(list.last()) =~= list);
    } else {
        assert(list.filter(|p: Seq<char>| p.len() > 0) =~= list);
    }
}

/// Every line joins texts without commas.
pub proof fn law_every_line_is_joined(s: Seq<char>)
    ensures
        pieces(s, ',').len() > 0,
        joined(pieces(s, ',')) == s,
        forall|i: int| 0 <= i < pieces(s, ',').len() ==> has_no_comma(#[trigger] pieces(s, ',')[i]),
    decreases s.len(),
{
    let all = pieces(s, ',');
    if s.len() == 0 {
        assert(all[0] == s);
    } else {
        let rest = s.drop_last();
        let before = pieces(rest, ',');
        law_every_line_is_joined(rest);
        assert(rest.push(s.last()) =~= s);
        if s.last() == ',' {
            assert(all.drop_last() =~= before);
            assert(joined(all) =~= s);
        } else {
            assert(has_no_comma(before[before.len() - 1]));
            assert(all.drop_last() =~= before.drop_last());
            if before.len() == 1 {
                assert(joined(before) == before[0]);
                assert(joined(all) =~= s);
            } else {
                assert(joined(all) =~= s);
            }
        }
        assert forall|i: int| 0 <= i < all.len() implies has_no_comma(#[trigger] all[i]) by {
            if i < before.len() {
                assert(has_no_comma(before[i]));
            }
        }
    }
}

// ---------------------------------------------------------------------------------------------
// Order
// ---------------------------------------------------------------------------------------------

/// One text comes before another if it has the lesser code point where they first differ, or is
/// a part of the other up to its own end.
pub proof fn law_order_is_by_first_difference(a: Seq<char>, b: Seq<char>)
    ensures
        text_before(a, b) <==> exists|n: int|
            0 <= n <= a.len() && n < b.len() && #[trigger] a.take(n) == b.take(n) && (n == a.len()
                || (a[n] as int) < b[n] as int),
    decreases a.len(),
{
    if b.len() == 0 {
    } else if a.len() == 0 {
        assert(a.take(0) =~= b.take(0));
    } else {
        let x = a.skip(1);
        let y = b.skip(1);
        law_order_is_by_first_difference(x, y);
        if a[0] != b[0] {
            assert(a.take(0) =~= b.take(0));
            assert forall|n: int| n > 0 && 0 <= n <= a.len() && n < b.len() implies #[trigger] a.take(
                n,
            ) != b.take(n) by {
                assert(a.take(n)[0] != b.take(n)[0]);
            }
        } else {
            if text_before(x, y) {
                let n = choose|n: int|
                    0 <= n <= x.len() && n < y.len() && #[trigger] x.take(n) == y.take(n) && (n
                        == x.len() || (x[n] as int) < y[n] as int);
                assert forall|i: int| 0 <= i < n + 1 implies a[i] == b[i] by {
                    if i > 0 {
                        assert(x.take(n)[i - 1] == y.take(n)[i - 1]);
                    }
                }
                assert(a.take(n + 1) =~= b.take(n + 1));
            }
            if exists|n: int|
                0 <= n <= a.len() && n < b.len() && #[trigger] a.take(n) == b.take(n) && (n
                    == a.len() || (a[n] as int) < b[n] as int) {
                let n = choose|n: int|
                    0 <= n <= a.len() && n < b.len() && #[trigger] a.take(n) == b.take(n) && (n
                        == a.len() || (a[n] as int) < b[n] as int);
                assert(n > 0);
                assert forall|i: int| 0 <= i < n - 1 implies x[i] == y[i] by {
                    assert(a.take(n)[i + 1] == b.take(n)[i + 1]);
                }
                assert(x.take(n - 1) =~= y.take(n - 1));
            }
        }
    }
}

// ---------------------------------------------------------------------------------------------
// Patterns
// ---------------------------------------------------------------------------------------------

/// Patterns do not tell the two characters apart: they are equal, or the two cases of an ASCII
/// letter, or among the three last code points of the basic plane.
pub open spec fn same_letter(a: char, b: char) -> bool {
    ||| a == b
    ||| 65 <= a as int <= 90 && b as int == a as int + 32
    ||| 65 <= b as int <= 90 && a as int == b as int + 32
    ||| 0xfffd <= a as int <= 0xffff && 0xfffd <= b as int <= 0xffff
}

/// Two characters are compared in patterns as one exactly if they are the same letter.
pub proof fn law_letters_are_compared(a: char, b: char)
    ensures
        fold_case(a) == fold_case(b) <==> same_letter(a, b),
{
}

/// The text `t` is laid along the pattern `p`: `cuts[i]` is where the part of the text for the
/// character `i` of the pattern starts. `%` takes any part, `_` any one character, every other
/// character one that is the same letter.
pub open spec fn is_laid(p: Seq<char>, t: Seq<char>, cuts: Seq<int>) -> bool {
    &&& cuts.len() == p.len() + 1
    &&& cuts[0] == 0
    &&& cuts[p.len() as int] == t.len()
    &&& forall|i: int|
        0 <= i < p.len() ==> {
            let here = #[trigger] cuts[i];
            if p[i] == '%' {
                here <= cuts[i + 1]
            } else {
                &&& cuts[i + 1] == here + 1
                &&& 0 <= here < t.len()
                &&& p[i] == '_' || same_letter(p[i], t[here])
            }
        }
}

/// A text matches a pattern exactly if it can be laid along it.
pub proof fn law_patterns_are_laid_along(p: Seq<char>, t: Seq<char>)
    ensures
        like(p, t) <==> exists|cuts: Seq<int>| is_laid(p, t, cuts),
{
    if like(p, t) {
        let cuts = lemma_lay(p, t);
    }
    if exists|cuts: Seq<int>| is_laid(p, t, cuts) {
        let cuts = choose|cuts: Seq<int>| is_laid(p, t, cuts);
        lemma_laid(p, t, cuts);
    }
}

proof fn lemma_lay(p: Seq<char>, t: Seq<char>) -> (cuts: Seq<int>)
    requires
        like(p, t),
    ensures
        is_laid(p, t, cuts),
    decreases p.len(), t.len(),
{
    if p.len() == 0 {
        seq![0int]
    } else if p[0] == '%' {
        if like(p.skip(1), t) {
            let c = lemma_lay(p.skip(1), t);
            let cuts = seq![0int] + c;
            assert forall|i: int| 0 <= i < p.len() implies {
                let here = #[trigger] cuts[i];
                if p[i] == '%' {
                    here <= cuts[i + 1]
                } else {
                    &&& cuts[i + 1] == here + 1
                    &&& 0 <= here < t.len()
                    &&& p[i] == '_' || same_letter(p[i], t[here])
                }
            } by {
                if i > 0 {
                    assert(cuts[i] == c[i - 1] && cuts[i + 1] == c[i]);
                    assert(p.skip(1)[i - 1] == p[i]);
                }
            }
            cuts
        } else {
            let c = lemma_lay(p, t.skip(1));
            let cuts = Seq::new(
                c.len(),
                |i: int|
                    if i == 0 {
                        0
                    } else {
                        c[i] + 1
                    },
            );
            assert forall|i: int| 0 <= i < p.len() implies {
                let here = #[trigger] cuts[i];
                if p[i] == '%' {
                    here <= cuts[i + 1]
                } else {
                    &&& cuts[i + 1] == here + 1
                    &&& 0 <= here < t.len()
                    &&& p[i] == '_' || same_letter(p[i], t[here])
                }
            } by {
                let before = c[i];
                if i > 0 && p[i] != '%' {
                    assert(t.skip(1)[c[i]] == t[c[i] + 1]);
                }
            }
            cuts
        }
    } else {
        let c = lemma_lay(p.skip(1), t.skip(1));
        let cuts = seq![0int] + c.map_values(|n: int| n + 1);
        law_letters_are_compared(p[0], t[0]);
        assert forall|i: int| 0 <= i < p.len() implies {
            let here = #[trigger] cuts[i];
            if p[i] == '%' {
                here <= cuts[i + 1]
            } else {
                &&& cuts[i + 1] == here + 1
                &&& 0 <= here < t.len()
                &&& p[i] == '_' || same_letter(p[i], t[here])
            }
        } by {
            if i > 0 {
                assert(cuts[i] == c[i - 1] + 1 && cuts[i + 1] == c[i] + 1);
                assert(p.skip(1)[i - 1] == p[i]);
                if p[i] != '%' {
                    assert(t.skip(1)[c[i - 1]] == t[c[i - 1] + 1]);
                }
            }
        }
        cuts
    }
}

proof fn lemma_laid(p: Seq<char>, t: Seq<char>, cuts: Seq<int>)
    requires
        is_laid(p, t, cuts),
    ensures
        like(p, t),
    decreases p.len(), t.len(),
{
    if p.len() > 0 {
        let first = cuts[0];
        let c = cuts.skip(1);
        if p[0] == '%' && cuts[1] == 0 {
            assert forall|i: int| 0 <= i < p.skip(1).len() implies {
                let here = #[trigger] c[i];
                if p.skip(1)[i] == '%' {
                    here <= c[i + 1]
                } else {
                    &&& c[i + 1] == here + 1
                    &&& 0 <= here < t.len()
                    &&& p.skip(1)[i] == '_' || same_letter(p.skip(1)[i], t[here])
                }
            } by {
                let here = cuts[i + 1];
            }
            lemma_laid(p.skip(1), t, c);
        } else if p[0] == '%' {
            lemma_cuts_grow(p, t, cuts, 1, p.len() as int);
            let u = t.skip(1);
            let e = Seq::new(
                cuts.len(),
                |i: int|
                    if i == 0 {
                        0
                    } else {
                        cuts[i] - 1
                    },
            );
            assert forall|i: int| 0 <= i < p.len() implies {
                let here = #[trigger] e[i];
                if p[i] == '%' {
                    here <= e[i + 1]
                } else {
                    &&& e[i + 1] == here + 1
                    &&& 0 <= here < u.len()
                    &&& p[i] == '_' || same_letter(p[i], u[here])
                }
            } by {
                let here = cuts[i];
                if i > 0 {
                    lemma_cuts_grow(p, t, cuts, 1, i);
                }
            }
            lemma_laid(p, u, e);
        } else {
            let u = t.skip(1);
            let e = Seq::new(p.len(), |i: int| cuts[i + 1] - 1);
            law_letters_are_compared(p[0], t[0]);
            assert forall|i: int| 0 <= i < p.skip(1).len() implies {
                let here = #[trigger] e[i];
                if p.skip(1)[i] == '%' {
                    here <= e[i + 1]
                } else {
                    &&& e[i + 1] == here + 1
                    &&& 0 <= here < u.len()
                    &&& p.skip(1)[i] == '_' || same_letter(p.skip(1)[i], u[here])
                }
            } by {
                let here = cuts[i + 1];
                lemma_cuts_grow(p, t, cuts, 1, i + 1);
            }
            lemma_laid(p.skip(1), u, e);
        }
    }
}

proof fn lemma_cuts_grow(p: Seq<char>, t: Seq<char>, cuts: Seq<int>, i: int, j: int)
    requires
        is_laid(p, t, cuts),
        0 <= i <= j <= p.len(),
    ensures
        cuts[i] <= cuts[j],
    decreases j - i,
{
    if i < j {
        let here = cuts[j - 1];
        lemma_cuts_grow(p, t, cuts, i, j - 1);
    }
}

/// What stands behind a null character, in a pattern or in a text, is not seen.
pub proof fn law_null_characters_end(p: Seq<char>, t: Seq<char>, a: Seq<char>, b: Seq<char>)
    requires
        !p.contains('\0'),
        !t.contains('\0'),
    ensures
        is_found(p, t) == like(p, t),
        is_found(p.push('\0') + a, t) == is_found(p, t),
        is_found(p, t.push('\0') + b) == is_found(p, t),
        is_found(p.push('\0') + a, t.push('\0') + b) == is_found(p, t),
{
    lemma_cut(p, a);
    lemma_cut(t, b);
}

proof fn lemma_cut(p: Seq<char>, more: Seq<char>)
    requires
        !p.contains('\0'),
    ensures
        before_null(p.push('\0') + more) == p,
{
    let s = p.push('\0') + more;
    assert forall|i: int| 0 <= i < p.len() implies #[trigger] s[i] != '\0' by {
        assert(p.contains(p[i]));
    }
    lemma_first_null(s, p.len() as int);
    assert(s.take(p.len() as int) =~= p);
}

} // verus!
