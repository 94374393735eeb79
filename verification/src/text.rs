//! Text as the catalogue stores it: comparison, decimal numbers, search patterns and lists.

use vstd::prelude::*;

verus! {

/// The views of optional text.
pub open spec fn text_of(t: Option<String>) -> Option<Seq<char>> {
    match t {
        Some(s) => Some(s@),
        None => None,
    }
}

/// The views of a list of texts.
pub open spec fn texts_of(list: Seq<String>) -> Seq<Seq<char>> {
    list.map_values(|s: String| s@)
}

/// A copy of optional text.
pub fn copy_text(t: &Option<String>) -> (r: Option<String>)
    ensures
        r == *t,
{
    match t {
        Some(s) => Some(s.clone()),
        None => None,
    }
}

/// The characters of `s`, one by one.
pub fn chars_of(s: &str) -> (v: Vec<char>)
    ensures
        v@ == s@,
{
    let mut v: Vec<char> = Vec::new();
    for c in it: s.chars()
        invariant
            v@ == it.seq().take(it.index()),
            it.seq() == s@,
    {
        v.push(c);
        assert(it.seq().take(it.index() + 1) =~= it.seq().take(it.index()).push(c));
    }
    assert(s@.take(s@.len() as int) =~= s@);
    v
}

// ---------------------------------------------------------------------------------------------
// Order
// ---------------------------------------------------------------------------------------------

/// `a` comes before `b` in the order of their code points, a proper prefix first. This is also
/// the order of their UTF-8 bytes.
pub open spec fn text_before(a: Seq<char>, b: Seq<char>) -> bool
    decreases a.len(),
{
    if b.len() == 0 {
        false
    } else if a.len() == 0 {
        true
    } else if a[0] != b[0] {
        a[0] < b[0]
    } else {
        text_before(a.skip(1), b.skip(1))
    }
}

/// Whether `a` comes before `b`.
pub fn is_before(a: &str, b: &str) -> (r: bool)
    ensures
        r == text_before(a@, b@),
{
    let x = chars_of(a);
    let y = chars_of(b);
    let mut i: usize = 0;
    proof {
        assert(a@.skip(0) =~= a@);
        assert(b@.skip(0) =~= b@);
    }
    while i < x.len() && i < y.len() && x[i] == y[i]
        invariant
            x@ == a@,
            y@ == b@,
            0 <= i <= x.len(),
            i <= y.len(),
            text_before(a@, b@) == text_before(a@.skip(i as int), b@.skip(i as int)),
        decreases x.len() - i,
    {
        proof {
            assert(a@.skip(i as int).skip(1) =~= a@.skip(i + 1));
            assert(b@.skip(i as int).skip(1) =~= b@.skip(i + 1));
        }
        i += 1;
    }
    if i >= y.len() {
        false
    } else if i >= x.len() {
        true
    } else {
        x[i] < y[i]
    }
}

/// No text comes before itself.
pub proof fn lemma_before_irreflexive(a: Seq<char>)
    ensures
        !text_before(a, a),
    decreases a.len(),
{
    if a.len() > 0 {
        lemma_before_irreflexive(a.skip(1));
    }
}

/// The order is transitive.
pub proof fn lemma_before_transitive(a: Seq<char>, b: Seq<char>, c: Seq<char>)
    requires
        text_before(a, b),
        text_before(b, c),
    ensures
        text_before(a, c),
    decreases a.len(),
{
    if a.len() > 0 && a[0] == b[0] && b[0] == c[0] {
        lemma_before_transitive(a.skip(1), b.skip(1), c.skip(1));
    }
}

/// Of two different texts one comes before the other.
pub proof fn lemma_before_total(a: Seq<char>, b: Seq<char>)
    ensures
        text_before(a, b) || text_before(b, a) || a == b,
    decreases a.len(),
{
    if a.len() > 0 && b.len() > 0 && a[0] == b[0] {
        lemma_before_total(a.skip(1), b.skip(1));
        if a.skip(1) == b.skip(1) {
            assert(a =~= seq![a[0]] + a.skip(1));
            assert(b =~= seq![b[0]] + b.skip(1));
        }
    } else if a.len() == 0 && b.len() == 0 {
        assert(a =~= b);
    }
}

// ---------------------------------------------------------------------------------------------
// Decimal numbers
// ---------------------------------------------------------------------------------------------

/// `c` is one of the ten ASCII digits.
pub open spec fn is_digit(c: char) -> bool {
    '0' <= c <= '9'
}

/// The number that a sequence of digits writes, most significant digit first.
pub open spec fn digits_value(s: Seq<char>) -> nat
    decreases s.len(),
{
    if s.len() == 0 {
        0
    } else {
        10 * digits_value(s.drop_last()) + (s.last() as nat - '0' as nat) as nat
    }
}

/// A sign in front of the digits.
pub open spec fn has_sign(s: Seq<char>) -> bool {
    s.len() > 0 && (s[0] == '-' || s[0] == '+')
}

/// The digits behind the sign, if there is one.
pub open spec fn unsigned_part(s: Seq<char>) -> Seq<char> {
    if has_sign(s) {
        s.skip(1)
    } else {
        s
    }
}

/// The integer that `s` writes: at least one digit, and nothing but digits behind an optional
/// sign.
pub open spec fn integer_value(s: Seq<char>) -> Option<int> {
    let body = unsigned_part(s);
    if body.len() == 0 || exists|i: int| 0 <= i < body.len() && !is_digit(#[trigger] body[i]) {
        None
    } else if s[0] == '-' {
        Some(-(digits_value(body) as int))
    } else {
        Some(digits_value(body) as int)
    }
}

/// The identifier that `s` writes: an integer in the range of `i32`.
pub open spec fn number_of(s: Seq<char>) -> Option<i32> {
    match integer_value(s) {
        Some(n) => if i32::MIN <= n <= i32::MAX {
            Some(n as i32)
        } else {
            None
        },
        None => None,
    }
}

/// Reads an identifier from the characters `from..to` of `v`.
pub fn parse_range(v: &Vec<char>, from: usize, to: usize) -> (r: Option<i32>)
    requires
        from <= to <= v.len(),
    ensures
        r == number_of(v@.subrange(from as int, to as int)),
{
    let ghost s = v@.subrange(from as int, to as int);
    let ghost body = unsigned_part(s);
    let signed = from < to && (v[from] == '-' || v[from] == '+');
    let negative = from < to && v[from] == '-';
    let start: usize = if signed { from + 1 } else { from };
    assert(body =~= v@.subrange(start as int, to as int));
    if start >= to {
        return None;
    }
    let mut total: i64 = 0;
    let mut i: usize = start;
    let mut small = true;
    assert(body.take(0) =~= Seq::<char>::empty());
    while i < to
        invariant
            start <= i <= to <= v.len(),
            body == v@.subrange(start as int, to as int),
            forall|j: int| 0 <= j < i - start ==> is_digit(#[trigger] body[j]),
            0 <= total <= 2_147_483_648,
            small ==> total == digits_value(body.take(i - start)),
            !small ==> digits_value(body.take(i - start)) > 2_147_483_648,
            body == unsigned_part(s),
            s == v@.subrange(from as int, to as int),
            from <= start,
        decreases to - i,
    {
        let c = v[i];
        assert(body[i - start] == c);
        if c < '0' || c > '9' {
            return None;
        }
        assert(body.take(i - start + 1).drop_last() =~= body.take(i - start));
        let d: i64 = (c as u32 - '0' as u32) as i64;
        if small {
            let next: i64 = total * 10 + d;
            if next > 2_147_483_648 {
                small = false;
            } else {
                total = next;
            }
        }
        i += 1;
    }
    assert(body.take(to - start) =~= body);
    assert(s[0] == v@[from as int]);
    if !small {
        None
    } else if negative {
        Some((-total) as i32)
    } else if total <= 2_147_483_647 {
        Some(total as i32)
    } else {
        None
    }
}

/// Reads an identifier.
pub fn parse_number(s: &str) -> (r: Option<i32>)
    ensures
        r == number_of(s@),
{
    let v = chars_of(s);
    assert(v@.subrange(0, v@.len() as int) =~= s@);
    parse_range(&v, 0, v.len())
}

// ---------------------------------------------------------------------------------------------
// Numerals
// ---------------------------------------------------------------------------------------------

/// `c` is one of the six ASCII blanks.
pub open spec fn is_blank(c: char) -> bool {
    c == ' ' || '\u{9}' <= c <= '\u{d}'
}

/// `s` without the blanks in front and behind.
pub open spec fn trimmed(s: Seq<char>) -> Seq<char>
    decreases s.len(),
{
    if s.len() > 0 && is_blank(s[0]) {
        trimmed(s.skip(1))
    } else if s.len() > 0 && is_blank(s.last()) {
        trimmed(s.drop_last())
    } else {
        s
    }
}

/// The number of digits that `s` starts with.
pub open spec fn leading_digits(s: Seq<char>) -> nat
    decreases s.len(),
{
    if s.len() > 0 && is_digit(s[0]) {
        1 + leading_digits(s.skip(1))
    } else {
        0
    }
}

/// The number that the digits of an exponent write. One with more than five digits is read as
/// ten thousand.
pub open spec fn exponent_value(d: Seq<char>) -> int
    decreases d.len(),
{
    if d.len() == 0 {
        0
    } else if exponent_value(d.drop_last()) < 10000 {
        10 * exponent_value(d.drop_last()) + (d.last() as int - '0' as int)
    } else {
        10000
    }
}

/// The exponent that `s` writes: at least one digit, and nothing but digits behind an optional
/// sign.
pub open spec fn exponent_of(s: Seq<char>) -> Option<int> {
    let body = unsigned_part(s);
    if body.len() == 0 || leading_digits(body) < body.len() {
        None
    } else if s[0] == '-' {
        Some(-exponent_value(body))
    } else {
        Some(exponent_value(body))
    }
}

/// The digits behind the point that `s` starts with, if it starts with one.
pub open spec fn fraction_of(s: Seq<char>) -> Seq<char> {
    if s.len() > 0 && s[0] == '.' {
        s.skip(1).take(leading_digits(s.skip(1)) as int)
    } else {
        Seq::empty()
    }
}

/// What stands behind the point that `s` starts with and its digits, if it starts with one.
pub open spec fn behind_fraction(s: Seq<char>) -> Seq<char> {
    if s.len() > 0 && s[0] == '.' {
        s.skip(1 + leading_digits(s.skip(1)) as int)
    } else {
        s
    }
}

/// The digits of a numeral without a sign, and the power of ten that they are multiplied by:
/// digits, perhaps a point and more digits, perhaps `e` or `E` and an exponent.
pub open spec fn numeral(s: Seq<char>) -> Option<(Seq<char>, int)> {
    let whole = s.take(leading_digits(s) as int);
    let fraction = fraction_of(s.skip(leading_digits(s) as int));
    let rest = behind_fraction(s.skip(leading_digits(s) as int));
    if whole.len() + fraction.len() == 0 {
        None
    } else if rest.len() == 0 {
        Some((whole + fraction, -(fraction.len() as int)))
    } else if rest[0] == 'e' || rest[0] == 'E' {
        match exponent_of(rest.skip(1)) {
            Some(x) => Some((whole + fraction, x - fraction.len())),
            None => None,
        }
    } else {
        None
    }
}

/// The digits of a numeral that are read: as many as it takes to write a number that one more
/// digit could make too great for 64 bits.
pub open spec fn significant(d: Seq<char>) -> Seq<char>
    decreases d.len(),
{
    if d.len() == 0 {
        d
    } else if digits_value(significant(d.drop_last())) >= 922_337_203_685_477_579 {
        significant(d.drop_last())
    } else {
        significant(d.drop_last()).push(d.last())
    }
}

/// `m` times the power `x` of ten, if that is an integer. What is too small by far is zero.
pub open spec fn scaled(m: nat, x: int) -> Option<nat>
    decreases
            (if x < 0 {
                -x
            } else {
                x
            }),
{
    if x == 0 {
        Some(m)
    } else if x > 0 {
        scaled(10 * m, x - 1)
    } else if m % 10 == 0 {
        scaled(m / 10, x + 1)
    } else if x <= -342 {
        Some(0)
    } else {
        None
    }
}

/// The identifier that the text of a column stands for where it is compared with a column of
/// numbers: the value of the numeral between its blanks, as far as its digits are read, if that is
/// an integer in the range of `i32`. A numeral that is no integer stands for none.
pub open spec fn column_number(s: Seq<char>) -> Option<i32> {
    let t = trimmed(s);
    match numeral(unsigned_part(t)) {
        Some((digits, x)) => match scaled(
            digits_value(significant(digits)),
            x + digits.len() - significant(digits).len(),
        ) {
            Some(n) => {
                let v = if t[0] == '-' {
                    -(n as int)
                } else {
                    n as int
                };
                if i32::MIN <= v <= i32::MAX {
                    Some(v as i32)
                } else {
                    None
                }
            },
            None => None,
        },
        None => None,
    }
}

/// Zero stays zero.
proof fn lemma_scaled_zero(x: int)
    ensures
        scaled(0, x) == Some(0nat),
    decreases
            (if x < 0 {
                -x
            } else {
                x
            }),
{
    if x > 0 {
        lemma_scaled_zero(x - 1);
    } else if x < 0 {
        lemma_scaled_zero(x + 1);
    }
}

/// A power of ten that is no fraction makes nothing smaller.
proof fn lemma_scaled_grows(m: nat, x: int)
    requires
        x >= 0,
    ensures
        scaled(m, x) matches Some(n) && n >= m,
    decreases x,
{
    if x > 0 {
        lemma_scaled_grows(10 * m, x - 1);
    }
}

/// The characters `from..to` of `v`.
fn copy_range(v: &Vec<char>, from: usize, to: usize) -> (r: Vec<char>)
    requires
        from <= to <= v.len(),
    ensures
        r@ == v@.subrange(from as int, to as int),
{
    let mut r: Vec<char> = Vec::new();
    let mut i: usize = from;
    while i < to
        invariant
            from <= i <= to <= v.len(),
            r@ == v@.subrange(from as int, i as int),
        decreases to - i,
    {
        r.push(v[i]);
        assert(v@.subrange(from as int, i + 1) =~= v@.subrange(from as int, i as int).push(
            v@[i as int],
        ));
        i += 1;
    }
    r
}

fn blank(c: char) -> (b: bool)
    ensures
        b == is_blank(c),
{
    c == ' ' || ('\u{9}' <= c && c <= '\u{d}')
}

fn trim(v: &Vec<char>) -> (r: Vec<char>)
    ensures
        r@ == trimmed(v@),
{
    let mut from: usize = 0;
    let mut to: usize = v.len();
    assert(v@.subrange(0, v@.len() as int) =~= v@);
    while from < to && blank(v[from])
        invariant
            from <= to == v.len(),
            trimmed(v@) == trimmed(v@.subrange(from as int, to as int)),
        decreases to - from,
    {
        assert(v@.subrange(from as int, to as int).skip(1) =~= v@.subrange(from + 1, to as int));
        from += 1;
    }
    while from < to && blank(v[to - 1])
        invariant
            from <= to <= v.len(),
            from < to ==> !is_blank(v@[from as int]),
            trimmed(v@) == trimmed(v@.subrange(from as int, to as int)),
        decreases to - from,
    {
        assert(v@.subrange(from as int, to as int).drop_last() =~= v@.subrange(
            from as int,
            to - 1,
        ));
        to -= 1;
    }
    copy_range(v, from, to)
}

/// The number of digits from position `from` on.
fn count_digits(v: &Vec<char>, from: usize) -> (n: usize)
    requires
        from <= v.len(),
    ensures
        n == leading_digits(v@.skip(from as int)),
        from + n <= v.len(),
{
    let mut i: usize = from;
    while i < v.len() && '0' <= v[i] && v[i] <= '9'
        invariant
            from <= i <= v.len(),
            leading_digits(v@.skip(from as int)) == i - from + leading_digits(v@.skip(i as int)),
        decreases v.len() - i,
    {
        assert(v@.skip(i as int).skip(1) =~= v@.skip(i + 1));
        i += 1;
    }
    i - from
}

/// The characters that are counted as digits are digits.
proof fn lemma_leading_digits(s: Seq<char>, i: int)
    requires
        0 <= i < leading_digits(s),
    ensures
        leading_digits(s) <= s.len(),
        is_digit(s[i]),
    decreases s.len(),
{
    if i > 0 {
        lemma_leading_digits(s.skip(1), i - 1);
    } else if leading_digits(s.skip(1)) > 0 {
        lemma_leading_digits(s.skip(1), 0);
    }
}

/// Reads the exponent that stands from position `from` on.
fn read_exponent(v: &Vec<char>, from: usize) -> (r: Option<i128>)
    requires
        from <= v.len(),
    ensures
        match r {
            Some(x) => exponent_of(v@.skip(from as int)) == Some(x as int) && -100000 < x < 100000,
            None => exponent_of(v@.skip(from as int)) is None,
        },
{
    let ghost s = v@.skip(from as int);
    let signed = from < v.len() && (v[from] == '-' || v[from] == '+');
    let start: usize = if signed { from + 1 } else { from };
    let ghost body = unsigned_part(s);
    assert(body =~= v@.skip(start as int));
    let n = count_digits(v, start);
    if start >= v.len() || start + n < v.len() {
        return None;
    }
    let mut e: i128 = 0;
    let mut i: usize = start;
    assert(body.take(0) =~= Seq::<char>::empty());
    while i < v.len()
        invariant
            start <= i <= v.len(),
            body == v@.skip(start as int),
            leading_digits(body) == body.len(),
            0 <= e < 100000,
            e == exponent_value(body.take(i - start)),
        decreases v.len() - i,
    {
        proof {
            lemma_leading_digits(body, i - start);
            assert(body.take(i - start + 1).drop_last() =~= body.take(i - start));
            assert(body[i - start] == v@[i as int]);
        }
        if e < 10000 {
            e = e * 10 + (v[i] as u32 - '0' as u32) as i128;
        } else {
            e = 10000;
        }
        i += 1;
    }
    assert(body.take(i - start) =~= body);
    if v[from] == '-' {
        Some(-e)
    } else {
        Some(e)
    }
}

/// Multiplies the number that digits write by a power of ten. The result is `None` if that is no
/// integer or is greater than any identifier.
fn scale(digits: Vec<char>, exponent: i128) -> (r: Option<u64>)
    requires
        forall|i: int| 0 <= i < digits@.len() ==> is_digit(#[trigger] digits@[i]),
        exponent < i128::MAX,
    ensures
        match r {
            Some(n) => scaled(digits_value(digits@), exponent as int) == Some(n as nat),
            None => scaled(digits_value(digits@), exponent as int) matches Some(n) ==> n
                > 2_147_483_648,
        },
{
    let ghost whole = scaled(digits_value(digits@), exponent as int);
    let mut d: Vec<char> = digits;
    let mut x: i128 = exponent;
    while x < 0
        invariant
            forall|i: int| 0 <= i < d@.len() ==> is_digit(#[trigger] d@[i]),
            scaled(digits_value(d@), x as int) == whole,
            whole == scaled(digits_value(digits@), exponent as int),
        decreases -x,
    {
        if d.len() == 0 {
            proof {
                lemma_scaled_zero(x as int);
            }
            return Some(0);
        }
        let c = d[d.len() - 1];
        if c != '0' {
            assert(digits_value(d@) % 10 != 0);
            if x <= -342 {
                return Some(0);
            }
            return None;
        }
        let ghost before = d@;
        let _ = d.pop();
        assert(d@ =~= before.drop_last());
        x += 1;
    }
    let mut n: u64 = 0;
    let mut i: usize = 0;
    assert(d@.take(0) =~= Seq::<char>::empty());
    while i < d.len()
        invariant
            i <= d.len(),
            x >= 0,
            forall|j: int| 0 <= j < d@.len() ==> is_digit(#[trigger] d@[j]),
            n == digits_value(d@.take(i as int)),
            n <= 2_147_483_648,
            scaled(digits_value(d@), x as int) == whole,
            whole == scaled(digits_value(digits@), exponent as int),
        decreases d.len() - i,
    {
        assert(d@.take(i + 1).drop_last() =~= d@.take(i as int));
        let next: u64 = n * 10 + (d[i] as u32 - '0' as u32) as u64;
        if next > 2_147_483_648 {
            proof {
                lemma_digits_grow(d@, i + 1);
                lemma_scaled_grows(digits_value(d@), x as int);
            }
            return None;
        }
        n = next;
        i += 1;
    }
    assert(d@.take(i as int) =~= d@);
    while x > 0
        invariant
            x >= 0,
            n <= 2_147_483_648,
            scaled(n as nat, x as int) == whole,
            whole == scaled(digits_value(digits@), exponent as int),
        decreases x,
    {
        if n == 0 {
            proof {
                lemma_scaled_zero(x as int);
            }
            return Some(0);
        }
        if n * 10 > 2_147_483_648 {
            proof {
                lemma_scaled_grows(10 * n as nat, x - 1);
            }
            return None;
        }
        n = n * 10;
        x -= 1;
    }
    Some(n)
}

/// More digits never write a smaller number.
proof fn lemma_digits_grow(s: Seq<char>, n: int)
    requires
        0 <= n <= s.len(),
    ensures
        digits_value(s.take(n)) <= digits_value(s),
    decreases s.len() - n,
{
    if n < s.len() {
        lemma_digits_grow(s, n + 1);
        assert(s.take(n + 1).drop_last() =~= s.take(n));
    } else {
        assert(s.take(n) =~= s);
    }
}

/// Reads the fraction at position `at`, if there is one, and tells where it ends.
fn read_fraction(v: &Vec<char>, at: usize) -> (r: (Vec<char>, usize))
    requires
        at <= v.len(),
    ensures
        r.0@ == fraction_of(v@.skip(at as int)),
        at <= r.1 <= v.len(),
        v@.skip(r.1 as int) == behind_fraction(v@.skip(at as int)),
        forall|i: int| 0 <= i < r.0@.len() ==> is_digit(#[trigger] r.0@[i]),
{
    let ghost s = v@.skip(at as int);
    if at < v.len() && v[at] == '.' {
        let n = count_digits(v, at + 1);
        let r = copy_range(v, at + 1, at + 1 + n);
        proof {
            assert(s.skip(1) =~= v@.skip(at + 1));
            assert(r@ =~= fraction_of(s));
            assert(v@.skip(at + 1 + n) =~= behind_fraction(s));
            assert forall|i: int| 0 <= i < r@.len() implies is_digit(#[trigger] r@[i]) by {
                lemma_leading_digits(s.skip(1), i);
            }
        }
        (r, at + 1 + n)
    } else {
        (Vec::new(), at)
    }
}

/// Reads the numeral that stands from position `from` on.
fn read_numeral(v: &Vec<char>, from: usize) -> (r: Option<(Vec<char>, i128)>)
    requires
        from <= v.len(),
    ensures
        match r {
            Some((digits, x)) => numeral(v@.skip(from as int)) == Some((digits@, x as int))
                && -(usize::MAX as int) - 100000 < x < 100000 && forall|i: int|
                0 <= i < digits@.len() ==> is_digit(#[trigger] digits@[i]),
            None => numeral(v@.skip(from as int)) is None,
        },
{
    let ghost s = v@.skip(from as int);
    let n = count_digits(v, from);
    let mut digits = copy_range(v, from, from + n);
    proof {
        assert(digits@ =~= s.take(n as int));
        assert(s.skip(n as int) =~= v@.skip(from + n));
        assert forall|i: int| 0 <= i < digits@.len() implies is_digit(#[trigger] digits@[i]) by {
            lemma_leading_digits(s, i);
        }
    }
    let (mut fraction, end) = read_fraction(v, from + n);
    let f = fraction.len();
    if n == 0 && f == 0 {
        return None;
    }
    let ghost whole = digits@;
    let ghost part = fraction@;
    digits.append(&mut fraction);
    assert(digits@ =~= whole + part);
    if end >= v.len() {
        return Some((digits, -(f as i128)));
    }
    assert(v@.skip(end as int)[0] == v@[end as int]);
    if v[end] == 'e' || v[end] == 'E' {
        assert(v@.skip(end as int).skip(1) =~= v@.skip(end + 1));
        match read_exponent(v, end + 1) {
            Some(x) => Some((digits, x - f as i128)),
            None => None,
        }
    } else {
        None
    }
}

/// Keeps the digits of a numeral that are read, and counts the others.
fn read_significant(digits: &Vec<char>) -> (r: (Vec<char>, usize))
    requires
        forall|i: int| 0 <= i < digits@.len() ==> is_digit(#[trigger] digits@[i]),
    ensures
        r.0@ == significant(digits@),
        r.1 == digits@.len() - r.0@.len(),
        forall|i: int| 0 <= i < r.0@.len() ==> is_digit(#[trigger] r.0@[i]),
{
    let mut kept: Vec<char> = Vec::new();
    let mut n: u64 = 0;
    let mut i: usize = 0;
    assert(digits@.take(0) =~= Seq::<char>::empty());
    while i < digits.len()
        invariant
            i <= digits.len(),
            forall|j: int| 0 <= j < digits@.len() ==> is_digit(#[trigger] digits@[j]),
            forall|j: int| 0 <= j < kept@.len() ==> is_digit(#[trigger] kept@[j]),
            kept@ == significant(digits@.take(i as int)),
            kept.len() <= i,
            n == digits_value(kept@),
        decreases digits.len() - i,
    {
        assert(digits@.take(i + 1).drop_last() =~= digits@.take(i as int));
        if n < 922_337_203_685_477_579 {
            let c = digits[i];
            assert(is_digit(digits@[i as int]));
            let ghost before = kept@;
            n = n * 10 + (c as u32 - '0' as u32) as u64;
            kept.push(c);
            assert(kept@.drop_last() =~= before);
        }
        i += 1;
    }
    assert(digits@.take(i as int) =~= digits@);
    let dropped = digits.len() - kept.len();
    (kept, dropped)
}

/// Reads the identifier that the text of a column stands for.
pub fn read_column(s: &str) -> (r: Option<i32>)
    ensures
        r == column_number(s@),
{
    let v = chars_of(s);
    let t = trim(&v);
    let signed = t.len() > 0 && (t[0] == '-' || t[0] == '+');
    let negative = t.len() > 0 && t[0] == '-';
    let start: usize = if signed { 1 } else { 0 };
    assert(unsigned_part(t@) =~= t@.skip(start as int));
    match read_numeral(&t, start) {
        Some((digits, x)) => {
            assert(t@.len() > 0) by {
                if t@.len() == 0 {
                    assert(numeral(t@.skip(0)) is None);
                }
            }
            let (kept, dropped) = read_significant(&digits);
            match scale(kept, x + dropped as i128) {
                Some(n) => {
                    if negative && n <= 2_147_483_648 {
                        Some((-(n as i64)) as i32)
                    } else if !negative && n <= 2_147_483_647 {
                        Some(n as i32)
                    } else {
                        None
                    }
                },
                None => None,
            }
        },
        None => None,
    }
}

// ---------------------------------------------------------------------------------------------
// Search patterns
// ---------------------------------------------------------------------------------------------

/// The position of the first null character, or the length of `s` if there is none.
pub open spec fn null_at(s: Seq<char>) -> int
    decreases s.len(),
{
    if s.len() == 0 || s[0] == '\0' {
        0
    } else {
        1 + null_at(s.skip(1))
    }
}

/// `s` up to the first null character.
pub open spec fn before_null(s: Seq<char>) -> Seq<char> {
    if s.contains('\0') {
        s.take(null_at(s))
    } else {
        s
    }
}

/// What stands in front of the first null character, and what at it.
pub proof fn lemma_null_at(s: Seq<char>)
    ensures
        0 <= null_at(s) <= s.len(),
        forall|i: int| 0 <= i < null_at(s) ==> #[trigger] s[i] != '\0',
        null_at(s) < s.len() ==> s[null_at(s)] == '\0',
        before_null(s) == s.take(null_at(s)),
        !before_null(s).contains('\0'),
    decreases s.len(),
{
    if s.len() > 0 && s[0] != '\0' {
        lemma_null_at(s.skip(1));
        assert forall|i: int| 0 <= i < null_at(s) implies #[trigger] s[i] != '\0' by {
            if i > 0 {
                assert(s.skip(1)[i - 1] == s[i]);
            }
        }
    }
    if null_at(s) == s.len() {
        assert(s.take(null_at(s)) =~= s);
    }
}

/// A null character that is the first is the one that [`null_at`] finds.
pub proof fn lemma_first_null(s: Seq<char>, n: int)
    requires
        0 <= n <= s.len(),
        forall|i: int| 0 <= i < n ==> #[trigger] s[i] != '\0',
        n < s.len() ==> s[n] == '\0',
    ensures
        null_at(s) == n,
        before_null(s) == s.take(n),
{
    lemma_null_at(s);
    if null_at(s) < n {
        assert(s[null_at(s)] != '\0');
    }
    if n < null_at(s) {
        assert(s[n] != '\0');
    }
}

/// `c` as patterns are compared: an ASCII capital letter is made small, and the two last code
/// points of the basic plane are taken for the replacement character.
pub open spec fn fold_case(c: char) -> char {
    if 'A' <= c <= 'Z' {
        ((c as int + 32) as u8) as char
    } else if '\u{fffe}' <= c <= '\u{ffff}' {
        '\u{fffd}'
    } else {
        c
    }
}

/// `t` matches the `LIKE` pattern `p`: `%` stands for any run of characters, `_` for any one
/// character, and every other character for itself, ASCII letters in either case.
pub open spec fn like(p: Seq<char>, t: Seq<char>) -> bool
    decreases p.len(), t.len(),
{
    if p.len() == 0 {
        t.len() == 0
    } else if p[0] == '%' {
        like(p.skip(1), t) || (t.len() > 0 && like(p, t.skip(1)))
    } else {
        t.len() > 0 && (p[0] == '_' || fold_case(p[0]) == fold_case(t[0])) && like(
            p.skip(1),
            t.skip(1),
        )
    }
}

/// A pattern and a text are compared up to the first null character of each.
pub open spec fn is_found(p: Seq<char>, t: Seq<char>) -> bool {
    like(before_null(p), before_null(t))
}

fn folded(c: char) -> (r: char)
    ensures
        r == fold_case(c),
{
    if 'A' <= c && c <= 'Z' {
        (c as u8 + 32) as char
    } else if '\u{fffe}' <= c && c <= '\u{ffff}' {
        '\u{fffd}'
    } else {
        c
    }
}

/// The characters of `s` up to the first null character.
fn chars_before_null(s: &str) -> (v: Vec<char>)
    ensures
        v@ == before_null(s@),
{
    let all = chars_of(s);
    let mut i: usize = 0;
    while i < all.len() && all[i] != '\0'
        invariant
            i <= all.len(),
            forall|j: int| 0 <= j < i ==> #[trigger] all@[j] != '\0',
        decreases all.len() - i,
    {
        i += 1;
    }
    proof {
        lemma_first_null(all@, i as int);
        assert(all@.subrange(0, i as int) =~= all@.take(i as int));
    }
    copy_range(&all, 0, i)
}

/// Whether `text` matches the `LIKE` pattern `pattern`, each up to its first null character.
pub fn is_like(pattern: &str, text: &str) -> (r: bool)
    ensures
        r == is_found(pattern@, text@),
{
    let p = chars_before_null(pattern);
    let t = chars_before_null(text);
    let ghost cut_pattern = p@;
    let ghost cut_text = t@;
    let n: usize = t.len();
    // below[j]: the pattern behind position i matches the text from j on
    let mut below: Vec<bool> = Vec::new();
    let mut k: usize = 0;
    assert(p@.skip(p@.len() as int) =~= Seq::<char>::empty());
    while k < n
        invariant
            k <= n == t.len(),
            t@ == cut_text,
            below.len() == k,
            forall|j: int| 0 <= j < k ==> below@[j] == like(Seq::empty(), #[trigger] t@.skip(j)),
        decreases n - k,
    {
        below.push(false);
        k += 1;
    }
    below.push(true);
    let mut i: usize = p.len();
    while i > 0
        invariant
            i <= p.len(),
            n == t.len(),
            p@ == cut_pattern,
            t@ == cut_text,
            below.len() == n + 1,
            forall|j: int|
                0 <= j <= n ==> below@[j] == like(p@.skip(i as int), #[trigger] t@.skip(j)),
        decreases i,
    {
        let c = p[i - 1];
        let ghost q = p@.skip(i - 1);
        assert(q[0] == c);
        assert(q.skip(1) =~= p@.skip(i as int));
        let mut row: Vec<bool> = Vec::new();
        let last = c == '%' && below[n];
        row.push(last);
        assert(t@.skip(n as int).len() == 0);
        let mut j: usize = n;
        // row holds the answers for the text positions n, n - 1, .., j
        while j > 0
            invariant
                j <= n == t.len(),
                0 < i <= p.len(),
                c == p@[i - 1],
                q == p@.skip(i - 1),
                q.len() > 0,
                q[0] == c,
                q.skip(1) == p@.skip(i as int),
                below.len() == n + 1,
                row.len() == n - j + 1,
                forall|m: int|
                    0 <= m <= n ==> below@[m] == like(p@.skip(i as int), #[trigger] t@.skip(m)),
                forall|m: int|
                    j <= m <= n ==> row@[n - m] == like(q, #[trigger] t@.skip(m)),
            decreases j,
        {
            let d = t[j - 1];
            let ghost u = t@.skip(j - 1);
            assert(u[0] == d);
            assert(u.skip(1) =~= t@.skip(j as int));
            assert(below@[j - 1] == like(p@.skip(i as int), u));
            assert(row@[n - j] == like(q, t@.skip(j as int)));
            assert(below@[j as int] == like(p@.skip(i as int), t@.skip(j as int)));
            let hit = if c == '%' {
                below[j - 1] || row[n - j]
            } else {
                (c == '_' || folded(c) == folded(d)) && below[j]
            };
            row.push(hit);
            j -= 1;
        }
        // turn the row round
        let mut next: Vec<bool> = Vec::new();
        let mut m: usize = 0;
        while m <= n
            invariant
                m <= n + 1,
                n == t.len(),
                n < usize::MAX,
                row.len() == n + 1,
                next.len() == m,
                forall|x: int| 0 <= x <= n ==> row@[n - x] == like(q, #[trigger] t@.skip(x)),
                forall|x: int| 0 <= x < m ==> next@[x] == like(q, #[trigger] t@.skip(x)),
            decreases n + 1 - m,
        {
            let ghost u = t@.skip(m as int);
            assert(row@[n - m] == like(q, u));
            next.push(row[n - m]);
            m += 1;
        }
        below = next;
        i -= 1;
    }
    assert(p@.skip(0) =~= cut_pattern);
    assert(t@.skip(0) =~= cut_text);
    assert(below@[0] == like(p@.skip(0), t@.skip(0)));
    below[0]
}

// ---------------------------------------------------------------------------------------------
// Lists
// ---------------------------------------------------------------------------------------------

/// The pieces of `s` between the separators: always one more than there are separators.
pub open spec fn pieces(s: Seq<char>, separator: char) -> Seq<Seq<char>>
    decreases s.len(),
{
    if s.len() == 0 {
        seq![Seq::<char>::empty()]
    } else {
        let before = pieces(s.drop_last(), separator);
        if s.last() == separator {
            before.push(Seq::<char>::empty())
        } else {
            before.drop_last().push(before.last().push(s.last()))
        }
    }
}

/// The pieces that are not empty, in their order.
pub open spec fn filled(list: Seq<Seq<char>>) -> Seq<Seq<char>>
    decreases list.len(),
{
    if list.len() == 0 {
        Seq::empty()
    } else if list.last().len() == 0 {
        filled(list.drop_last())
    } else {
        filled(list.drop_last()).push(list.last())
    }
}

/// The numbers that a list of texts writes, or `None` if one of them is no number.
pub open spec fn numbers_of(list: Seq<Seq<char>>) -> Option<Seq<i32>> {
    if forall|i: int| 0 <= i < list.len() ==> number_of(#[trigger] list[i]) is Some {
        Some(list.map_values(|s: Seq<char>| number_of(s)->0))
    } else {
        None
    }
}

/// The numbers of a comma-separated list, empty pieces left out.
pub open spec fn listed_numbers(s: Seq<char>) -> Option<Seq<i32>> {
    numbers_of(filled(pieces(s, ',')))
}

proof fn lemma_pieces_nonempty(s: Seq<char>)
    ensures
        pieces(s, ',').len() > 0,
{
}

proof fn lemma_filled_grows(list: Seq<Seq<char>>, n: int)
    requires
        0 <= n <= list.len(),
    ensures
        filled(list.take(n)).len() <= filled(list).len(),
        forall|i: int|
            0 <= i < filled(list.take(n)).len() ==> filled(list.take(n))[i] == #[trigger] filled(
                list,
            )[i],
    decreases list.len() - n,
{
    if n == list.len() {
        assert(list.take(n) =~= list);
    } else {
        lemma_filled_grows(list, n + 1);
        assert(list.take(n + 1).drop_last() =~= list.take(n));
        let more = filled(list.take(n + 1));
        assert forall|i: int| 0 <= i < filled(list.take(n)).len() implies filled(list.take(n))[i]
            == #[trigger] filled(list)[i] by {
            assert(more[i] == filled(list)[i]);
        }
    }
}

/// The pieces closed by a comma stay the same when `s` goes on.
proof fn lemma_pieces_grow(s: Seq<char>, n: int)
    requires
        0 <= n <= s.len(),
    ensures
        pieces(s.take(n), ',').len() <= pieces(s, ',').len(),
        pieces(s, ',').take(pieces(s.take(n), ',').len() - 1) == pieces(s.take(n), ',').drop_last(),
    decreases s.len() - n,
{
    if n == s.len() {
        assert(s.take(n) =~= s);
        assert(pieces(s, ',').take(pieces(s, ',').len() - 1) =~= pieces(s, ',').drop_last());
    } else {
        lemma_pieces_grow(s, n + 1);
        assert(s.take(n + 1).drop_last() =~= s.take(n));
        let a = pieces(s.take(n), ',');
        let b = pieces(s.take(n + 1), ',');
        lemma_pieces_nonempty(s.take(n));
        assert(b.drop_last().take(a.len() - 1) =~= a.drop_last());
        assert(pieces(s, ',').take(b.len() - 1).take(a.len() - 1) =~= pieces(s, ',').take(a.len() - 1));
    }
}

/// Reads a comma-separated list of identifiers; empty pieces are left out. `None` if a piece is
/// no identifier.
pub fn parse_list(line: &str) -> (r: Option<Vec<i32>>)
    ensures
        r matches Some(ids) ==> listed_numbers(line@) == Some(ids@),
        r is None ==> listed_numbers(line@) is None,
{
    let v = chars_of(line);
    let mut ids: Vec<i32> = Vec::new();
    let mut start: usize = 0;
    let mut i: usize = 0;
    proof {
        assert(v@.take(0) =~= Seq::<char>::empty());
        assert(pieces(v@.take(0), ',').drop_last() =~= Seq::<Seq<char>>::empty());
        assert(numbers_of(Seq::empty()) == Some(ids@)) by {
            assert(Seq::<Seq<char>>::empty().map_values(|s: Seq<char>| number_of(s)->0) =~= ids@);
        }
        assert(v@.subrange(0, 0) =~= Seq::<char>::empty());
    }
    loop
        invariant_except_break
            start <= i <= v.len(),
            v@ == line@,
            pieces(v@.take(i as int), ',').len() > 0,
            pieces(v@.take(i as int), ',').last() == v@.subrange(start as int, i as int),
            numbers_of(filled(pieces(v@.take(i as int), ',').drop_last())) == Some(ids@),
        ensures
            listed_numbers(line@) == Some(ids@),
        decreases v.len() - i,
    {
        let ghost head = pieces(v@.take(i as int), ',');
        if i >= v.len() || v[i] == ',' {
            let ghost piece = v@.subrange(start as int, i as int);
            let ghost done = filled(head.drop_last());
            let ghost old_ids = ids@;
            assert(filled(head) == if piece.len() == 0 { done } else { done.push(piece) });
            if start < i {
                match parse_range(&v, start, i) {
                    Some(n) => {
                        ids.push(n);
                    },
                    None => {
                        proof {
                            lemma_pieces_grow(v@, i as int);
                            let all = pieces(v@, ',');
                            if i < v@.len() {
                                lemma_pieces_grow(v@, i + 1);
                                assert(v@.take(i + 1).drop_last() =~= v@.take(i as int));
                                assert(pieces(v@.take(i + 1), ',').drop_last() =~= head);
                                assert(all.take(head.len() as int) =~= head);
                            } else {
                                assert(v@.take(i as int) =~= v@);
                                assert(all.take(head.len() as int) =~= head);
                            }
                            lemma_filled_grows(all, head.len() as int);
                            assert(filled(head)[done.len() as int] == piece);
                            assert(filled(all)[done.len() as int] == piece);
                        }
                        return None;
                    },
                }
                proof {
                    assert(numbers_of(done.push(piece)) == Some(ids@)) by {
                        assert forall|k: int| 0 <= k < done.push(piece).len() implies number_of(
                            #[trigger] done.push(piece)[k],
                        ) is Some by {
                            if k < done.len() {
                                assert(done.push(piece)[k] == done[k]);
                            }
                        }
                        assert(done.push(piece).map_values(|s: Seq<char>| number_of(s)->0)
                            =~= done.map_values(|s: Seq<char>| number_of(s)->0).push(
                            number_of(piece)->0,
                        ));
                    }
                }
            }
            assert(numbers_of(filled(head)) == Some(ids@));
            if i >= v.len() {
                assert(v@.take(i as int) =~= line@);
                break;
            }
            start = i + 1;
            proof {
                assert(v@.take(i + 1).drop_last() =~= v@.take(i as int));
                assert(pieces(v@.take(i + 1), ',').drop_last() =~= head);
                assert(v@.subrange(i + 1, i + 1) =~= Seq::<char>::empty());
            }
        } else {
            proof {
                assert(v@.take(i + 1).drop_last() =~= v@.take(i as int));
                assert(pieces(v@.take(i + 1), ',').drop_last() =~= head.drop_last());
                assert(v@.subrange(start as int, i + 1) =~= v@.subrange(start as int, i as int)
                    .push(v@[i as int]));
            }
        }
        i += 1;
    }
    Some(ids)
}

} // verus!
