use vstd::prelude::*;
use vstd::string::*;

verus! {

pub open spec fn is_digit(c: char) -> bool {
    '0' <= c && c <= '9'
}

pub open spec fn all_digits(s: Seq<char>) -> bool {
    forall|i: int| 0 <= i < s.len() ==> is_digit(#[trigger] s[i])
}

pub open spec fn digit_value(c: char) -> int {
    (c as u32) as int - ('0' as u32) as int
}

/// The number that a run of decimal digits denotes.
pub open spec fn digits_value(s: Seq<char>) -> int
    decreases s.len(),
{
    if s.len() == 0 {
        0
    } else {
        digits_value(s.drop_last()) * 10 + digit_value(s.last())
    }
}

/// Splits an optional leading `+` or `-` from `s`: whether it was `-`, and the rest.
pub open spec fn split_sign(s: Seq<char>) -> (bool, Seq<char>) {
    if s.len() > 0 && s[0] == '-' {
        (true, s.drop_first())
    } else if s.len() > 0 && s[0] == '+' {
        (false, s.drop_first())
    } else {
        (false, s)
    }
}

/// The integer written in `s`: an optional sign and one or more decimal digits.
pub open spec fn int_text_value(s: Seq<char>) -> Option<int> {
    let (neg, d) = split_sign(s);
    if d.len() > 0 && all_digits(d) {
        Some(if neg { -digits_value(d) } else { digits_value(d) })
    } else {
        None
    }
}

/// The `i32` that `s` denotes, when it is an integer in range.
pub open spec fn i32_of_text(s: Seq<char>) -> Option<i32> {
    match int_text_value(s) {
        Some(v) => if i32::MIN <= v <= i32::MAX {
            Some(v as i32)
        } else {
            None
        },
        None => None,
    }
}

proof fn lemma_digits_value_nonneg(s: Seq<char>)
    requires
        all_digits(s),
    ensures
        digits_value(s) >= 0,
    decreases s.len(),
{
    if s.len() > 0 {
        assert(all_digits(s.drop_last()));
        lemma_digits_value_nonneg(s.drop_last());
        assert(is_digit(s[s.len() - 1]));
    }
}

/// Reads a signed 32-bit decimal integer, as `str::parse::<i32>` accepts it.
pub fn parse_i32(s: &str) -> (r: Option<i32>)
    ensures
        r == i32_of_text(s@),
{
    let n = s.unicode_len();
    if n == 0 {
        return None;
    }
    let c0 = s.get_char(0);
    let neg = c0 == '-';
    let start: usize = if c0 == '-' || c0 == '+' { 1 } else { 0 };
    let ghost d = s@.subrange(start as int, n as int);
    assert(split_sign(s@) == (neg, d)) by {
        assert(s@.drop_first() =~= s@.subrange(1, n as int));
        assert(s@ =~= s@.subrange(0, n as int));
    }
    if start == n {
        return None;
    }
    let mut acc: u64 = 0;
    let mut big = false;
    let mut i: usize = start;
    assert(s@.subrange(start as int, start as int) =~= Seq::<char>::empty());
    while i < n
        invariant
            start <= i <= n,
            n == s@.len(),
            d == s@.subrange(start as int, n as int),
            split_sign(s@) == (neg, d),
            all_digits(s@.subrange(start as int, i as int)),
            big ==> digits_value(s@.subrange(start as int, i as int)) > 2147483648,
            !big ==> acc == digits_value(s@.subrange(start as int, i as int)) && acc <= 2147483648,
        decreases n - i,
    {
        let c = s.get_char(i);
        if !('0' <= c && c <= '9') {
            assert(d[i - start] == c);
            assert(!all_digits(d));
            return None;
        }
        let ghost p = s@.subrange(start as int, i + 1);
        assert(p.drop_last() =~= s@.subrange(start as int, i as int));
        assert(p.last() == c);
        proof {
            lemma_digits_value_nonneg(p.drop_last());
        }
        if !big {
            let v = acc * 10 + (c as u64 - '0' as u64);
            if v > 2147483648 {
                big = true;
            } else {
                acc = v;
            }
        }
        i += 1;
    }
    assert(s@.subrange(start as int, i as int) == d);
    if big {
        None
    } else if neg {
        Some((0 - (acc as i64)) as i32)
    } else if acc == 2147483648 {
        None
    } else {
        Some(acc as i32)
    }
}

pub open spec fn is_exp_mark(c: char) -> bool {
    c == 'e' || c == 'E'
}

/// Digits with at most one `.`, at least one digit in all.
pub open spec fn valid_mantissa(m: Seq<char>) -> bool {
    &&& m.len() > 0
    &&& !(m.len() == 1 && m[0] == '.')
    &&& forall|i: int| 0 <= i < m.len() ==> is_digit(#[trigger] m[i]) || m[i] == '.'
    &&& forall|i: int, j: int|
        0 <= i < m.len() && 0 <= j < m.len() && #[trigger] m[i] == '.' && #[trigger] m[j] == '.'
            ==> i == j
}

/// An optional sign and one or more digits.
pub open spec fn valid_exponent(x: Seq<char>) -> bool {
    let d = split_sign(x).1;
    d.len() > 0 && all_digits(d)
}

/// A decimal number: a mantissa, then optionally `e` or `E` and an exponent.
pub open spec fn valid_number(s: Seq<char>) -> bool {
    ||| (forall|i: int| 0 <= i < s.len() ==> !is_exp_mark(#[trigger] s[i])) && valid_mantissa(s)
    ||| exists|k: int|
        0 <= k < s.len() && is_exp_mark(#[trigger] s[k]) && valid_mantissa(s.subrange(0, k))
            && valid_exponent(s.subrange(k + 1, s.len() as int))
}

/// `c` is the lower-case ASCII letter `w`, or its upper-case form.
pub open spec fn same_letter(c: char, w: char) -> bool {
    c == w || (c as u32) + 32 == (w as u32)
}

/// `s` spells the lower-case word `w`, ignoring ASCII case.
pub open spec fn spells(s: Seq<char>, w: Seq<char>) -> bool {
    s.len() == w.len() && forall|i: int| 0 <= i < s.len() ==> same_letter(#[trigger] s[i], w[i])
}

/// Whether `str::parse::<f32>` accepts `s`: an optional sign, then `inf`,
/// `infinity` or `nan` in any case, or a decimal number.
pub open spec fn is_float_text(s: Seq<char>) -> bool {
    let b = split_sign(s).1;
    spells(b, "inf"@) || spells(b, "infinity"@) || spells(b, "nan"@) || valid_number(b)
}

fn spells_at(s: &str, from: usize, w: &str) -> (r: bool)
    requires
        from <= s@.len(),
    ensures
        r == spells(s@.subrange(from as int, s@.len() as int), w@),
{
    let n = s.unicode_len();
    let m = w.unicode_len();
    if n - from != m {
        return false;
    }
    let ghost b = s@.subrange(from as int, n as int);
    let mut i: usize = 0;
    while i < m
        invariant
            i <= m,
            m == w@.len(),
            n == s@.len(),
            n - from == m,
            b == s@.subrange(from as int, n as int),
            forall|j: int| 0 <= j < i ==> same_letter(#[trigger] b[j], w@[j]),
        decreases m - i,
    {
        let c = s.get_char(from + i);
        let x = w.get_char(i);
        assert(b[i as int] == c);
        if !(c == x || (c as u32) + 32 == (x as u32)) {
            return false;
        }
        i += 1;
    }
    true
}

fn mantissa_ok(s: &str, from: usize, to: usize) -> (r: bool)
    requires
        from <= to <= s@.len(),
    ensures
        r == valid_mantissa(s@.subrange(from as int, to as int)),
{
    let ghost m = s@.subrange(from as int, to as int);
    if to == from {
        return false;
    }
    if to - from == 1 && s.get_char(from) == '.' {
        assert(m[0] == '.');
        return false;
    }
    let mut dots: usize = 0;
    let ghost mut dot_at: int = 0;
    let mut i: usize = from;
    while i < to
        invariant
            from <= i <= to,
            to <= s@.len(),
            m == s@.subrange(from as int, to as int),
            dots <= 1,
            forall|j: int| 0 <= j < i - from ==> is_digit(#[trigger] m[j]) || m[j] == '.',
            dots == 0 ==> forall|j: int| 0 <= j < i - from ==> #[trigger] m[j] != '.',
            dots == 1 ==> 0 <= dot_at < i - from && m[dot_at] == '.',
            dots == 1 ==> forall|j: int| 0 <= j < i - from && j != dot_at ==> #[trigger] m[j] != '.',
        decreases to - i,
    {
        let c = s.get_char(i);
        assert(m[i - from] == c);
        if c == '.' {
            if dots == 1 {
                assert(m[dot_at] == '.' && m[i - from] == '.');
                return false;
            }
            dots = 1;
            proof {
                dot_at = i - from;
            }
        } else if !('0' <= c && c <= '9') {
            return false;
        }
        i += 1;
    }
    proof {
        assert forall|a: int, b: int|
            0 <= a < m.len() && 0 <= b < m.len() && #[trigger] m[a] == '.' && #[trigger] m[b] == '.'
            implies a == b by {
            if dots == 1 {
                assert(a == dot_at && b == dot_at);
            }
        }
    }
    true
}

fn exponent_ok(s: &str, from: usize) -> (r: bool)
    requires
        from <= s@.len(),
    ensures
        r == valid_exponent(s@.subrange(from as int, s@.len() as int)),
{
    let n = s.unicode_len();
    let ghost x = s@.subrange(from as int, n as int);
    let mut i: usize = from;
    if from < n {
        let c = s.get_char(from);
        if c == '+' || c == '-' {
            i = from + 1;
        }
    }
    let ghost d = s@.subrange(i as int, n as int);
    assert(split_sign(x).1 == d) by {
        if i > from {
            assert(x.drop_first() =~= d);
        } else {
            assert(x =~= d);
        }
    }
    if i == n {
        return false;
    }
    let start = i;
    while i < n
        invariant
            start <= i <= n,
            n == s@.len(),
            d == s@.subrange(start as int, n as int),
            x == s@.subrange(from as int, n as int),
            split_sign(x).1 == d,
            forall|j: int| 0 <= j < i - start ==> is_digit(#[trigger] d[j]),
        decreases n - i,
    {
        let c = s.get_char(i);
        assert(d[i - start] == c);
        if !('0' <= c && c <= '9') {
            assert(!all_digits(d));
            return false;
        }
        i += 1;
    }
    true
}

/// Whether `s` is text that `str::parse::<f32>` turns into a number.
pub fn is_float_literal(s: &str) -> (r: bool)
    ensures
        r == is_float_text(s@),
{
    let n = s.unicode_len();
    let mut b: usize = 0;
    if n > 0 {
        let c0 = s.get_char(0);
        if c0 == '+' || c0 == '-' {
            b = 1;
        }
    }
    let ghost body = s@.subrange(b as int, n as int);
    assert(split_sign(s@).1 == body) by {
        if b == 1 {
            assert(s@.drop_first() =~= body);
        } else {
            assert(s@ =~= body);
        }
    }
    if spells_at(s, b, "inf") || spells_at(s, b, "infinity") || spells_at(s, b, "nan") {
        return true;
    }
    let mut k: usize = b;
    while k < n
        invariant
            b <= k <= n,
            n == s@.len(),
            body == s@.subrange(b as int, n as int),
            forall|j: int| 0 <= j < k - b ==> !is_exp_mark(#[trigger] body[j]),
        ensures
            b <= k <= n,
            forall|j: int| 0 <= j < k - b ==> !is_exp_mark(#[trigger] body[j]),
            k < n ==> is_exp_mark(body[k - b]),
        decreases n - k,
    {
        let c = s.get_char(k);
        assert(body[k - b] == c);
        if c == 'e' || c == 'E' {
            break;
        }
        k += 1;
    }
    let ghost kk: int = k - b;
    assert(s@.subrange(b as int, k as int) =~= body.subrange(0, kk));
    let mant = mantissa_ok(s, b, k);
    if k == n {
        assert(body.subrange(0, kk) =~= body);
        proof {
            assert forall|q: int| 0 <= q < body.len() implies !is_exp_mark(#[trigger] body[q]) by {}
        }
        return mant;
    }
    assert(is_exp_mark(body[kk]));
    let exp = exponent_ok(s, k + 1);
    assert(s@.subrange(k + 1, n as int) =~= body.subrange(kk + 1, body.len() as int));
    if mant && exp {
        return true;
    }
    proof {
        assert forall|q: int|
            0 <= q < body.len() && is_exp_mark(#[trigger] body[q]) && valid_mantissa(body.subrange(0, q))
            implies !valid_exponent(body.subrange(q + 1, body.len() as int)) by {
            if q > kk {
                assert(body.subrange(0, q)[kk] == body[kk]);
            }
        }
    }
    false
}

} // verus!
