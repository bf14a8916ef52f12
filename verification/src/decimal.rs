//! Decimal text of integers: rendering (as `{}` formats an integer) and
//! parsing (as `str::parse::<i32>` reads one), with their round trip.
use vstd::prelude::*;

verus! {

/// A character that is one of the ASCII digits `0` to `9`.
pub open spec fn is_digit(c: char) -> bool {
    '0' <= c && c <= '9'
}

/// The value of an ASCII digit.
pub open spec fn digit_value(c: char) -> int {
    c as int - '0' as int
}

/// The ASCII digit of a value below ten.
pub open spec fn digit_char(d: int) -> char {
    if d == 0 { '0' }
    else if d == 1 { '1' }
    else if d == 2 { '2' }
    else if d == 3 { '3' }
    else if d == 4 { '4' }
    else if d == 5 { '5' }
    else if d == 6 { '6' }
    else if d == 7 { '7' }
    else if d == 8 { '8' }
    else { '9' }
}

/// The decimal digits of a natural number, most significant first, without
/// leading zeros (zero is the single digit `0`).
pub open spec fn nat_digits(n: nat) -> Seq<char>
    decreases n,
{
    if n < 10 {
        seq![digit_char(n as int)]
    } else {
        nat_digits(n / 10).push(digit_char((n % 10) as int))
    }
}

/// The decimal text of an integer: a minus sign before the digits of a
/// negative number.
pub open spec fn int_decimal(v: int) -> Seq<char> {
    if v < 0 {
        seq!['-'] + nat_digits((-v) as nat)
    } else {
        nat_digits(v as nat)
    }
}

/// Every character of `s` is a digit.
pub open spec fn all_digits(s: Seq<char>) -> bool {
    forall|i: int| 0 <= i < s.len() ==> #[trigger] is_digit(s[i])
}

/// The value of a string of digits read in base ten.
pub open spec fn digits_value(s: Seq<char>) -> int
    decreases s.len(),
{
    if s.len() == 0 {
        0
    } else {
        digits_value(s.drop_last()) * 10 + digit_value(s.last())
    }
}

/// What `str::parse::<i32>` gives: an optional `+` or `-` followed by one or
/// more digits whose value fits in an `i32`; anything else is refused.
pub open spec fn parse_i32_spec(s: Seq<char>) -> Option<i32> {
    let neg = s.len() > 0 && s[0] == '-';
    let signed = s.len() > 0 && (s[0] == '-' || s[0] == '+');
    let body = if signed { s.drop_first() } else { s };
    let v = if neg { -digits_value(body) } else { digits_value(body) };
    if body.len() > 0 && all_digits(body) && i32::MIN <= v && v <= i32::MAX {
        Some(v as i32)
    } else {
        None
    }
}

pub proof fn lemma_digit_char(d: int)
    requires
        0 <= d < 10,
    ensures
        is_digit(digit_char(d)),
        digit_value(digit_char(d)) == d,
{
}

pub proof fn lemma_digits_value_nonneg(s: Seq<char>)
    requires
        all_digits(s),
    ensures
        digits_value(s) >= 0,
    decreases s.len(),
{
    if s.len() > 0 {
        assert(is_digit(s[s.len() - 1]));
        lemma_digits_value_nonneg(s.drop_last());
    }
}

/// The digits of `n` are digits, there is at least one, and they read back as `n`.
pub proof fn lemma_nat_digits(n: nat)
    ensures
        nat_digits(n).len() > 0,
        all_digits(nat_digits(n)),
        digits_value(nat_digits(n)) == n,
    decreases n,
{
    if n < 10 {
        lemma_digit_char(n as int);
        let s = nat_digits(n);
        assert(s.drop_last() =~= Seq::<char>::empty());
        assert(s.last() == digit_char(n as int));
        assert(digits_value(s) == digits_value(s.drop_last()) * 10 + digit_value(s.last()));
    } else {
        lemma_nat_digits(n / 10);
        lemma_digit_char((n % 10) as int);
        let s = nat_digits(n);
        assert(s.drop_last() =~= nat_digits(n / 10));
        assert(s.last() == digit_char((n % 10) as int));
        assert(digits_value(s) == digits_value(s.drop_last()) * 10 + digit_value(s.last()));
        assert(n == (n / 10) * 10 + n % 10);
        assert forall|i: int| 0 <= i < s.len() implies #[trigger] is_digit(s[i]) by {
            if i < s.len() - 1 {
                assert(s[i] == nat_digits(n / 10)[i]);
            }
        }
    }
}

/// Reading back the decimal text of an `i32` gives the same number.
pub proof fn lemma_parse_int_decimal(v: i32)
    ensures
        parse_i32_spec(int_decimal(v as int)) == Some(v),
{
    let s = int_decimal(v as int);
    if v < 0 {
        let d = nat_digits((-v) as nat);
        lemma_nat_digits((-v) as nat);
        assert(s.drop_first() =~= d);
        assert(s[0] == '-');
    } else {
        let d = nat_digits(v as nat);
        lemma_nat_digits(v as nat);
        assert(is_digit(d[0]));
    }
}

/// Text with no colon: the decimal text of an integer.
pub proof fn lemma_int_decimal_no_colon(v: int)
    ensures
        forall|i: int| 0 <= i < int_decimal(v).len() ==> int_decimal(v)[i] != ':',
        int_decimal(v).len() > 0,
{
    let s = int_decimal(v);
    if v < 0 {
        let d = nat_digits((-v) as nat);
        lemma_nat_digits((-v) as nat);
        assert forall|i: int| 0 <= i < s.len() implies s[i] != ':' by {
            if i > 0 {
                assert(s[i] == d[i - 1]);
                assert(is_digit(d[i - 1]));
            }
        }
    } else {
        lemma_nat_digits(v as nat);
        assert forall|i: int| 0 <= i < s.len() implies s[i] != ':' by {
            assert(is_digit(s[i]));
        }
    }
}

/// Appends one character to a string.
#[verifier::external_body]
pub(crate) fn push_char(s: &mut String, c: char)
    ensures
        final(s)@ == old(s)@.push(c),
{
    s.push(c);
}

fn digit_to_char(d: u64) -> (c: char)
    requires
        d < 10,
    ensures
        c == digit_char(d as int),
{
    if d == 0 { '0' }
    else if d == 1 { '1' }
    else if d == 2 { '2' }
    else if d == 3 { '3' }
    else if d == 4 { '4' }
    else if d == 5 { '5' }
    else if d == 6 { '6' }
    else if d == 7 { '7' }
    else if d == 8 { '8' }
    else { '9' }
}

/// Appends the decimal digits of `n`.
pub fn push_nat_decimal(s: &mut String, n: u64)
    ensures
        final(s)@ == old(s)@ + nat_digits(n as nat),
    decreases n,
{
    if n >= 10 {
        push_nat_decimal(s, n / 10);
    }
    let c = digit_to_char(n % 10);
    push_char(s, c);
    proof {
        if n < 10 {
            assert(nat_digits(n as nat) =~= seq![digit_char(n as int)]);
        }
    }
}

/// Appends the decimal text of `v`, as `{}` formats it.
pub fn push_int_decimal(s: &mut String, v: i64)
    ensures
        final(s)@ == old(s)@ + int_decimal(v as int),
{
    if v < 0 {
        push_char(s, '-');
        let m: u64 = (-(v as i128)) as u64;
        push_nat_decimal(s, m);
    } else {
        push_nat_decimal(s, v as u64);
    }
}

/// Parses the characters `cs[start..end]` as `str::parse::<i32>` does.
pub fn parse_i32_chars(cs: &Vec<char>, start: usize, end: usize) -> (r: Option<i32>)
    requires
        start <= end <= cs.len(),
    ensures
        r == parse_i32_spec(cs@.subrange(start as int, end as int)),
{
    let ghost s = cs@.subrange(start as int, end as int);
    proof {
        if start < end {
            assert(s[0] == cs@[start as int]);
        }
    }
    let mut i = start;
    let mut neg = false;
    if start < end && (cs[start] == '-' || cs[start] == '+') {
        neg = cs[start] == '-';
        i = start + 1;
    }
    let ghost body = s.subrange((i - start) as int, s.len() as int);
    proof {
        if i > start {
            assert(body =~= s.drop_first());
        } else {
            assert(body =~= s);
        }
    }
    if i >= end {
        return None;
    }
    let cap: i64 = 2147483649;
    let mut acc: i64 = 0;
    let body_start = i;
    while i < end
        invariant
            start <= body_start <= i <= end <= cs.len(),
            s == cs@.subrange(start as int, end as int),
            body == cs@.subrange(body_start as int, end as int),
            body == (if s.len() > 0 && (s[0] == '-' || s[0] == '+') { s.drop_first() } else { s }),
            neg == (s.len() > 0 && s[0] == '-'),
            body.len() > 0,
            all_digits(cs@.subrange(body_start as int, i as int)),
            0 <= acc <= cap,
            acc < cap ==> acc == digits_value(cs@.subrange(body_start as int, i as int)),
            acc == cap ==> digits_value(cs@.subrange(body_start as int, i as int)) >= cap,
            cap == 2147483649,
        decreases end - i,
    {
        let c = cs[i];
        if !('0' <= c && c <= '9') {
            proof {
                lemma_non_digit_in_body(cs@, body_start as int, i as int, end as int);
            }
            return None;
        }
        let d = (c as u32 - '0' as u32) as i64;
        proof {
            lemma_digits_step(cs@, body_start as int, i as int);
        }
        if acc < cap {
            let next = acc * 10 + d;
            if next >= cap {
                acc = cap;
            } else {
                acc = next;
            }
        }
        i = i + 1;
    }
    proof {
        assert(cs@.subrange(body_start as int, i as int) =~= body);
        lemma_digits_value_nonneg(body);
    }
    if neg {
        if acc <= 2147483648 {
            Some((-acc) as i32)
        } else {
            None
        }
    } else {
        if acc <= 2147483647 {
            Some(acc as i32)
        } else {
            None
        }
    }
}

proof fn lemma_non_digit_in_body(cs: Seq<char>, a: int, i: int, b: int)
    requires
        0 <= a <= i < b <= cs.len(),
        !is_digit(cs[i]),
    ensures
        !all_digits(cs.subrange(a, b)),
{
    assert(cs.subrange(a, b)[i - a] == cs[i]);
}

proof fn lemma_digits_step(cs: Seq<char>, a: int, i: int)
    requires
        0 <= a <= i < cs.len(),
        all_digits(cs.subrange(a, i)),
        is_digit(cs[i]),
    ensures
        all_digits(cs.subrange(a, i + 1)),
        digits_value(cs.subrange(a, i + 1)) == digits_value(cs.subrange(a, i)) * 10 + digit_value(cs[i]),
        digits_value(cs.subrange(a, i)) >= 0,
{
    let pre = cs.subrange(a, i);
    let post = cs.subrange(a, i + 1);
    assert(post.drop_last() =~= pre);
    assert(post.last() == cs[i]);
    lemma_digits_value_nonneg(pre);
    assert forall|j: int| 0 <= j < post.len() implies #[trigger] is_digit(post[j]) by {
        if j < pre.len() {
            assert(post[j] == pre[j]);
        }
    }
}

/// The characters of a string, one by one.
pub fn str_chars(s: &str) -> (cs: Vec<char>)
    ensures
        cs@ == s@,
{
    let n = s.unicode_len();
    let mut cs: Vec<char> = Vec::new();
    let mut i: usize = 0;
    while i < n
        invariant
            n == s@.len(),
            i <= n,
            cs@ == s@.subrange(0, i as int),
        decreases n - i,
    {
        let c = s.get_char(i);
        cs.push(c);
        i = i + 1;
        proof {
            assert(cs@ =~= s@.subrange(0, i as int));
        }
    }
    proof {
        assert(cs@ =~= s@);
    }
    cs
}

} // verus!
