//! Decimal numbers in text.
use vstd::prelude::*;
use crate::text::push_char;

verus! {

pub open spec fn is_digit(c: char) -> bool {
    '0' <= c <= '9'
}

pub open spec fn digit_value(c: char) -> nat {
    (c as u32 - '0' as u32) as nat
}

/// Every character is a decimal digit.
pub open spec fn all_digits(s: Seq<char>) -> bool {
    forall|i: int| 0 <= i < s.len() ==> is_digit(#[trigger] s[i])
}

/// The value of a string of decimal digits.
pub open spec fn digits_value(s: Seq<char>) -> nat
    decreases s.len(),
{
    if s.len() == 0 {
        0
    } else {
        digits_value(s.drop_last()) * 10 + digit_value(s.last())
    }
}

/// What `str::parse::<u64>` gives: an optional `+`, then one or more decimal
/// digits whose value fits in a `u64`; `None` for anything else.
pub open spec fn parsed_u64(s: Seq<char>) -> Option<u64> {
    let d = if s.len() > 0 && s[0] == '+' {
        s.drop_first()
    } else {
        s
    };
    if d.len() == 0 || !all_digits(d) || digits_value(d) > u64::MAX {
        None
    } else {
        Some(digits_value(d) as u64)
    }
}

proof fn lemma_digits_value_mono(s: Seq<char>, k: int)
    requires
        0 <= k <= s.len(),
    ensures
        digits_value(s.take(k)) <= digits_value(s),
    decreases s.len() - k,
{
    if k < s.len() {
        lemma_digits_value_mono(s, k + 1);
        assert(s.take(k + 1).drop_last() =~= s.take(k));
        assert(digits_value(s.take(k + 1)) == digits_value(s.take(k)) * 10 + digit_value(
            s.take(k + 1).last(),
        ));
    } else {
        assert(s.take(k) =~= s);
    }
}

/// Parses `v[from..to]` as `str::parse::<u64>` does.
pub fn parse_u64_range(v: &Vec<char>, from: usize, to: usize) -> (r: Option<u64>)
    requires
        from <= to <= v.len(),
    ensures
        r == parsed_u64(v@.subrange(from as int, to as int)),
{
    let ghost s = v@.subrange(from as int, to as int);
    let mut a = from;
    if a < to && v[a] == '+' {
        a = a + 1;
    }
    let ghost d = v@.subrange(a as int, to as int);
    assert(d =~= (if s.len() > 0 && s[0] == '+' {
        s.drop_first()
    } else {
        s
    }));
    if a == to {
        return None;
    }
    let mut value: u64 = 0;
    let mut i = a;
    while i < to
        invariant
            from <= a <= i <= to <= v.len(),
            d == v@.subrange(a as int, to as int),
            s == v@.subrange(from as int, to as int),
            d == (if s.len() > 0 && s[0] == '+' {
                s.drop_first()
            } else {
                s
            }),
            d.len() > 0,
            all_digits(d.take(i - a)),
            value == digits_value(d.take(i - a)),
        decreases to - i,
    {
        let c = v[i];
        assert(c == d[i - a]);
        if !('0' <= c && c <= '9') {
            assert(!is_digit(d[i - a]));
            assert(!all_digits(d));
            return None;
        }
        let dv = (c as u32 - '0' as u32) as u64;
        assert(d.take(i - a + 1).drop_last() =~= d.take(i - a));
        assert(d.take(i - a + 1).last() == c);
        assert(digits_value(d.take(i - a + 1)) == value * 10 + dv);
        proof {
            lemma_digits_value_mono(d, i - a + 1);
        }
        let m = value.checked_mul(10);
        match m {
            None => {
                return None;
            },
            Some(m) => {
                match m.checked_add(dv) {
                    None => {
                        return None;
                    },
                    Some(n) => {
                        value = n;
                    },
                }
            },
        }
        i = i + 1;
        assert forall|k: int| 0 <= k < i - a implies is_digit(#[trigger] d.take(i - a)[k]) by {
            if k < i - a - 1 {
                assert(d.take(i - a)[k] == d.take(i - a - 1)[k]);
            }
        }
    }
    assert(d.take(to - a) =~= d);
    Some(value)
}

/// Parses `s` as `str::parse::<u64>` does.
pub fn parse_u64(s: &str) -> (r: Option<u64>)
    ensures
        r == parsed_u64(s@),
{
    let v = crate::text::chars_of(s);
    assert(v@.subrange(0, v@.len() as int) =~= v@);
    parse_u64_range(&v, 0, v.len())
}

} // verus!

verus! {

/// What `str::parse::<usize>` gives.
pub open spec fn parsed_usize(s: Seq<char>) -> Option<usize> {
    let d = if s.len() > 0 && s[0] == '+' {
        s.drop_first()
    } else {
        s
    };
    if d.len() == 0 || !all_digits(d) || digits_value(d) > usize::MAX {
        None
    } else {
        Some(digits_value(d) as usize)
    }
}

/// Parses `v[from..to]` as `str::parse::<usize>` does.
pub fn parse_usize_range(v: &Vec<char>, from: usize, to: usize) -> (r: Option<usize>)
    requires
        from <= to <= v.len(),
    ensures
        r == parsed_usize(v@.subrange(from as int, to as int)),
{
    let ghost s = v@.subrange(from as int, to as int);
    let mut a = from;
    if a < to && v[a] == '+' {
        a = a + 1;
    }
    let ghost d = v@.subrange(a as int, to as int);
    assert(d =~= (if s.len() > 0 && s[0] == '+' {
        s.drop_first()
    } else {
        s
    }));
    if a == to {
        return None;
    }
    let mut value: usize = 0;
    let mut i = a;
    while i < to
        invariant
            from <= a <= i <= to <= v.len(),
            d == v@.subrange(a as int, to as int),
            s == v@.subrange(from as int, to as int),
            d == (if s.len() > 0 && s[0] == '+' {
                s.drop_first()
            } else {
                s
            }),
            d.len() > 0,
            all_digits(d.take(i - a)),
            value == digits_value(d.take(i - a)),
        decreases to - i,
    {
        let c = v[i];
        assert(c == d[i - a]);
        if !('0' <= c && c <= '9') {
            assert(!is_digit(d[i - a]));
            assert(!all_digits(d));
            return None;
        }
        let dv = (c as u32 - '0' as u32) as usize;
        assert(d.take(i - a + 1).drop_last() =~= d.take(i - a));
        assert(d.take(i - a + 1).last() == c);
        assert(digits_value(d.take(i - a + 1)) == value * 10 + dv);
        proof {
            lemma_digits_value_mono(d, i - a + 1);
        }
        let m = value.checked_mul(10);
        match m {
            None => {
                return None;
            },
            Some(m) => {
                match m.checked_add(dv) {
                    None => {
                        return None;
                    },
                    Some(n) => {
                        value = n;
                    },
                }
            },
        }
        i = i + 1;
        assert forall|k: int| 0 <= k < i - a implies is_digit(#[trigger] d.take(i - a)[k]) by {
            if k < i - a - 1 {
                assert(d.take(i - a)[k] == d.take(i - a - 1)[k]);
            }
        }
    }
    assert(d.take(to - a) =~= d);
    Some(value)
}

} // verus!

verus! {

/// The digit character of `d` (`d < 10`).
pub open spec fn digit_char(d: nat) -> char {
    ((48 + d) as u8) as char
}

/// `n` written in decimal, as `format!("{n}")` writes it.
pub open spec fn decimal(n: nat) -> Seq<char>
    decreases n,
{
    if n < 10 {
        seq![digit_char(n)]
    } else {
        decimal(n / 10).push(digit_char(n % 10))
    }
}

/// Appends `n` in decimal to `s`.
pub fn push_decimal(s: &mut String, n: u64)
    ensures
        final(s)@ == old(s)@ + decimal(n as nat),
    decreases n,
{
    if n >= 10 {
        push_decimal(s, n / 10);
    }
    let d = (48 + n % 10) as u8;
    push_char(s, d as char);
    assert(final(s)@ =~= old(s)@ + decimal(n as nat));
}

/// Reading back a number written in decimal gives the number.
pub proof fn lemma_decimal_parses(n: nat)
    ensures
        decimal(n).len() > 0,
        decimal(n)[0] != '+',
        all_digits(decimal(n)),
        digits_value(decimal(n)) == n,
    decreases n,
{
    if n >= 10 {
        lemma_decimal_parses(n / 10);
        let d = decimal(n);
        assert(d.drop_last() =~= decimal(n / 10));
        assert forall|i: int| 0 <= i < d.len() implies is_digit(#[trigger] d[i]) by {
            if i < d.len() - 1 {
                assert(d[i] == decimal(n / 10)[i]);
            }
        }
        assert(digit_value(digit_char(n % 10)) == n % 10);
        assert(d.last() == digit_char(n % 10));
        assert(digits_value(d) == digits_value(d.drop_last()) * 10 + digit_value(d.last()));
        assert((n / 10) * 10 + n % 10 == n);
        assert(digits_value(d.drop_last()) == n / 10);
        assert(digits_value(d) == n);
    } else {
        assert(digit_value(digit_char(n)) == n);
        assert(decimal(n).drop_last() =~= Seq::<char>::empty());
        assert(digits_value(Seq::<char>::empty()) == 0);
        assert(decimal(n).last() == digit_char(n));
    }
}

/// `usize::to_string` read back by `str::parse::<usize>`.
pub proof fn lemma_decimal_usize(n: usize)
    ensures
        parsed_usize(decimal(n as nat)) == Some(n),
{
    lemma_decimal_parses(n as nat);
}

/// `x` is how `n` is written in decimal: one or more digits, no leading
/// zero, reading back as `n`.
pub open spec fn writes_number(x: Seq<char>, n: nat) -> bool {
    &&& x.len() > 0
    &&& all_digits(x)
    &&& digits_value(x) == n
    &&& (x.len() == 1 || x[0] != '0')
}

proof fn lemma_decimal_no_leading_zero(n: nat)
    ensures
        n >= 10 ==> decimal(n)[0] != '0',
        decimal(n)[0] == '0' ==> n == 0,
    decreases n,
{
    if n >= 10 {
        lemma_decimal_no_leading_zero(n / 10);
        lemma_decimal_parses(n / 10);
        assert(decimal(n)[0] == decimal(n / 10)[0]);
        if n / 10 < 10 {
            assert(decimal(n / 10)[0] == digit_char(n / 10));
            assert(digit_char(n / 10) != '0');
        }
    } else {
        assert(decimal(n)[0] == digit_char(n));
    }
}

/// `n` in decimal is how `n` is written.
pub proof fn lemma_decimal_writes(n: nat)
    ensures
        writes_number(decimal(n), n),
{
    lemma_decimal_parses(n);
    lemma_decimal_no_leading_zero(n);
    if n >= 10 {
        assert(decimal(n).len() > 1) by {
            assert(decimal(n) == decimal(n / 10).push(digit_char(n % 10)));
            lemma_decimal_parses(n / 10);
        }
    } else {
        assert(decimal(n).len() == 1);
    }
}

} // verus!
