//! Decimal text of integers, and `str::parse` / `from_str_radix` for the integer types used.

use vstd::prelude::*;
use crate::text::string_push;

verus! {

/// The ASCII digit for `d < 10`.
pub open spec fn digit_char(d: nat) -> char {
    ((d + 48) as u8) as char
}

/// Decimal digits of `n`, no sign, no leading zeros (`"0"` for zero).
pub open spec fn decimal(n: nat) -> Seq<char>
    decreases n,
{
    if n < 10 {
        seq![digit_char(n)]
    } else {
        decimal(n / 10).push(digit_char(n % 10))
    }
}

/// Decimal text of a signed integer, as `Display` writes it.
pub open spec fn decimal_int(n: int) -> Seq<char> {
    if n < 0 {
        seq!['-'] + decimal((-n) as nat)
    } else {
        decimal(n as nat)
    }
}

/// Appends the decimal digits of `n` to `out`.
pub fn push_u64(out: &mut String, n: u64)
    ensures
        final(out)@ == old(out)@ + decimal(n as nat),
    decreases n,
{
    if n >= 10 {
        push_u64(out, n / 10);
    }
    let d = (n % 10) as u8;
    string_push(out, (d + 48) as char);
    assert(old(out)@ + decimal(n as nat) =~= final(out)@) by {
        if n >= 10 {
            assert(decimal(n as nat) == decimal((n / 10) as nat).push(digit_char((n % 10) as nat)));
        }
    }
}

/// Appends the decimal text of `n` (with `-` when negative) to `out`.
pub fn push_i64(out: &mut String, n: i64)
    ensures
        final(out)@ == old(out)@ + decimal_int(n as int),
{
    if n < 0 {
        string_push(out, '-');
        let m: u64 = if n == i64::MIN {
            9223372036854775808u64
        } else {
            (-n) as u64
        };
        push_u64(out, m);
        assert(final(out)@ =~= old(out)@ + decimal_int(n as int));
    } else {
        push_u64(out, n as u64);
    }
}

/// The decimal text of `n` (`u64::to_string`).
pub fn u64_string(n: u64) -> (res: String)
    ensures
        res@ == decimal(n as nat),
{
    let mut s = String::new();
    push_u64(&mut s, n);
    assert(s@ =~= decimal(n as nat));
    s
}

/// The decimal text of `n` (`i64::to_string`).
pub fn i64_string(n: i64) -> (res: String)
    ensures
        res@ == decimal_int(n as int),
{
    let mut s = String::new();
    push_i64(&mut s, n);
    assert(s@ =~= decimal_int(n as int));
    s
}

/// Value of the digit `c` in base `radix` (10 or 16), as `char::to_digit`.
pub open spec fn digit_value(c: char, radix: nat) -> Option<nat> {
    let v: int = if '0' <= c <= '9' {
        c as int - 48
    } else if 'a' <= c <= 'z' {
        c as int - 97 + 10
    } else if 'A' <= c <= 'Z' {
        c as int - 65 + 10
    } else {
        36
    };
    if v < radix {
        Some(v as nat)
    } else {
        None
    }
}

pub fn digit_value_exec(c: char, radix: u32) -> (res: Option<u32>)
    requires
        radix == 10 || radix == 16,
    ensures
        match res {
            Some(d) => digit_value(c, radix as nat) == Some(d as nat),
            None => digit_value(c, radix as nat) is None,
        },
{
    let v: u32 = if '0' <= c && c <= '9' {
        (c as u32) - 48
    } else if 'a' <= c && c <= 'z' {
        (c as u32) - 97 + 10
    } else if 'A' <= c && c <= 'Z' {
        (c as u32) - 65 + 10
    } else {
        36
    };
    if v < radix {
        Some(v)
    } else {
        None
    }
}

/// All characters of `s` are digits in base `radix`.
pub open spec fn all_digits(s: Seq<char>, radix: nat) -> bool {
    forall|i: int| 0 <= i < s.len() ==> (#[trigger] digit_value(s[i], radix)) is Some
}

/// The number that the digits `s` spell in base `radix`.
pub open spec fn digits_value(s: Seq<char>, radix: nat) -> nat
    decreases s.len(),
{
    if s.len() == 0 {
        0
    } else {
        digits_value(s.drop_last(), radix) * radix + digit_value(s.last(), radix).unwrap_or(0)
    }
}

/// The magnitude that `from_str_radix` reads: `None` on the empty string, on a lone sign and on
/// a non-digit; `minus` tells whether a leading `-` is allowed and was read.
pub open spec fn parse_magnitude(s: Seq<char>, radix: nat, signed: bool) -> Option<(bool, nat)> {
    if s.len() == 0 || (s.len() == 1 && (s[0] == '+' || s[0] == '-')) {
        None
    } else {
        let neg = signed && s[0] == '-';
        let d = if s[0] == '+' || neg {
            s.drop_first()
        } else {
            s
        };
        if all_digits(d, radix) {
            Some((neg, digits_value(d, radix)))
        } else {
            None
        }
    }
}

/// `str::parse::<usize>()`, or `usize::from_str_radix(s, 16)` when `radix` is 16.
pub open spec fn parse_usize(s: Seq<char>, radix: nat) -> Option<usize> {
    match parse_magnitude(s, radix, false) {
        Some((_, v)) => if v <= usize::MAX {
            Some(v as usize)
        } else {
            None
        },
        None => None,
    }
}

/// `str::parse::<i64>()`.
pub open spec fn parse_i64(s: Seq<char>) -> Option<i64> {
    match parse_magnitude(s, 10, true) {
        Some((neg, v)) => {
            let x: int = if neg {
                -v
            } else {
                v as int
            };
            if i64::MIN <= x <= i64::MAX {
                Some(x as i64)
            } else {
                None
            }
        },
        None => None,
    }
}

proof fn lemma_digits_value_prefix(s: Seq<char>, radix: nat, i: int)
    requires
        0 <= i <= s.len(),
        radix >= 1,
    ensures
        digits_value(s.take(i), radix) <= digits_value(s, radix),
    decreases s.len() - i,
{
    if i < s.len() {
        lemma_digits_value_prefix(s.drop_last(), radix, i);
        assert(s.drop_last().take(i) == s.take(i));
        let a = digits_value(s.drop_last(), radix);
        assert(a * radix >= a) by (nonlinear_arith)
            requires
                radix >= 1,
        ;
    } else {
        assert(s.take(i) == s);
    }
}

/// Reads the digits `cs[start..]` in base `radix` into a `u64`; `None` when one is not a digit
/// or the value exceeds `bound`.
fn digits_u64(cs: &Vec<char>, start: usize, radix: u32, bound: u64) -> (res: Option<u64>)
    requires
        start <= cs.len(),
        radix == 10 || radix == 16,
    ensures
        ({
            let d = cs@.skip(start as int);
            match res {
                Some(v) => all_digits(d, radix as nat) && v == digits_value(d, radix as nat) && v
                    <= bound,
                None => !all_digits(d, radix as nat) || digits_value(d, radix as nat) > bound,
            }
        }),
{
    let ghost d = cs@.skip(start as int);
    let mut acc: u64 = 0;
    let mut i: usize = start;
    assert(d.take(0) == Seq::<char>::empty());
    while i < cs.len()
        invariant
            start <= i <= cs.len(),
            radix == 10 || radix == 16,
            d == cs@.skip(start as int),
            all_digits(d.take(i - start), radix as nat),
            acc == digits_value(d.take(i - start), radix as nat),
            acc <= bound,
        decreases cs.len() - i,
    {
        let ghost t = d.take(i - start + 1);
        assert(t.drop_last() == d.take(i - start));
        assert(t.last() == cs@[i as int]);
        match digit_value_exec(cs[i], radix) {
            None => {
                assert(!all_digits(d, radix as nat)) by {
                    assert(d[i - start] == cs@[i as int]);
                }
                return None;
            },
            Some(dv) => {
                let r = radix as u64;
                if dv as u64 > bound || acc > (bound - dv as u64) / r {
                    proof {
                        if dv <= bound {
                            assert(acc * r + dv > bound) by (nonlinear_arith)
                                requires
                                    acc > (bound - dv) / (r as int),
                                    r >= 1,
                                    dv <= bound,
                            ;
                        } else {
                            assert(acc * r + dv > bound) by (nonlinear_arith)
                                requires
                                    acc >= 0,
                                    r >= 1,
                                    dv > bound,
                            ;
                        }
                        lemma_digits_value_prefix(d, radix as nat, i - start + 1);
                    }
                    return None;
                }
                assert(acc * r + dv <= bound) by (nonlinear_arith)
                    requires
                        acc <= (bound - dv) / (r as int),
                        r >= 1,
                        dv <= bound,
                ;
                acc = acc * r + dv as u64;
                i += 1;
                assert(all_digits(d.take(i - start), radix as nat)) by {
                    assert forall|j: int| 0 <= j < i - start implies (#[trigger] digit_value(
                        d.take(i - start)[j],
                        radix as nat,
                    )) is Some by {
                        if j < i - start - 1 {
                            assert(d.take(i - start)[j] == d.take(i - start - 1)[j]);
                        }
                    }
                }
            },
        }
    }
    assert(d.take(i - start) == d);
    Some(acc)
}

/// `s.parse::<usize>()` (radix 10) or `usize::from_str_radix(s, 16)`, over the characters `cs`.
pub fn parse_usize_chars(cs: &Vec<char>, radix: u32) -> (res: Option<usize>)
    requires
        radix == 10 || radix == 16,
    ensures
        res == parse_usize(cs@, radix as nat),
{
    if cs.len() == 0 || (cs.len() == 1 && (cs[0] == '+' || cs[0] == '-')) {
        return None;
    }
    let start: usize = if cs[0] == '+' {
        1
    } else {
        0
    };
    assert(cs@.skip(1) == cs@.drop_first());
    assert(cs@.skip(0) == cs@);
    let bound: u64 = if usize::MAX as u64 <= u64::MAX {
        usize::MAX as u64
    } else {
        u64::MAX
    };
    match digits_u64(cs, start, radix, bound) {
        Some(v) => Some(v as usize),
        None => None,
    }
}

/// `s.parse::<usize>()`.
pub fn parse_usize_exec(s: &str) -> (res: Option<usize>)
    ensures
        res == parse_usize(s@, 10),
{
    let cs = crate::text::chars_of(s);
    parse_usize_chars(&cs, 10)
}

/// `s.parse::<i64>()`.
pub fn parse_i64_exec(s: &str) -> (res: Option<i64>)
    ensures
        res == parse_i64(s@),
{
    let cs = crate::text::chars_of(s);
    if cs.len() == 0 || (cs.len() == 1 && (cs[0] == '+' || cs[0] == '-')) {
        return None;
    }
    let neg = cs[0] == '-';
    let start: usize = if cs[0] == '+' || neg {
        1
    } else {
        0
    };
    assert(cs@.skip(1) == cs@.drop_first());
    assert(cs@.skip(0) == cs@);
    let bound: u64 = if neg {
        9223372036854775808u64
    } else {
        9223372036854775807u64
    };
    match digits_u64(&cs, start, 10, bound) {
        Some(v) => {
            if neg {
                if v == 9223372036854775808u64 {
                    Some(i64::MIN)
                } else {
                    Some(-(v as i64))
                }
            } else {
                Some(v as i64)
            }
        },
        None => None,
    }
}

proof fn lemma_decimal_digits(n: nat)
    ensures
        decimal(n).len() >= 1,
        all_digits(decimal(n), 10),
        digits_value(decimal(n), 10) == n,
        '0' <= decimal(n)[0] <= '9',
    decreases n,
{
    if n >= 10 {
        lemma_decimal_digits(n / 10);
        let d = decimal(n / 10);
        let c = digit_char(n % 10);
        assert(decimal(n) == d.push(c));
        assert(decimal(n).drop_last() == d);
        assert(decimal(n).last() == c);
        assert(digit_value(c, 10) == Some((n % 10) as nat));
        assert((n / 10) * 10 + n % 10 == n) by (nonlinear_arith);
        assert(digits_value(decimal(n), 10) == digits_value(d, 10) * 10 + (n % 10));
        assert forall|i: int| 0 <= i < decimal(n).len() implies (#[trigger] digit_value(
            decimal(n)[i],
            10,
        )) is Some by {
            if i < d.len() {
                assert(decimal(n)[i] == d[i]);
            }
        }
        assert(decimal(n)[0] == d[0]);
    } else {
        assert(digit_value(digit_char(n), 10) == Some(n));
        assert(decimal(n).drop_last() =~= Seq::<char>::empty());
        assert(decimal(n).last() == digit_char(n));
        assert(digits_value(decimal(n), 10) == digits_value(Seq::<char>::empty(), 10) * 10 + n);
    }
}

/// The decimal text of a number reads back as that number: a continuation token that a listing
/// page hands out resumes the listing where the page ended.
pub proof fn law_decimal_parses_back(n: usize)
    ensures
        parse_usize(decimal(n as nat), 10) == Some(n),
{
    lemma_decimal_digits(n as nat);
}


/// The decimal text of a number that fits in `i64` is ASCII digits and reads back as that number.
pub proof fn lemma_decimal_reads_as_i64(n: nat)
    requires
        n <= i64::MAX,
    ensures
        decimal(n).len() >= 1,
        forall|i: int| 0 <= i < decimal(n).len() ==> '0' <= #[trigger] decimal(n)[i] <= '9',
        parse_i64(decimal(n)) == Some(n as i64),
{
    lemma_decimal_digits(n);
    let d = decimal(n);
    assert forall|i: int| 0 <= i < d.len() implies '0' <= #[trigger] d[i] <= '9' by {
        assert(digit_value(d[i], 10) is Some);
    }
    assert(d[0] != '+' && d[0] != '-');
    assert(parse_magnitude(d, 10, true) == Some((false, n)));
}

} // verus!
