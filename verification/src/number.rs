//! Unsigned integers read from text, as `from_str_radix` reads them.
use vstd::prelude::*;

verus! {

/// The value of a digit in the given radix, as `char::to_digit` gives it.
pub open spec fn digit_value(c: char, radix: nat) -> Option<nat> {
    let v: int = if '0' <= c && c <= '9' {
        (c as int) - ('0' as int)
    } else if 'a' <= c && c <= 'z' {
        (c as int) - ('a' as int) + 10
    } else if 'A' <= c && c <= 'Z' {
        (c as int) - ('A' as int) + 10
    } else {
        radix as int
    };
    if 0 <= v < radix {
        Some(v as nat)
    } else {
        None
    }
}

/// The value of a string of digits, most significant first; `None` where a
/// character is not a digit.
pub open spec fn digits_value(s: Seq<char>, radix: nat) -> Option<nat>
    decreases s.len(),
{
    if s.len() == 0 {
        Some(0)
    } else {
        match (digits_value(s.drop_last(), radix), digit_value(s.last(), radix)) {
            (Some(v), Some(d)) => Some(v * radix + d),
            _ => None,
        }
    }
}

/// The number that `from_str_radix` reads from `s`: an optional `+`
/// followed by at least one digit, of a value at most `max`; `None` where
/// it reports an error.
pub open spec fn parse_unsigned(s: Seq<char>, radix: nat, max: nat) -> Option<nat> {
    let digits = if s.len() > 1 && s[0] == '+' {
        s.drop_first()
    } else {
        s
    };
    if digits.len() == 0 {
        None
    } else {
        match digits_value(digits, radix) {
            Some(v) => if v <= max {
                Some(v)
            } else {
                None
            },
            None => None,
        }
    }
}

/// The value of a digit (see [`digit_value`]).
fn digit_of(c: char, radix: u32) -> (d: Option<u32>)
    requires
        2 <= radix <= 36,
    ensures
        match digit_value(c, radix as nat) {
            Some(v) => d == Some(v as u32),
            None => d is None,
        },
{
    let v: u32 = if '0' <= c && c <= '9' {
        (c as u32) - ('0' as u32)
    } else if 'a' <= c && c <= 'z' {
        (c as u32) - ('a' as u32) + 10
    } else if 'A' <= c && c <= 'Z' {
        (c as u32) - ('A' as u32) + 10
    } else {
        radix
    };
    if v < radix {
        Some(v)
    } else {
        None
    }
}

/// A longer string of valid digits is worth at least as much as its prefix.
proof fn lemma_digits_prefix(s: Seq<char>, radix: nat, k: int)
    requires
        radix >= 2,
        0 <= k <= s.len(),
        digits_value(s, radix) is Some,
    ensures
        digits_value(s.take(k), radix) is Some,
        digits_value(s.take(k), radix)->0 <= digits_value(s, radix)->0,
    decreases s.len(),
{
    if k < s.len() {
        let p = s.drop_last();
        assert(p.take(k) =~= s.take(k));
        lemma_digits_prefix(p, radix, k);
        let v = digits_value(p, radix)->0;
        let d = digit_value(s.last(), radix)->0;
        assert(v <= v * radix + d) by (nonlinear_arith)
            requires
                radix >= 2,
        ;
    } else {
        assert(s.take(k) =~= s);
    }
}

/// The number that `from_str_radix` reads from `s` (see
/// [`parse_unsigned`]).
pub fn parse_unsigned_chars(s: &[char], radix: u32, max: u64) -> (r: Option<u64>)
    requires
        2 <= radix <= 36,
    ensures
        match parse_unsigned(s@, radix as nat, max as nat) {
            Some(v) => r == Some(v as u64),
            None => r is None,
        },
{
    let n = s.len();
    let start: usize = if n > 1 && s[0] == '+' {
        1
    } else {
        0
    };
    let ghost digits = s@.skip(start as int);
    assert(start == 1 ==> digits =~= s@.drop_first());
    assert(start == 0 ==> digits =~= s@);
    if start == n {
        return None;
    }
    let mut value: u64 = 0;
    let mut i = start;
    assert(digits.take(0) =~= seq![]);
    while i < n
        invariant
            n == s@.len(),
            start <= i <= n,
            2 <= radix <= 36,
            digits == s@.skip(start as int),
            start == (if s@.len() > 1 && s@[0] == '+' { 1int } else { 0int }),
            start < n,
            digits_value(digits.take(i - start), radix as nat) == Some(value as nat),
        decreases n - i,
    {
        let ghost pre = digits.take(i - start + 1);
        assert(pre.drop_last() =~= digits.take(i - start));
        assert(pre.last() == s@[i as int]);
        match digit_of(s[i], radix) {
            None => {
                proof {
                    assert(digit_value(pre.last(), radix as nat) is None);
                    assert(digits_value(pre, radix as nat) is None);
                    if digits_value(digits, radix as nat) is Some {
                        lemma_digits_prefix(digits, radix as nat, i - start + 1);
                    }
                    assert(digits_value(digits, radix as nat) is None);
                    let ds = if s@.len() > 1 && s@[0] == '+' { s@.drop_first() } else { s@ };
                    assert(ds == digits);
                }
                return None;
            },
            Some(d) => {
                let scaled = value.checked_mul(radix as u64);
                let next = match scaled {
                    Some(x) => x.checked_add(d as u64),
                    None => None,
                };
                match next {
                    Some(x) => {
                        value = x;
                    },
                    None => {
                        proof {
                            assert(value * radix + d > u64::MAX) by (nonlinear_arith)
                                requires
                                    scaled is None ==> value * radix > u64::MAX,
                                    scaled matches Some(x) ==> x == value * radix && x + d
                                        > u64::MAX,
                                    d >= 0,
                            ;
                            assert(digits_value(pre, radix as nat) == Some((value * radix + d) as nat));
                            if digits_value(digits, radix as nat) is Some {
                                lemma_digits_prefix(digits, radix as nat, i - start + 1);
                                assert(digits_value(digits, radix as nat)->0 > u64::MAX);
                            }
                            let ds = if s@.len() > 1 && s@[0] == '+' { s@.drop_first() } else { s@ };
                            assert(ds == digits);
                        }
                        return None;
                    },
                }
            },
        }
        i = i + 1;
    }
    assert(digits.take(n - start) =~= digits);
    if value <= max {
        Some(value)
    } else {
        None
    }
}

} // verus!
