//! Parser for human-readable size strings.
//!
//! A size string is an integer with an optional unit letter (`k`, `m`, `g`,
//! `p` for the powers 1 to 4 of 1024) and an optional trailing `b`, all
//! case-insensitive: `1`, `99kb`, `1M`, `60g`. Anything else — an empty
//! string, a sign, trailing garbage, an unknown unit, or a count that does
//! not fit the target integer width — does not parse.

use vstd::prelude::*;
use vstd::string::StringSliceAdditionalSpecFns;

verus! {

/// ASCII codes of the characters the grammar knows.
pub const DIGIT_ZERO: u8 = 48;

pub const DIGIT_NINE: u8 = 57;

pub const LOWER_K: u8 = 107;

pub const UPPER_K: u8 = 75;

pub const LOWER_M: u8 = 109;

pub const UPPER_M: u8 = 77;

pub const LOWER_G: u8 = 103;

pub const UPPER_G: u8 = 71;

pub const LOWER_P: u8 = 112;

pub const UPPER_P: u8 = 80;

pub const LOWER_B: u8 = 98;

pub const UPPER_B: u8 = 66;


/// True for the ASCII digits `0` to `9`.
pub open spec fn is_digit(b: u8) -> bool {
    DIGIT_ZERO <= b && b <= DIGIT_NINE
}

/// True for the unit letters `k`, `m`, `g`, `p`, upper or lower case.
pub open spec fn is_unit(b: u8) -> bool {
    ||| b == LOWER_K
    ||| b == UPPER_K
    ||| b == LOWER_M
    ||| b == UPPER_M
    ||| b == LOWER_G
    ||| b == UPPER_G
    ||| b == LOWER_P
    ||| b == UPPER_P
}

/// True for a trailing `b` or `B`.
pub open spec fn is_b_letter(b: u8) -> bool {
    b == LOWER_B || b == UPPER_B
}

/// The exponent a unit letter stands for: `k` is 1024^1, `m` 1024^2,
/// `g` 1024^3, `p` 1024^4.
pub open spec fn unit_exp(b: u8) -> nat {
    if b == LOWER_K || b == UPPER_K {
        1
    } else if b == LOWER_M || b == UPPER_M {
        2
    } else if b == LOWER_G || b == UPPER_G {
        3
    } else {
        4
    }
}

/// Length of the leading run of ASCII digits.
pub open spec fn digit_run_len(s: Seq<u8>) -> nat
    decreases s.len(),
{
    if s.len() == 0 || !is_digit(s[0]) {
        0
    } else {
        (1 + digit_run_len(s.skip(1))) as nat
    }
}

/// The leading digit run is exactly characterized by a scan from the front:
/// `d` digits followed by the end or a non-digit.
pub proof fn lemma_digit_run_len(s: Seq<u8>, d: int)
    requires
        0 <= d <= s.len(),
        forall|k: int| 0 <= k < d ==> is_digit(#[trigger] s[k]),
        d == s.len() || !is_digit(s[d]),
    ensures
        d == digit_run_len(s),
    decreases s.len(),
{
    if d == 0 {
    } else {
        let t = s.skip(1);
        assert forall|k: int| 0 <= k < d - 1 implies is_digit(#[trigger] t[k]) by {
            assert(t[k] == s[k + 1]);
        }
        lemma_digit_run_len(t, d - 1);
    }
}

/// Numeric value of a sequence of ASCII digits, most significant first.
pub open spec fn digits_value(s: Seq<u8>) -> nat
    decreases s.len(),
{
    if s.len() == 0 {
        0
    } else {
        digits_value(s.drop_last()) * 10 + (s.last() - DIGIT_ZERO) as nat
    }
}

/// A digit run is worth at least any of its prefixes: reading further digits
/// never shrinks the value.
pub proof fn lemma_digits_value_prefix(s: Seq<u8>, j: int)
    requires
        0 <= j <= s.len(),
    ensures
        digits_value(s.take(j)) <= digits_value(s),
    decreases s.len() - j,
{
    if j == s.len() {
        assert(s.take(j) =~= s);
    } else {
        lemma_digits_value_prefix(s, j + 1);
        assert(s.take(j + 1).drop_last() =~= s.take(j));
        assert(digits_value(s.take(j)) <= digits_value(s.take(j + 1)));
    }
}

/// 1024 raised to a unit exponent.
pub open spec fn pow1024(e: nat) -> nat
    decreases e,
{
    if e == 0 {
        1
    } else {
        1024 * pow1024((e - 1) as nat)
    }
}

/// Powers of 1024 are positive.
pub proof fn lemma_pow1024_pos(e: nat)
    ensures
        pow1024(e) >= 1,
    decreases e,
{
    if e > 0 {
        lemma_pow1024_pos((e - 1) as nat);
    }
}

/// The exponent of what follows the digits: nothing or a bare `b` means
/// exponent 0, a unit letter optionally followed by `b` means its exponent,
/// and anything else does not match.
pub open spec fn suffix_exp(t: Seq<u8>) -> Option<nat> {
    if t.len() == 0 {
        Option::Some(0 as nat)
    } else if t.len() == 1 {
        if is_b_letter(t[0]) {
            Option::Some(0 as nat)
        } else if is_unit(t[0]) {
            Option::Some(unit_exp(t[0]))
        } else {
            Option::None
        }
    } else if t.len() == 2 {
        if is_unit(t[0]) && is_b_letter(t[1]) {
            Option::Some(unit_exp(t[0]))
        } else {
            Option::None
        }
    } else {
        Option::None
    }
}

/// The byte count a size string denotes: the leading integer times 1024 to
/// the suffix's exponent, or `None` when the string has no digits or its
/// suffix does not match.
pub open spec fn size_in_bytes(s: Seq<u8>) -> Option<nat> {
    let d = digit_run_len(s) as int;
    if d < 1 {
        Option::None
    } else {
        match suffix_exp(s.skip(d)) {
            Option::Some(e) => Option::Some(digits_value(s.take(d)) * pow1024(e)),
            Option::None => Option::None,
        }
    }
}

/// What a parse of a size string returns: its byte count when the string
/// matches and the count fits in `usize`, `None` otherwise.
pub open spec fn parsed_size(s: Seq<u8>) -> Option<usize> {
    match size_in_bytes(s) {
        Option::Some(v) => if v <= usize::MAX {
            Option::Some(v as usize)
        } else {
            Option::None
        },
        Option::None => Option::None,
    }
}

/// Parses a size string given as raw ASCII bytes.
pub fn parse_memory_bytes(s: &[u8]) -> (r: Option<usize>)
    ensures
        r == parsed_size(s@),
{
    let len = s.len();
    // Measure the leading digit run.
    let mut d: usize = 0;
    while d < len && DIGIT_ZERO <= s[d] && s[d] <= DIGIT_NINE
        invariant
            d <= len,
            len == s@.len(),
            forall|k: int| 0 <= k < d ==> is_digit(#[trigger] s@[k]),
        decreases len - d,
    {
        d = d + 1;
    }
    proof {
        lemma_digit_run_len(s@, d as int);
    }
    if d == 0 {
        return Option::None;
    }
    // Accumulate the digit run's value, tracking overflow of `usize`.
    let mut acc: usize = 0;
    let mut big = false;
    let mut i: usize = 0;
    while i < d
        invariant
            i <= d,
            d <= len,
            len == s@.len(),
            forall|k: int| 0 <= k < d ==> is_digit(#[trigger] s@[k]),
            !big ==> acc == digits_value(s@.take(i as int)),
            big ==> digits_value(s@.take(i as int)) > usize::MAX,
        decreases d - i,
    {
        let c = s[i];
        let dig = (c - DIGIT_ZERO) as usize;
        proof {
            assert(s@.take(i + 1).drop_last() =~= s@.take(i as int));
            assert(s@.take(i + 1).last() == s@[i as int]);
            vstd::arithmetic::div_mod::lemma_fundamental_div_mod(
                (usize::MAX - dig) as int,
                10,
            );
        }
        if big || acc > (usize::MAX - dig) / 10 {
            proof {
                if !big {
                    assert(acc * 10 + dig > usize::MAX);
                }
            }
            big = true;
        } else {
            proof {
                assert(acc * 10 <= ((usize::MAX - dig) / 10) * 10);
            }
            acc = acc * 10 + dig;
        }
        i = i + 1;
    }
    // Classify the suffix.
    let tail_len = len - d;
    proof {
        assert(s@.skip(d as int).len() == tail_len);
        if tail_len >= 1 {
            assert(s@.skip(d as int)[0] == s@[d as int]);
        }
        if tail_len >= 2 {
            assert(s@.skip(d as int)[1] == s@[d + 1]);
        }
    }
    let exp: usize = if tail_len == 0 {
        0
    } else if tail_len == 1 {
        let c = s[d];
        if c == LOWER_B || c == UPPER_B {
            0
        } else if c == LOWER_K || c == UPPER_K {
            1
        } else if c == LOWER_M || c == UPPER_M {
            2
        } else if c == LOWER_G || c == UPPER_G {
            3
        } else if c == LOWER_P || c == UPPER_P {
            4
        } else {
            return Option::None;
        }
    } else if tail_len == 2 {
        let c0 = s[d];
        let c1 = s[d + 1];
        if !(c1 == LOWER_B || c1 == UPPER_B) {
            return Option::None;
        }
        if c0 == LOWER_K || c0 == UPPER_K {
            1
        } else if c0 == LOWER_M || c0 == UPPER_M {
            2
        } else if c0 == LOWER_G || c0 == UPPER_G {
            3
        } else if c0 == LOWER_P || c0 == UPPER_P {
            4
        } else {
            return Option::None;
        }
    } else {
        return Option::None;
    };
    proof {
        assert(suffix_exp(s@.skip(d as int)) == Option::Some(exp as nat));
    }
    let ghost v0 = digits_value(s@.take(d as int));
    let ghost total = v0 * pow1024(exp as nat);
    if big {
        proof {
            lemma_digits_value_prefix(s@.take(d as int), d as int);
            assert(s@.take(d as int).take(d as int) =~= s@.take(d as int));
            lemma_pow1024_pos(exp as nat);
            assert(total >= v0 * 1) by (nonlinear_arith)
                requires
                    total == v0 * pow1024(exp as nat),
                    pow1024(exp as nat) >= 1,
                    v0 >= 0,
            ;
        }
        return Option::None;
    }
    // Scale by the unit, again tracking overflow of `usize`.
    let mut value = acc;
    let mut e: usize = 0;
    while e < exp
        invariant
            e <= exp,
            total == value * pow1024((exp - e) as nat),
            value <= usize::MAX,
            size_in_bytes(s@) == Option::Some(total),
        decreases exp - e,
    {
        proof {
            vstd::arithmetic::div_mod::lemma_fundamental_div_mod(usize::MAX as int, 1024);
            lemma_pow1024_pos((exp - e - 1) as nat);
        }
        if value > usize::MAX / 1024 {
            proof {
                assert(total > usize::MAX) by (nonlinear_arith)
                    requires
                        total == value * pow1024((exp - e) as nat),
                        pow1024((exp - e) as nat) == 1024 * pow1024((exp - e - 1) as nat),
                        pow1024((exp - e - 1) as nat) >= 1,
                        value * 1024 > usize::MAX,
                        value >= 0,
                ;
            }
            return Option::None;
        }
        proof {
            assert(value * 1024 <= (usize::MAX as int / 1024) * 1024);
            assert((value * 1024) * pow1024((exp - e - 1) as nat) == value * pow1024(
                (exp - e) as nat,
            )) by (nonlinear_arith)
                requires
                    pow1024((exp - e) as nat) == 1024 * pow1024((exp - e - 1) as nat),
            ;
        }
        value = value * 1024;
        e = e + 1;
    }
    proof {
        assert(pow1024((exp - e) as nat) == 1);
        assert(total == value) by (nonlinear_arith)
            requires
                total == value * pow1024((exp - e) as nat),
                pow1024((exp - e) as nat) == 1,
        ;
    }
    Option::Some(value)
}

/// Parses a human-readable size string such as `256m`, as configured on the
/// command line. Accepts an integer optionally followed by one of
/// `k`/`m`/`g`/`p` and an optional `b`, upper or lower case; returns the byte
/// count, or `None` when the string does not match or the count overflows.
pub fn parse_memory(s: &str) -> (r: Option<usize>)
    ensures
        r == parsed_size(s.spec_bytes()),
{
    parse_memory_bytes(s.as_bytes())
}

} // verus!
