//! Decimal integers in text: rendering (`to_string`) and parsing (`str::parse`),
//! with the exact meaning of each stated over `Seq<char>`.
use vstd::prelude::*;

use crate::text::{digit, is_digit, push_char};

verus! {

/// The character for a decimal digit.
pub open spec fn digit_char(d: int) -> char {
    (48 + d) as char
}

/// The decimal digits of `n`, most significant first, no leading zeros.
pub open spec fn dec(n: nat) -> Seq<char>
    decreases n,
{
    if n < 10 {
        seq![digit_char(n as int)]
    } else {
        dec(n / 10).push(digit_char((n % 10) as int))
    }
}

/// `i64::to_string` and friends: a `-` before the digits of a negative number.
pub open spec fn int_str(v: int) -> Seq<char> {
    if v < 0 {
        seq!['-'] + dec((-v) as nat)
    } else {
        dec(v as nat)
    }
}

/// The value of a digit character.
pub open spec fn digit_val(c: char) -> int {
    (c as int) - 48
}

pub open spec fn all_digits(s: Seq<char>) -> bool {
    forall|i: int| 0 <= i < s.len() ==> is_digit(#[trigger] s[i])
}

/// The number a string of decimal digits spells.
pub open spec fn digits_val(s: Seq<char>) -> nat
    decreases s.len(),
{
    if s.len() == 0 {
        0
    } else {
        (digits_val(s.drop_last()) * 10 + digit_val(s.last())) as nat
    }
}

/// What `str::parse` accepts for a decimal integer: an optional sign, then at
/// least one ASCII digit, nothing else. `signed` says whether `-` is a sign
/// (for unsigned types it is an invalid digit).
pub open spec fn parse_int(s: Seq<char>, signed: bool) -> Option<int> {
    if s.len() > 0 && (s[0] == '+' || (signed && s[0] == '-')) {
        let rest = s.drop_first();
        if rest.len() > 0 && all_digits(rest) {
            if s[0] == '-' {
                Some(-(digits_val(rest) as int))
            } else {
                Some(digits_val(rest) as int)
            }
        } else {
            None
        }
    } else if s.len() > 0 && all_digits(s) {
        Some(digits_val(s) as int)
    } else {
        None
    }
}

/// `s.parse::<i64>()`.
pub open spec fn parse_i64(s: Seq<char>) -> Option<i64> {
    match parse_int(s, true) {
        Some(v) => if i64::MIN <= v <= i64::MAX {
            Some(v as i64)
        } else {
            None
        },
        None => None,
    }
}

/// `s.parse::<u64>()`.
pub open spec fn parse_u64(s: Seq<char>) -> Option<u64> {
    match parse_int(s, false) {
        Some(v) => if 0 <= v <= u64::MAX {
            Some(v as u64)
        } else {
            None
        },
        None => None,
    }
}

/// `s.parse::<u32>()`.
pub open spec fn parse_u32(s: Seq<char>) -> Option<u32> {
    match parse_int(s, false) {
        Some(v) => if 0 <= v <= u32::MAX {
            Some(v as u32)
        } else {
            None
        },
        None => None,
    }
}

pub proof fn lemma_dec_len(n: nat)
    ensures
        dec(n).len() >= 1,
    decreases n,
{
    if n >= 10 {
        lemma_dec_len(n / 10);
    }
}

/// The digits of `n` spell `n`.
pub proof fn lemma_dec_val(n: nat)
    ensures
        digits_val(dec(n)) == n,
    decreases n,
{
    if n >= 10 {
        lemma_dec_val(n / 10);
        let d = dec(n / 10).push(digit_char((n % 10) as int));
        assert(dec(n) == d);
        assert(d.drop_last() =~= dec(n / 10));
        assert(d.last() == digit_char((n % 10) as int));
        assert(digit_val(digit_char((n % 10) as int)) == (n % 10) as int);
        assert(digits_val(d) == (digits_val(d.drop_last()) * 10 + digit_val(d.last())) as nat);
        assert((n / 10) * 10 + n % 10 == n);
    } else {
        let d = seq![digit_char(n as int)];
        assert(dec(n) == d);
        assert(d.drop_last() =~= Seq::<char>::empty());
        assert(digit_val(digit_char(n as int)) == n as int);
        assert(digits_val(d) == (digits_val(d.drop_last()) * 10 + digit_val(d.last())) as nat);
    }
}

pub proof fn lemma_dec_digits(n: nat)
    ensures
        all_digits(dec(n)),
    decreases n,
{
    if n >= 10 {
        lemma_dec_digits(n / 10);
        assert forall|i: int| 0 <= i < dec(n).len() implies is_digit(#[trigger] dec(n)[i]) by {
            if i < dec(n / 10).len() {
                assert(dec(n)[i] == dec(n / 10)[i]);
            }
        }
    }
}

fn digit_of(d: u64) -> (c: char)
    requires
        d < 10,
    ensures
        c == digit_char(d as int),
{
    match d {
        0 => '0',
        1 => '1',
        2 => '2',
        3 => '3',
        4 => '4',
        5 => '5',
        6 => '6',
        7 => '7',
        8 => '8',
        _ => '9',
    }
}

/// Appends the decimal digits of `n`.
pub fn push_dec(out: &mut String, n: u64)
    ensures
        final(out)@ == old(out)@ + dec(n as nat),
    decreases n,
{
    if n < 10 {
        push_char(out, digit_of(n));
        proof {
            assert(old(out)@.push(digit_char(n as int)) =~= old(out)@ + seq![
                digit_char(n as int),
            ]);
        }
    } else {
        push_dec(out, n / 10);
        push_char(out, digit_of(n % 10));
        proof {
            let a = old(out)@;
            let b = dec((n / 10) as nat);
            assert((a + b).push(digit_char((n % 10) as int)) =~= a + b.push(
                digit_char((n % 10) as int),
            ));
        }
    }
}

/// Appends `v` as `i64::to_string` writes it.
pub fn push_int(out: &mut String, v: i64)
    requires
        v > i64::MIN,
    ensures
        final(out)@ == old(out)@ + int_str(v as int),
{
    if v < 0 {
        push_char(out, '-');
        push_dec(out, (-v) as u64);
        proof {
            assert(old(out)@.push('-') + dec((-v) as nat) =~= old(out)@ + (seq!['-'] + dec(
                (-v) as nat,
            )));
        }
    } else {
        push_dec(out, v as u64);
    }
}

/// `n.to_string()`.
pub fn u64_string(n: u64) -> (r: String)
    ensures
        r@ == dec(n as nat),
{
    let mut out = String::new();
    push_dec(&mut out, n);
    proof {
        assert(Seq::<char>::empty() + dec(n as nat) =~= dec(n as nat));
    }
    out
}

pub open spec fn min_nat(a: nat, b: nat) -> nat {
    if a <= b {
        a
    } else {
        b
    }
}

/// The bound past which a parsed magnitude no longer matters: it fits no
/// 64-bit type either way.
pub open spec fn sat_cap() -> nat {
    0x1_0000_0000_0000_0000
}

/// The value of the digits `s[lo..hi]`, capped at `sat_cap()`; `None` when a
/// character is not a digit.
fn digits_sat(s: &[char], lo: usize, hi: usize) -> (r: Option<u128>)
    requires
        lo <= hi <= s@.len(),
    ensures
        match r {
            Some(v) => all_digits(s@.subrange(lo as int, hi as int)) && v == min_nat(
                digits_val(s@.subrange(lo as int, hi as int)),
                sat_cap(),
            ),
            None => !all_digits(s@.subrange(lo as int, hi as int)),
        },
{
    let cap: u128 = 0x1_0000_0000_0000_0000;
    let mut acc: u128 = 0;
    let mut i = lo;
    while i < hi
        invariant
            lo <= i <= hi <= s@.len(),
            cap == sat_cap(),
            all_digits(s@.subrange(lo as int, i as int)),
            acc == min_nat(digits_val(s@.subrange(lo as int, i as int)), sat_cap()),
        decreases hi - i,
    {
        let c = s[i];
        if !digit(c) {
            proof {
                assert(s@.subrange(lo as int, hi as int)[i - lo] == c);
            }
            return None;
        }
        let d = (c as u32 - 48) as u128;
        let next = acc * 10 + d;
        acc = if next > cap {
            cap
        } else {
            next
        };
        proof {
            let p = s@.subrange(lo as int, i + 1);
            assert(p.drop_last() =~= s@.subrange(lo as int, i as int));
            assert(p.last() == c);
        }
        i += 1;
    }
    Some(acc)
}

/// `s[lo..hi].parse::<i64>()`.
pub fn parse_i64_in(s: &[char], lo: usize, hi: usize) -> (r: Option<i64>)
    requires
        lo <= hi <= s@.len(),
    ensures
        r == parse_i64(s@.subrange(lo as int, hi as int)),
{
    let ghost w = s@.subrange(lo as int, hi as int);
    if lo == hi {
        return None;
    }
    let signed = s[lo] == '+' || s[lo] == '-';
    let start = if signed {
        lo + 1
    } else {
        lo
    };
    if start == hi {
        return None;
    }
    proof {
        if signed {
            assert(w.drop_first() =~= s@.subrange(start as int, hi as int));
        } else {
            assert(w =~= s@.subrange(start as int, hi as int));
        }
    }
    match digits_sat(s, start, hi) {
        None => {
            proof {
                if !signed {
                    assert(!all_digits(w));
                }
            }
            None
        },
        Some(v) => {
            if s[lo] == '-' {
                if v <= 0x8000_0000_0000_0000 {
                    Some((0 - (v as i128)) as i64)
                } else {
                    None
                }
            } else {
                if v <= 0x7fff_ffff_ffff_ffff {
                    Some(v as i64)
                } else {
                    None
                }
            }
        },
    }
}

/// The unsigned parse `s[lo..hi].parse::<u64>()`.
pub fn parse_u64_in(s: &[char], lo: usize, hi: usize) -> (r: Option<u64>)
    requires
        lo <= hi <= s@.len(),
    ensures
        r == parse_u64(s@.subrange(lo as int, hi as int)),
{
    let ghost w = s@.subrange(lo as int, hi as int);
    if lo == hi {
        return None;
    }
    let signed = s[lo] == '+';
    let start = if signed {
        lo + 1
    } else {
        lo
    };
    if start == hi {
        return None;
    }
    proof {
        if signed {
            assert(w.drop_first() =~= s@.subrange(start as int, hi as int));
        } else {
            assert(w =~= s@.subrange(start as int, hi as int));
        }
    }
    match digits_sat(s, start, hi) {
        None => {
            proof {
                if !signed {
                    assert(!all_digits(w));
                }
            }
            None
        },
        Some(v) => {
            if v <= 0xffff_ffff_ffff_ffff {
                Some(v as u64)
            } else {
                None
            }
        },
    }
}

/// `s[lo..hi].parse::<u32>()`.
pub fn parse_u32_in(s: &[char], lo: usize, hi: usize) -> (r: Option<u32>)
    requires
        lo <= hi <= s@.len(),
    ensures
        r == parse_u32(s@.subrange(lo as int, hi as int)),
{
    match parse_u64_in(s, lo, hi) {
        Some(v) => if v <= 0xffff_ffff {
            Some(v as u32)
        } else {
            None
        },
        None => None,
    }
}

} // verus!
