//! The hourly order-book snapshots in R2: which dates and slugs a request may
//! name, the UTC date of an instant, and the instant a snapshot key stands
//! for.
use vstd::prelude::*;

use crate::data::{read_ymd, ymd};
use crate::dates::{
    civil_date, civil_days, civil_fits, civil_from_days, days_fit, days_from_civil,
    lemma_cfd_ranges, cfd_day, cfd_doy, cfd_mp, cfd_year, cfd_era, cfd_z,
};
use crate::number::{dec, parse_u64, parse_u64_in, push_dec};
use crate::text::{
    byte_len, byte_len_capped, char_at_byte, char_index_of_byte, chars_of, find_char_in, is_digit,
    is_lower, split_once, strip_prefix, strip_prefix_in,
};

verus! {

// ---------------------------------------------------------------------------
// What a request may name
// ---------------------------------------------------------------------------

/// `YYYY-MM-DD` in shape: ten ASCII characters, `-` at positions 4 and 7,
/// digits everywhere else.
pub open spec fn is_valid_date(s: Seq<char>) -> bool {
    &&& s.len() == 10
    &&& forall|i: int|
        0 <= i < 10 ==> if i == 4 || i == 7 {
            #[trigger] s[i] == '-'
        } else {
            is_digit(s[i])
        }
}

pub fn valid_date(s: &str) -> (r: bool)
    ensures
        r == is_valid_date(s@),
{
    let c = chars_of(s);
    if c.len() != 10 {
        return false;
    }
    let mut i: usize = 0;
    while i < 10
        invariant
            i <= 10,
            c@.len() == 10,
            c@ == s@,
            forall|j: int|
                0 <= j < i ==> if j == 4 || j == 7 {
                    #[trigger] c@[j] == '-'
                } else {
                    is_digit(c@[j])
                },
        decreases 10 - i,
    {
        let ok = if i == 4 || i == 7 {
            c[i] == '-'
        } else {
            '0' <= c[i] && c[i] <= '9'
        };
        if !ok {
            proof {
                assert(!(if i == 4 || i == 7 {
                    c@[i as int] == '-'
                } else {
                    is_digit(c@[i as int])
                }));
            }
            return false;
        }
        i += 1;
    }
    true
}

pub open spec fn slug_char(c: char) -> bool {
    is_lower(c) || is_digit(c) || c == '-'
}

/// A market slug in shape: 1 to 128 bytes of lowercase ASCII letters, digits
/// and `-`.
pub open spec fn is_valid_slug(s: Seq<char>) -> bool {
    &&& s.len() > 0
    &&& byte_len(s) <= 128
    &&& forall|i: int| 0 <= i < s.len() ==> slug_char(#[trigger] s[i])
}

pub fn valid_slug(s: &str) -> (r: bool)
    ensures
        r == is_valid_slug(s@),
{
    let c = chars_of(s);
    let n = c.len();
    proof {
        assert(c@.subrange(0, n as int) =~= c@);
    }
    if n == 0 || byte_len_capped(&c, 0, n, 128) > 128 {
        return false;
    }
    let mut i: usize = 0;
    while i < n
        invariant
            i <= n == c@.len(),
            c@ == s@,
            forall|j: int| 0 <= j < i ==> slug_char(#[trigger] c@[j]),
        decreases n - i,
    {
        let x = c[i];
        if !(('a' <= x && x <= 'z') || ('0' <= x && x <= '9') || x == '-') {
            return false;
        }
        i += 1;
    }
    true
}

// ---------------------------------------------------------------------------
// UTC dates
// ---------------------------------------------------------------------------

/// `s` padded with leading zeros to at least `w` characters.
pub open spec fn zero_pad(s: Seq<char>, w: nat) -> Seq<char> {
    if s.len() >= w {
        s
    } else {
        Seq::new((w - s.len()) as nat, |i: int| '0') + s
    }
}

/// Appends `n` in decimal, zero-padded to `w` digits.
pub fn push_padded(out: &mut String, n: u64, w: usize)
    ensures
        final(out)@ == old(out)@ + zero_pad(dec(n as nat), w as nat),
{
    let ghost digits = dec(n as nat);
    let mut t = String::new();
    push_dec(&mut t, n);
    proof {
        assert(Seq::<char>::empty() + digits =~= digits);
    }
    let len = chars_of(t.as_str()).len();
    let ghost start = out@;
    let mut k: usize = len;
    while k < w
        invariant
            len <= k,
            len == digits.len(),
            out@ == start + Seq::new((k - len) as nat, |i: int| '0'),
            len < w ==> k <= w,
            len >= w ==> k == len,
        decreases w - k,
    {
        crate::text::push_char(out, '0');
        proof {
            assert(Seq::new((k + 1 - len) as nat, |i: int| '0') =~= Seq::new(
                (k - len) as nat,
                |i: int| '0',
            ).push('0'));
        }
        k += 1;
    }
    let ghost zeros = out@;
    out.append(t.as_str());
    proof {
        if digits.len() >= w {
            assert(Seq::new(0nat, |i: int| '0') =~= Seq::<char>::empty());
            assert(zeros =~= start);
        } else {
            assert(k == w);
        }
        assert(out@ =~= start + zero_pad(digits, w as nat));
    }
}

/// Every day within a trillion days of the epoch (far beyond what a 64-bit
/// millisecond count can name) converts without overflow, to a month in
/// 1..=12 and a day of at least 1; from 1970 on the year is not negative.
pub proof fn lemma_days_fit(z: int)
    requires
        -1_000_000_000_000 <= z <= 1_000_000_000_000,
    ensures
        days_fit(z),
        z >= 0 ==> cfd_year(z) >= 0,
        1 <= cfd_day(z),
        1 <= crate::dates::cfd_month(z) <= 12,
{
    lemma_cfd_ranges(z);
    let era = cfd_era(z);
    assert(-7_000_000 <= era <= 7_000_000) by (nonlinear_arith)
        requires
            era == cfd_z(z) / 146_097,
            cfd_z(z) == z + 719_468,
            -1_000_000_000_000 <= z <= 1_000_000_000_000,
    ;
    if z >= 0 {
        assert(era >= 0) by (nonlinear_arith)
            requires
                era == cfd_z(z) / 146_097,
                cfd_z(z) == z + 719_468,
                z >= 0,
        ;
    }
    let doy = cfd_doy(z);
    let mp = cfd_mp(z);
    assert((153 * mp + 2) / 5 <= doy) by (nonlinear_arith)
        requires
            mp == (5 * doy + 2) / 153,
            0 <= doy,
    ;
}

/// The UTC calendar date of `ms` milliseconds after the epoch, as
/// `YYYY-MM-DD`.
pub open spec fn date_string_of(ms: nat) -> Seq<char> {
    let (y, m, d) = civil_date(ms as int / 86_400_000);
    zero_pad(dec(y as nat), 4) + "-"@ + zero_pad(dec(m as nat), 2) + "-"@ + zero_pad(
        dec(d as nat),
        2,
    )
}

/// `YYYY-MM-DD` (UTC) from unix milliseconds.
pub fn date_string(ms: u64) -> (r: String)
    ensures
        r@ == date_string_of(ms as nat),
{
    let days = (ms / 86_400_000) as i64;
    proof {
        lemma_days_fit(days as int);
        lemma_cfd_ranges(days as int);
    }
    let (y, mo, d) = civil_from_days(days);
    let mut out = String::new();
    push_padded(&mut out, y as u64, 4);
    out.append("-");
    push_padded(&mut out, mo as u64, 2);
    out.append("-");
    push_padded(&mut out, d as u64, 2);
    proof {
        assert(out@ =~= date_string_of(ms as nat));
    }
    out
}

// ---------------------------------------------------------------------------
// Snapshot keys
// ---------------------------------------------------------------------------

/// What a key `snapshots/books/<YYYY-MM-DD>/<HH>…` names: its date and the
/// hour read from the first two bytes of the file name.
pub open spec fn key_parts(key: Seq<char>) -> Option<(int, int, int, u64)> {
    match strip_prefix(key, "snapshots/books/"@) {
        Some(rest) => match split_once(rest, '/') {
            Some((date, file)) => match char_at_byte(file, 2) {
                Some(k) => match parse_u64(file.take(k)) {
                    Some(hh) => match ymd(date) {
                        Some((y, m, d)) => Some((y, m, d, hh)),
                        None => None,
                    },
                    None => None,
                },
                None => None,
            },
            None => None,
        },
        None => None,
    }
}

/// Epoch milliseconds of the top of the key's hour; nothing for a key that
/// does not read, a date before 1970 or an hour past 23.
pub open spec fn key_epoch_ms_of(key: Seq<char>) -> Option<int> {
    match key_parts(key) {
        Some((y, m, d, hh)) => {
            let days = civil_days(y, m, d);
            if days < 0 || hh > 23 {
                None
            } else {
                Some(days * 86_400_000 + hh * 3_600_000)
            }
        },
        None => None,
    }
}

/// The keys whose day count is computed without overflow and whose instant
/// fits in a `u64`.
pub open spec fn key_fits(key: Seq<char>) -> bool {
    match key_parts(key) {
        Some((y, m, d, hh)) => civil_fits(y, m, d) && (civil_days(y, m, d) >= 0 && hh <= 23
            ==> civil_days(y, m, d) * 86_400_000 + hh * 3_600_000 <= u64::MAX),
        None => true,
    }
}

/// Epoch ms of `snapshots/books/<YYYY-MM-DD>/<HH>.json.gz` (top of the hour).
pub fn key_epoch_ms(key: &str) -> (r: Option<u64>)
    requires
        key_fits(key@),
    ensures
        match r {
            Some(v) => key_epoch_ms_of(key@) == Some(v as int),
            None => key_epoch_ms_of(key@) is None,
        },
{
    let s = chars_of(key);
    let n = s.len();
    proof {
        assert(s@.subrange(0, n as int) =~= s@);
    }
    let pre = chars_of("snapshots/books/");
    let a = match strip_prefix_in(&s, 0, n, &pre) {
        Some(a) => a,
        None => return None,
    };
    let slash = match find_char_in(&s, a, n, '/') {
        Some(i) => i,
        None => return None,
    };
    let ghost rest = s@.subrange(a as int, n as int);
    let ghost date = s@.subrange(a as int, slash as int);
    let ghost file = s@.subrange(slash + 1, n as int);
    proof {
        assert(rest.subrange(0, slash - a) =~= date);
        assert(rest.subrange(slash - a + 1, rest.len() as int) =~= file);
    }
    let k = match char_index_of_byte(&s, slash + 1, n, 2) {
        Some(k) => k,
        None => return None,
    };
    proof {
        assert(file.take(k as int) =~= s@.subrange(slash + 1, slash + 1 + k));
    }
    let hh = match parse_u64_in(&s, slash + 1, slash + 1 + k) {
        Some(h) => h,
        None => return None,
    };
    let dv = crate::text::slice_vec(&s, a, slash);
    let (y, m, d) = match read_ymd(&dv) {
        Some(t) => t,
        None => return None,
    };
    let days = days_from_civil(y, m, d);
    if days < 0 || hh > 23 {
        return None;
    }
    Some(days as u64 * 86_400_000 + hh * 3_600_000)
}

} // verus!
