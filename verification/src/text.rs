//! Character-level text primitives shared by every parser and renderer in the
//! crate: the mathematical meaning of trimming, searching, splitting and line
//! breaking over `Seq<char>`, and executable versions proved against it.
//!
//! Executable helpers work on a window `lo..hi` of a `&[char]`, so a parser can
//! take a string apart without copying it.
use vstd::prelude::*;
use vstd::utf8::{char_is_scalar, encode_scalar, encode_utf8};

verus! {

// ---------------------------------------------------------------------------
// First / last index satisfying a predicate
// ---------------------------------------------------------------------------

/// The smallest `i` in `from..n` with `p(i)`, if any.
pub open spec fn first_from(from: int, n: int, p: spec_fn(int) -> bool) -> Option<int>
    decreases n - from,
{
    if from >= n {
        None
    } else if p(from) {
        Some(from)
    } else {
        first_from(from + 1, n, p)
    }
}

/// The smallest `i` in `0..n` with `p(i)`, if any.
pub open spec fn first_index(n: int, p: spec_fn(int) -> bool) -> Option<int> {
    first_from(0, n, p)
}

/// The largest `i` in `0..hi` with `p(i)`, if any.
pub open spec fn last_index(hi: int, p: spec_fn(int) -> bool) -> Option<int>
    decreases hi,
{
    if hi <= 0 {
        None
    } else if p(hi - 1) {
        Some(hi - 1)
    } else {
        last_index(hi - 1, p)
    }
}

pub proof fn lemma_first_from(from: int, n: int, p: spec_fn(int) -> bool)
    requires
        0 <= from,
    ensures
        match first_from(from, n, p) {
            Some(i) => from <= i < n && p(i) && forall|j: int| from <= j < i ==> !#[trigger] p(j),
            None => forall|j: int| from <= j < n ==> !#[trigger] p(j),
        },
    decreases n - from,
{
    if from < n && !p(from) {
        lemma_first_from(from + 1, n, p);
    }
}

pub proof fn lemma_first_index(n: int, p: spec_fn(int) -> bool)
    ensures
        match first_index(n, p) {
            Some(i) => 0 <= i < n && p(i) && forall|j: int| 0 <= j < i ==> !#[trigger] p(j),
            None => forall|j: int| 0 <= j < n ==> !#[trigger] p(j),
        },
{
    lemma_first_from(0, n, p);
}

/// A first witness is the answer.
pub proof fn lemma_first_index_is(n: int, p: spec_fn(int) -> bool, i: int)
    requires
        0 <= i < n,
        p(i),
        forall|j: int| 0 <= j < i ==> !#[trigger] p(j),
    ensures
        first_index(n, p) == Some(i),
{
    lemma_first_index(n, p);
}

/// No witness, no answer.
pub proof fn lemma_first_index_none(n: int, p: spec_fn(int) -> bool)
    requires
        forall|j: int| 0 <= j < n ==> !#[trigger] p(j),
    ensures
        first_index(n, p) is None,
{
    lemma_first_index(n, p);
}

pub proof fn lemma_last_index(hi: int, p: spec_fn(int) -> bool)
    ensures
        match last_index(hi, p) {
            Some(i) => 0 <= i < hi && p(i) && forall|j: int| i < j < hi ==> !#[trigger] p(j),
            None => forall|j: int| 0 <= j < hi ==> !#[trigger] p(j),
        },
    decreases hi,
{
    if hi > 0 && !p(hi - 1) {
        lemma_last_index(hi - 1, p);
    }
}

pub proof fn lemma_last_index_is(hi: int, p: spec_fn(int) -> bool, i: int)
    requires
        0 <= i < hi,
        p(i),
        forall|j: int| i < j < hi ==> !#[trigger] p(j),
    ensures
        last_index(hi, p) == Some(i),
{
    lemma_last_index(hi, p);
}

pub proof fn lemma_last_index_none(hi: int, p: spec_fn(int) -> bool)
    requires
        forall|j: int| 0 <= j < hi ==> !#[trigger] p(j),
    ensures
        last_index(hi, p) is None,
{
    lemma_last_index(hi, p);
}

// ---------------------------------------------------------------------------
// Character classes
// ---------------------------------------------------------------------------

/// Unicode `White_Space`, the set `char::is_whitespace` and `str::trim` use.
pub open spec fn is_ws(c: char) -> bool {
    let u = c as u32;
    (9 <= u <= 13) || u == 32 || u == 0x85 || u == 0xa0 || u == 0x1680 || (0x2000 <= u
        <= 0x200a) || u == 0x2028 || u == 0x2029 || u == 0x202f || u == 0x205f || u == 0x3000
}

pub open spec fn is_digit(c: char) -> bool {
    '0' <= c <= '9'
}

pub open spec fn is_lower(c: char) -> bool {
    'a' <= c <= 'z'
}

pub open spec fn is_upper(c: char) -> bool {
    'A' <= c <= 'Z'
}

pub open spec fn is_alnum(c: char) -> bool {
    is_digit(c) || is_lower(c) || is_upper(c)
}

pub fn ws(c: char) -> (r: bool)
    ensures
        r == is_ws(c),
{
    let u = c as u32;
    (9 <= u && u <= 13) || u == 32 || u == 0x85 || u == 0xa0 || u == 0x1680 || (0x2000 <= u && u
        <= 0x200a) || u == 0x2028 || u == 0x2029 || u == 0x202f || u == 0x205f || u == 0x3000
}

pub fn digit(c: char) -> (r: bool)
    ensures
        r == is_digit(c),
{
    '0' <= c && c <= '9'
}

pub fn alnum(c: char) -> (r: bool)
    ensures
        r == is_alnum(c),
{
    ('0' <= c && c <= '9') || ('a' <= c && c <= 'z') || ('A' <= c && c <= 'Z')
}

// ---------------------------------------------------------------------------
// Trimming
// ---------------------------------------------------------------------------

pub open spec fn kept(s: Seq<char>, p: spec_fn(char) -> bool) -> spec_fn(int) -> bool {
    |i: int| !p(s[i])
}

/// `s` without its leading characters that satisfy `p`.
pub open spec fn trim_start_by(s: Seq<char>, p: spec_fn(char) -> bool) -> Seq<char> {
    match first_index(s.len() as int, kept(s, p)) {
        Some(i) => s.subrange(i, s.len() as int),
        None => Seq::empty(),
    }
}

/// `s` without its trailing characters that satisfy `p`.
pub open spec fn trim_end_by(s: Seq<char>, p: spec_fn(char) -> bool) -> Seq<char> {
    match last_index(s.len() as int, kept(s, p)) {
        Some(i) => s.subrange(0, i + 1),
        None => Seq::empty(),
    }
}

pub open spec fn ws_pred() -> spec_fn(char) -> bool {
    |c: char| is_ws(c)
}

pub open spec fn set_pred(set: Seq<char>) -> spec_fn(char) -> bool {
    |c: char| set.contains(c)
}

/// `str::trim_start`.
pub open spec fn trim_start(s: Seq<char>) -> Seq<char> {
    trim_start_by(s, ws_pred())
}

/// `str::trim_end`.
pub open spec fn trim_end(s: Seq<char>) -> Seq<char> {
    trim_end_by(s, ws_pred())
}

/// `str::trim`.
pub open spec fn trim(s: Seq<char>) -> Seq<char> {
    trim_end(trim_start(s))
}

/// Index of the first character of `s[lo..hi]` that `p` rejects (or `hi`).
pub fn skip_ws(s: &[char], lo: usize, hi: usize) -> (r: usize)
    requires
        lo <= hi <= s@.len(),
    ensures
        lo <= r <= hi,
        trim_start(s@.subrange(lo as int, hi as int)) == s@.subrange(r as int, hi as int),
        r < hi ==> !is_ws(s@[r as int]),
{
    let ghost w = s@.subrange(lo as int, hi as int);
    let ghost p = kept(w, ws_pred());
    let mut i = lo;
    while i < hi && ws(s[i])
        invariant
            lo <= i <= hi <= s@.len(),
            w == s@.subrange(lo as int, hi as int),
            p == kept(w, ws_pred()),
            forall|j: int| 0 <= j < i - lo ==> !#[trigger] p(j),
        decreases hi - i,
    {
        i += 1;
    }
    proof {
        if i < hi {
            lemma_first_index_is(w.len() as int, p, i - lo);
            assert(w.subrange(i - lo, w.len() as int) =~= s@.subrange(i as int, hi as int));
        } else {
            lemma_first_index_none(w.len() as int, p);
            assert(s@.subrange(i as int, hi as int) =~= Seq::<char>::empty());
        }
    }
    i
}

/// One past the last character of `s[lo..hi]` that is not whitespace (or `lo`).
pub fn skip_ws_back(s: &[char], lo: usize, hi: usize) -> (r: usize)
    requires
        lo <= hi <= s@.len(),
    ensures
        lo <= r <= hi,
        trim_end(s@.subrange(lo as int, hi as int)) == s@.subrange(lo as int, r as int),
        r > lo ==> !is_ws(s@[r - 1]),
{
    let ghost w = s@.subrange(lo as int, hi as int);
    let ghost p = kept(w, ws_pred());
    let mut i = hi;
    while i > lo && ws(s[i - 1])
        invariant
            lo <= i <= hi <= s@.len(),
            w == s@.subrange(lo as int, hi as int),
            p == kept(w, ws_pred()),
            forall|j: int| i - lo <= j < hi - lo ==> !#[trigger] p(j),
        decreases i - lo,
    {
        i -= 1;
    }
    proof {
        if i > lo {
            lemma_last_index_is(w.len() as int, p, i - lo - 1);
            assert(w.subrange(0, i - lo) =~= s@.subrange(lo as int, i as int));
        } else {
            lemma_last_index_none(w.len() as int, p);
            assert(s@.subrange(lo as int, i as int) =~= Seq::<char>::empty());
        }
    }
    i
}

/// `s[lo..hi].trim()` as a window `a..b`.
pub fn trim_window(s: &[char], lo: usize, hi: usize) -> (r: (usize, usize))
    requires
        lo <= hi <= s@.len(),
    ensures
        lo <= r.0 <= r.1 <= hi,
        trim(s@.subrange(lo as int, hi as int)) == s@.subrange(r.0 as int, r.1 as int),
{
    let a = skip_ws(s, lo, hi);
    let b = skip_ws_back(s, a, hi);
    (a, b)
}

/// Whether `c` is one of `set`.
pub fn in_set(c: char, set: &[char]) -> (r: bool)
    ensures
        r == set@.contains(c),
{
    let mut i: usize = 0;
    while i < set.len()
        invariant
            i <= set@.len(),
            forall|j: int| 0 <= j < i ==> set@[j] != c,
        decreases set.len() - i,
    {
        if set[i] == c {
            return true;
        }
        i += 1;
    }
    false
}

/// `s[lo..hi].trim_start_matches(set)` as the index where it begins.
pub fn skip_set(s: &[char], lo: usize, hi: usize, set: &[char]) -> (r: usize)
    requires
        lo <= hi <= s@.len(),
    ensures
        lo <= r <= hi,
        trim_start_by(s@.subrange(lo as int, hi as int), set_pred(set@)) == s@.subrange(
            r as int,
            hi as int,
        ),
{
    let ghost w = s@.subrange(lo as int, hi as int);
    let ghost p = kept(w, set_pred(set@));
    let mut i = lo;
    while i < hi && in_set(s[i], set)
        invariant
            lo <= i <= hi <= s@.len(),
            w == s@.subrange(lo as int, hi as int),
            p == kept(w, set_pred(set@)),
            forall|j: int| 0 <= j < i - lo ==> !#[trigger] p(j),
        decreases hi - i,
    {
        i += 1;
    }
    proof {
        if i < hi {
            lemma_first_index_is(w.len() as int, p, i - lo);
            assert(w.subrange(i - lo, w.len() as int) =~= s@.subrange(i as int, hi as int));
        } else {
            lemma_first_index_none(w.len() as int, p);
            assert(s@.subrange(i as int, hi as int) =~= Seq::<char>::empty());
        }
    }
    i
}

/// `s[lo..hi].trim_end_matches(set)` as the index where it ends.
pub fn skip_set_back(s: &[char], lo: usize, hi: usize, set: &[char]) -> (r: usize)
    requires
        lo <= hi <= s@.len(),
    ensures
        lo <= r <= hi,
        trim_end_by(s@.subrange(lo as int, hi as int), set_pred(set@)) == s@.subrange(
            lo as int,
            r as int,
        ),
{
    let ghost w = s@.subrange(lo as int, hi as int);
    let ghost p = kept(w, set_pred(set@));
    let mut i = hi;
    while i > lo && in_set(s[i - 1], set)
        invariant
            lo <= i <= hi <= s@.len(),
            w == s@.subrange(lo as int, hi as int),
            p == kept(w, set_pred(set@)),
            forall|j: int| i - lo <= j < hi - lo ==> !#[trigger] p(j),
        decreases i - lo,
    {
        i -= 1;
    }
    proof {
        if i > lo {
            lemma_last_index_is(w.len() as int, p, i - lo - 1);
            assert(w.subrange(0, i - lo) =~= s@.subrange(lo as int, i as int));
        } else {
            lemma_last_index_none(w.len() as int, p);
            assert(s@.subrange(lo as int, i as int) =~= Seq::<char>::empty());
        }
    }
    i
}

// ---------------------------------------------------------------------------
// Searching
// ---------------------------------------------------------------------------

pub open spec fn char_is(s: Seq<char>, c: char) -> spec_fn(int) -> bool {
    |i: int| s[i] == c
}

/// `str::find(c)`: the first index of `c`.
pub open spec fn find_char(s: Seq<char>, c: char) -> Option<int> {
    first_index(s.len() as int, char_is(s, c))
}

/// Whether `s` has `p` at offset `i`.
pub open spec fn at(s: Seq<char>, i: int, p: Seq<char>) -> bool {
    0 <= i && i + p.len() <= s.len() && s.subrange(i, i + p.len()) == p
}

/// `str::find(p)`: the first index where `p` occurs.
pub open spec fn at_pred(s: Seq<char>, p: Seq<char>) -> spec_fn(int) -> bool {
    |i: int| at(s, i, p)
}

/// `str::find(p)`: the first index where `p` occurs.
pub open spec fn find_seq(s: Seq<char>, p: Seq<char>) -> Option<int> {
    first_index(s.len() + 1 - p.len(), at_pred(s, p))
}

pub open spec fn contains_seq(s: Seq<char>, p: Seq<char>) -> bool {
    find_seq(s, p) is Some
}

pub open spec fn starts_with(s: Seq<char>, p: Seq<char>) -> bool {
    at(s, 0, p)
}

pub open spec fn ends_with(s: Seq<char>, p: Seq<char>) -> bool {
    p.len() <= s.len() && at(s, s.len() - p.len(), p)
}

/// The first index of `c` in `s[lo..hi]`, as an offset into `s`.
pub fn find_char_in(s: &[char], lo: usize, hi: usize, c: char) -> (r: Option<usize>)
    requires
        lo <= hi <= s@.len(),
    ensures
        match r {
            Some(i) => lo <= i < hi && find_char(s@.subrange(lo as int, hi as int), c) == Some(
                i - lo,
            ),
            None => find_char(s@.subrange(lo as int, hi as int), c) is None,
        },
{
    let ghost w = s@.subrange(lo as int, hi as int);
    let ghost p = char_is(w, c);
    let mut i = lo;
    while i < hi
        invariant
            lo <= i <= hi <= s@.len(),
            w == s@.subrange(lo as int, hi as int),
            p == char_is(w, c),
            forall|j: int| 0 <= j < i - lo ==> !#[trigger] p(j),
        decreases hi - i,
    {
        if s[i] == c {
            proof {
                lemma_first_index_is(w.len() as int, p, i - lo);
            }
            return Some(i);
        }
        i += 1;
    }
    proof {
        lemma_first_index_none(w.len() as int, p);
    }
    None
}

/// Whether `s[lo..hi]` has the characters `p` at offset `i`.
pub fn at_in(s: &[char], lo: usize, hi: usize, i: usize, p: &[char]) -> (r: bool)
    requires
        lo <= hi <= s@.len(),
    ensures
        r == (lo <= i && at(s@.subrange(lo as int, hi as int), i - lo, p@)),
{
    if i < lo || i > hi || p.len() > hi - i {
        return false;
    }
    let mut k: usize = 0;
    while k < p.len()
        invariant
            lo <= i <= hi <= s@.len(),
            i + p@.len() <= hi,
            k <= p@.len(),
            forall|j: int| 0 <= j < k ==> s@[i + j] == p@[j],
        decreases p.len() - k,
    {
        if s[i + k] != p[k] {
            proof {
                let w = s@.subrange(lo as int, hi as int);
                assert(w.subrange(i - lo, i - lo + p@.len())[k as int] != p@[k as int]);
            }
            return false;
        }
        k += 1;
    }
    proof {
        let w = s@.subrange(lo as int, hi as int);
        assert(w.subrange(i - lo, i - lo + p@.len()) =~= p@);
    }
    true
}

/// The first offset of `p` in `s[lo..hi]`, as an offset into `s`.
pub fn find_in(s: &[char], lo: usize, hi: usize, p: &[char]) -> (r: Option<usize>)
    requires
        lo <= hi <= s@.len(),
    ensures
        match r {
            Some(i) => lo <= i && i + p@.len() <= hi && find_seq(
                s@.subrange(lo as int, hi as int),
                p@,
            ) == Some(i - lo),
            None => find_seq(s@.subrange(lo as int, hi as int), p@) is None,
        },
{
    let ghost w = s@.subrange(lo as int, hi as int);
    let ghost pr = at_pred(w, p@);
    let ghost n = w.len() + 1 - p@.len();
    let mut i = lo;
    while i <= hi && p.len() <= hi - i
        invariant
            lo <= i,
            i <= hi + 1,
            hi <= s@.len(),
            w == s@.subrange(lo as int, hi as int),
            pr == at_pred(w, p@),
            n == w.len() + 1 - p@.len(),
            forall|j: int| 0 <= j < i - lo ==> !#[trigger] pr(j),
        decreases hi + 1 - i,
    {
        if at_in(s, lo, hi, i, p) {
            proof {
                lemma_first_index_is(n, pr, i - lo);
            }
            return Some(i);
        }
        if i == hi {
            proof {
                lemma_first_index_none(n, pr);
            }
            return None;
        }
        i += 1;
    }
    proof {
        assert forall|j: int| 0 <= j < n implies !#[trigger] pr(j) by {
            if j >= i - lo {
                assert(j + p@.len() > w.len());
            }
        }
        lemma_first_index_none(n, pr);
    }
    None
}

// ---------------------------------------------------------------------------
// Splitting
// ---------------------------------------------------------------------------

/// `str::split(c)`: always at least one piece.
pub open spec fn split_char(s: Seq<char>, c: char) -> Seq<Seq<char>>
    decreases s.len(),
{
    match find_char(s, c) {
        Some(i) => if 0 <= i < s.len() {
            seq![s.subrange(0, i)] + split_char(s.subrange(i + 1, s.len() as int), c)
        } else {
            seq![s]
        },
        None => seq![s],
    }
}

/// `str::split_once(c)`.
pub open spec fn split_once(s: Seq<char>, c: char) -> Option<(Seq<char>, Seq<char>)> {
    match find_char(s, c) {
        Some(i) => Some((s.subrange(0, i), s.subrange(i + 1, s.len() as int))),
        None => None,
    }
}

/// A line without the `\r` of a `\r\n` ending.
pub open spec fn strip_cr(l: Seq<char>) -> Seq<char> {
    if l.len() > 0 && l.last() == '\r' {
        l.drop_last()
    } else {
        l
    }
}

/// `str::lines`: pieces between `\n`s, a `\r` before a `\n` dropped, and no
/// empty last line for a string that ends with a line break.
pub open spec fn lines(s: Seq<char>) -> Seq<Seq<char>>
    decreases s.len(),
{
    if s.len() == 0 {
        seq![]
    } else {
        match find_char(s, '\n') {
            Some(i) => if 0 <= i < s.len() {
                seq![strip_cr(s.subrange(0, i))] + lines(s.subrange(i + 1, s.len() as int))
            } else {
                seq![s]
            },
            None => seq![s],
        }
    }
}

/// A window `lo..hi` of a character buffer, as the characters it covers.
pub open spec fn win(s: Seq<char>, w: (usize, usize)) -> Seq<char> {
    s.subrange(w.0 as int, w.1 as int)
}

pub open spec fn wins(s: Seq<char>, ws: Seq<(usize, usize)>) -> Seq<Seq<char>> {
    ws.map_values(|w: (usize, usize)| win(s, w))
}

pub open spec fn windows_ok(s: Seq<char>, ws: Seq<(usize, usize)>) -> bool {
    forall|k: int| 0 <= k < ws.len() ==> #[trigger] ws[k].0 <= ws[k].1 <= s.len()
}

/// The lines of `s[lo..hi]`, as windows into `s`.
pub fn lines_in(s: &[char], lo: usize, hi: usize) -> (r: Vec<(usize, usize)>)
    requires
        lo <= hi <= s@.len(),
    ensures
        windows_ok(s@, r@),
        wins(s@, r@) == lines(s@.subrange(lo as int, hi as int)),
{
    let mut out: Vec<(usize, usize)> = Vec::new();
    let mut pos = lo;
    while pos < hi
        invariant
            lo <= pos <= hi <= s@.len(),
            windows_ok(s@, out@),
            lines(s@.subrange(lo as int, hi as int)) == wins(s@, out@) + lines(
                s@.subrange(pos as int, hi as int),
            ),
        decreases hi - pos,
    {
        let ghost rest = s@.subrange(pos as int, hi as int);
        match find_char_in(s, pos, hi, '\n') {
            Some(i) => {
                let e = if i > pos && s[i - 1] == '\r' {
                    i - 1
                } else {
                    i
                };
                proof {
                    assert(strip_cr(rest.subrange(0, i - pos)) =~= s@.subrange(
                        pos as int,
                        e as int,
                    ));
                    assert(rest.subrange(i - pos + 1, rest.len() as int) =~= s@.subrange(
                        i + 1,
                        hi as int,
                    ));
                    assert(wins(s@, out@.push((pos, e))) =~= wins(s@, out@).push(
                        s@.subrange(pos as int, e as int),
                    ));
                }
                out.push((pos, e));
                pos = i + 1;
            },
            None => {
                proof {
                    assert(wins(s@, out@.push((pos, hi))) =~= wins(s@, out@).push(rest));
                    assert(lines(s@.subrange(hi as int, hi as int)) =~= Seq::<Seq<char>>::empty());
                }
                out.push((pos, hi));
                pos = hi;
            },
        }
    }
    proof {
        assert(lines(s@.subrange(pos as int, hi as int)) =~= Seq::<Seq<char>>::empty());
        assert(wins(s@, out@) + Seq::<Seq<char>>::empty() =~= wins(s@, out@));
    }
    out
}

/// The pieces of `s[lo..hi]` between occurrences of `c`, as windows into `s`.
pub fn split_in(s: &[char], lo: usize, hi: usize, c: char) -> (r: Vec<(usize, usize)>)
    requires
        lo <= hi <= s@.len(),
    ensures
        windows_ok(s@, r@),
        r@.len() >= 1,
        wins(s@, r@) == split_char(s@.subrange(lo as int, hi as int), c),
{
    let mut out: Vec<(usize, usize)> = Vec::new();
    let mut pos = lo;
    loop
        invariant
            lo <= pos <= hi <= s@.len(),
            windows_ok(s@, out@),
            split_char(s@.subrange(lo as int, hi as int), c) == wins(s@, out@) + split_char(
                s@.subrange(pos as int, hi as int),
                c,
            ),
        decreases hi - pos,
    {
        let ghost rest = s@.subrange(pos as int, hi as int);
        match find_char_in(s, pos, hi, c) {
            Some(i) => {
                proof {
                    assert(rest.subrange(0, i - pos) =~= s@.subrange(pos as int, i as int));
                    assert(rest.subrange(i - pos + 1, rest.len() as int) =~= s@.subrange(
                        i + 1,
                        hi as int,
                    ));
                    assert(wins(s@, out@.push((pos, i))) =~= wins(s@, out@).push(
                        s@.subrange(pos as int, i as int),
                    ));
                }
                out.push((pos, i));
                pos = i + 1;
            },
            None => {
                proof {
                    assert(wins(s@, out@.push((pos, hi))) =~= wins(s@, out@).push(rest));
                    assert(wins(s@, out@) + seq![rest] =~= wins(s@, out@).push(rest));
                }
                out.push((pos, hi));
                return out;
            },
        }
    }
}

// ---------------------------------------------------------------------------
// Building strings
// ---------------------------------------------------------------------------

/// The characters of a string slice, one per element.
pub fn chars_of(s: &str) -> (out: Vec<char>)
    ensures
        out@ == s@,
{
    let mut out: Vec<char> = Vec::new();
    for c in it: s.chars()
        invariant
            out@ == it.seq().take(it.index() as int),
            it.seq() == s@,
    {
        out.push(c);
    }
    out
}

/// The characters `s[lo..hi]` as a new vector.
pub fn slice_vec(s: &[char], lo: usize, hi: usize) -> (r: Vec<char>)
    requires
        lo <= hi <= s@.len(),
    ensures
        r@ == s@.subrange(lo as int, hi as int),
{
    let mut out: Vec<char> = Vec::new();
    let mut i = lo;
    while i < hi
        invariant
            lo <= i <= hi <= s@.len(),
            out@ == s@.subrange(lo as int, i as int),
        decreases hi - i,
    {
        out.push(s[i]);
        proof {
            assert(s@.subrange(lo as int, i + 1) =~= s@.subrange(lo as int, i as int).push(
                s@[i as int],
            ));
        }
        i += 1;
    }
    out
}

/// Appends one character to a string (`String::push`).
#[verifier::external_body]
pub fn push_char(s: &mut String, c: char)
    ensures
        final(s)@ == old(s)@.push(c),
{
    s.push(c);
}

/// Appends the characters `s[lo..hi]` to `out`.
pub fn push_window(out: &mut String, s: &[char], lo: usize, hi: usize)
    requires
        lo <= hi <= s@.len(),
    ensures
        final(out)@ == old(out)@ + s@.subrange(lo as int, hi as int),
{
    let mut i = lo;
    while i < hi
        invariant
            lo <= i <= hi <= s@.len(),
            out@ == old(out)@ + s@.subrange(lo as int, i as int),
        decreases hi - i,
    {
        proof {
            assert(s@.subrange(lo as int, i + 1) =~= s@.subrange(lo as int, i as int).push(
                s@[i as int],
            ));
        }
        push_char(out, s[i]);
        i += 1;
    }
}

/// The characters `s[lo..hi]` as a new string.
pub fn string_of(s: &[char], lo: usize, hi: usize) -> (r: String)
    requires
        lo <= hi <= s@.len(),
    ensures
        r@ == s@.subrange(lo as int, hi as int),
{
    let mut out = String::new();
    push_window(&mut out, s, lo, hi);
    proof {
        assert(Seq::<char>::empty() + s@.subrange(lo as int, hi as int) =~= s@.subrange(
            lo as int,
            hi as int,
        ));
    }
    out
}

/// A new string holding exactly `s`.
pub fn owned(s: &str) -> (r: String)
    ensures
        r@ == s@,
{
    let mut out = String::new();
    out.append(s);
    proof {
        assert(Seq::<char>::empty() + s@ =~= s@);
    }
    out
}

/// Whether two strings hold the same characters.
pub fn str_eq(a: &str, b: &str) -> (r: bool)
    ensures
        r == (a@ == b@),
{
    let x = chars_of(a);
    let y = chars_of(b);
    proof {
        assert(x@.subrange(0, x@.len() as int) =~= x@);
    }
    window_eq(&x, 0, x.len(), &y)
}

/// Whether `s` begins with `p`.
pub fn str_starts_with(s: &str, p: &str) -> (r: bool)
    ensures
        r == starts_with(s@, p@),
{
    let a = chars_of(s);
    let b = chars_of(p);
    proof {
        assert(a@.subrange(0, a@.len() as int) =~= a@);
    }
    at_in(&a, 0, a.len(), 0, &b)
}

/// Whether `s[lo..hi]` holds exactly the characters `p`.
pub fn window_eq(s: &[char], lo: usize, hi: usize, p: &[char]) -> (r: bool)
    requires
        lo <= hi <= s@.len(),
    ensures
        r == (s@.subrange(lo as int, hi as int) == p@),
{
    if hi - lo != p.len() {
        return false;
    }
    let r = at_in(s, lo, hi, lo, p);
    proof {
        assert(s@.subrange(lo as int, hi as int).subrange(0, p@.len() as int) =~= s@.subrange(
            lo as int,
            hi as int,
        ));
    }
    r
}


// ---------------------------------------------------------------------------
// Byte lengths (what `str::len` counts)
// ---------------------------------------------------------------------------

/// The UTF-8 length of `s` in bytes.
pub open spec fn byte_len(s: Seq<char>) -> nat {
    encode_utf8(s).len()
}

/// The UTF-8 length of one character.
pub open spec fn width(c: char) -> nat {
    if (c as u32) < 0x80 {
        1
    } else if (c as u32) < 0x800 {
        2
    } else if (c as u32) < 0x10000 {
        3
    } else {
        4
    }
}

pub proof fn lemma_width(c: char)
    ensures
        encode_scalar(c as u32).len() == width(c),
{
    char_is_scalar(c);
}

pub proof fn lemma_encode_add(a: Seq<char>, b: Seq<char>)
    ensures
        encode_utf8(a + b) == encode_utf8(a) + encode_utf8(b),
    decreases a.len(),
{
    if a.len() == 0 {
        assert(a + b =~= b);
        assert(encode_utf8(a) + encode_utf8(b) =~= encode_utf8(b));
    } else {
        assert((a + b).drop_first() =~= a.drop_first() + b);
        lemma_encode_add(a.drop_first(), b);
        assert((a + b)[0] == a[0]);
        assert(encode_scalar(a[0] as u32) + (encode_utf8(a.drop_first()) + encode_utf8(b))
            =~= (encode_scalar(a[0] as u32) + encode_utf8(a.drop_first())) + encode_utf8(b));
    }
}

pub proof fn lemma_byte_len_push(s: Seq<char>, c: char)
    ensures
        byte_len(s.push(c)) == byte_len(s) + width(c),
{
    lemma_encode_add(s, seq![c]);
    assert(s + seq![c] =~= s.push(c));
    lemma_width(c);
    assert(seq![c].drop_first() =~= Seq::<char>::empty());
    assert(encode_utf8(Seq::<char>::empty()) =~= Seq::<u8>::empty());
    assert(encode_utf8(seq![c]) =~= encode_scalar(c as u32) + encode_utf8(Seq::<char>::empty()));
    assert(encode_utf8(seq![c]) =~= encode_scalar(c as u32));
}

/// The character index at which byte offset `b` of `s` starts, if `b` is a
/// character boundary.
pub open spec fn char_at_byte(s: Seq<char>, b: int) -> Option<int> {
    first_index(s.len() + 1int, byte_at(s, b))
}

pub open spec fn byte_at(s: Seq<char>, b: int) -> spec_fn(int) -> bool {
    |k: int| byte_len(s.take(k)) == b
}

/// The character index of byte offset `b` in `s[lo..hi]` (relative to `lo`),
/// and the byte length of the whole window capped just past `b`.
pub fn char_index_of_byte(s: &[char], lo: usize, hi: usize, b: usize) -> (r: Option<usize>)
    requires
        lo <= hi <= s@.len(),
    ensures
        r == match char_at_byte(s@.subrange(lo as int, hi as int), b as int) {
            Some(k) => Some(k as usize),
            None => None::<usize>,
        },
        r matches Some(k) ==> k <= hi - lo,
        char_at_byte(s@.subrange(lo as int, hi as int), b as int) matches Some(k) ==> 0 <= k <= hi
            - lo,
{
    let ghost w = s@.subrange(lo as int, hi as int);
    let ghost p = byte_at(w, b as int);
    let mut k: usize = 0;
    let mut acc: usize = 0;
    assert(w.take(0) =~= Seq::<char>::empty());
    while k <= hi - lo
        invariant
            lo <= hi <= s@.len(),
            k <= hi - lo + 1,
            w == s@.subrange(lo as int, hi as int),
            p == byte_at(w, b as int),
            k <= hi - lo ==> acc == byte_len(w.take(k as int)),
            acc <= b,
            forall|j: int| 0 <= j < k ==> byte_len(w.take(j)) < b,
            forall|j: int| 0 <= j < k ==> !#[trigger] p(j),
        decreases hi - lo + 1 - k,
    {
        if acc == b {
            proof {
                lemma_first_index_is(w.len() + 1int, p, k as int);
            }
            return Some(k);
        }
        if k == hi - lo {
            proof {
                lemma_first_index_none(w.len() + 1int, p);
            }
            return None;
        }
        let c = s[lo + k];
        let wd: usize = if (c as u32) < 0x80 {
            1
        } else if (c as u32) < 0x800 {
            2
        } else if (c as u32) < 0x10000 {
            3
        } else {
            4
        };
        proof {
            lemma_byte_len_push(w.take(k as int), c);
            assert(w.take(k + 1) =~= w.take(k as int).push(c));
        }
        if wd > b - acc {
            proof {
                assert forall|j: int| 0 <= j < w.len() + 1int implies !#[trigger] p(j) by {
                    if j > k {
                        lemma_byte_len_mono(w, k + 1, j);
                    }
                }
                lemma_first_index_none(w.len() + 1int, p);
            }
            return None;
        }
        acc = acc + wd;
        k = k + 1;
    }
    proof {
        lemma_first_index_none(w.len() + 1int, p);
    }
    None
}

pub proof fn lemma_byte_len_mono(s: Seq<char>, i: int, j: int)
    requires
        0 <= i <= j <= s.len(),
    ensures
        byte_len(s.take(i)) <= byte_len(s.take(j)),
    decreases j - i,
{
    if i < j {
        lemma_byte_len_mono(s, i, j - 1);
        lemma_byte_len_push(s.take(j - 1), s[j - 1]);
        assert(s.take(j) =~= s.take(j - 1).push(s[j - 1]));
    }
}

/// The byte length of `s[lo..hi]`, capped at `cap`.
pub fn byte_len_capped(s: &[char], lo: usize, hi: usize, cap: usize) -> (r: usize)
    requires
        lo <= hi <= s@.len(),
        cap < usize::MAX - 4,
    ensures
        r == if byte_len(s@.subrange(lo as int, hi as int)) <= cap {
            byte_len(s@.subrange(lo as int, hi as int)) as int
        } else {
            cap + 1
        },
{
    let ghost w = s@.subrange(lo as int, hi as int);
    let mut i = lo;
    let mut acc: usize = 0;
    assert(w.take(0) =~= Seq::<char>::empty());
    while i < hi
        invariant
            lo <= i <= hi <= s@.len(),
            cap < usize::MAX - 4,
            w == s@.subrange(lo as int, hi as int),
            acc <= cap,
            acc == byte_len(w.take(i - lo)),
        decreases hi - i,
    {
        let c = s[i];
        let wd: usize = if (c as u32) < 0x80 {
            1
        } else if (c as u32) < 0x800 {
            2
        } else if (c as u32) < 0x10000 {
            3
        } else {
            4
        };
        proof {
            lemma_byte_len_push(w.take(i - lo), c);
            assert(w.take(i - lo + 1) =~= w.take(i - lo).push(c));
        }
        if acc + wd > cap {
            proof {
                lemma_byte_len_mono(w, i - lo + 1, w.len() as int);
                assert(w.take(w.len() as int) =~= w);
            }
            return cap + 1;
        }
        acc = acc + wd;
        i += 1;
    }
    proof {
        assert(w.take(hi - lo) =~= w);
    }
    acc
}


/// `str::replacen(p, q, 1)`: the first occurrence of `p` replaced by `q`.
pub open spec fn replace_first(s: Seq<char>, p: Seq<char>, q: Seq<char>) -> Seq<char> {
    match find_seq(s, p) {
        Some(i) => s.subrange(0, i) + q + s.subrange(i + p.len(), s.len() as int),
        None => s,
    }
}

/// `str::replace(a, b)` for single characters.
pub open spec fn replace_char(s: Seq<char>, a: char, b: char) -> Seq<char> {
    s.map_values(|c: char| if c == a { b } else { c })
}

/// A first occurrence found by inspection.
pub proof fn lemma_find_seq_is(s: Seq<char>, p: Seq<char>, i: int)
    requires
        at(s, i, p),
        forall|j: int| 0 <= j < i ==> !at(s, j, p),
    ensures
        find_seq(s, p) == Some(i),
{
    let pr = at_pred(s, p);
    assert forall|j: int| 0 <= j < i implies !#[trigger] pr(j) by {}
    lemma_first_index_is(s.len() + 1 - p.len(), pr, i);
}


/// `str::strip_prefix`.
pub open spec fn strip_prefix(s: Seq<char>, p: Seq<char>) -> Option<Seq<char>> {
    if starts_with(s, p) {
        Some(s.subrange(p.len() as int, s.len() as int))
    } else {
        None
    }
}

/// `str::strip_suffix`.
pub open spec fn strip_suffix(s: Seq<char>, p: Seq<char>) -> Option<Seq<char>> {
    if ends_with(s, p) {
        Some(s.subrange(0, s.len() - p.len()))
    } else {
        None
    }
}

/// `str::trim_start_matches(p)` for a string pattern: every leading copy of
/// `p` removed.
pub open spec fn trim_prefix_all(s: Seq<char>, p: Seq<char>) -> Seq<char>
    decreases s.len(),
{
    if p.len() > 0 && starts_with(s, p) {
        trim_prefix_all(s.subrange(p.len() as int, s.len() as int), p)
    } else {
        s
    }
}

/// `str::trim_end_matches(p)` for a string pattern: every trailing copy of
/// `p` removed.
pub open spec fn trim_suffix_all(s: Seq<char>, p: Seq<char>) -> Seq<char>
    decreases s.len(),
{
    if p.len() > 0 && ends_with(s, p) {
        trim_suffix_all(s.subrange(0, s.len() - p.len()), p)
    } else {
        s
    }
}

/// Whether the window `s[lo..hi]` ends with `p`.
pub fn ends_with_in(s: &[char], lo: usize, hi: usize, p: &[char]) -> (r: bool)
    requires
        lo <= hi <= s@.len(),
    ensures
        r == ends_with(s@.subrange(lo as int, hi as int), p@),
{
    if p.len() > hi - lo {
        return false;
    }
    at_in(s, lo, hi, hi - p.len(), p)
}

/// `s[lo..hi].strip_prefix(p)`, as the new start of the window.
pub fn strip_prefix_in(s: &[char], lo: usize, hi: usize, p: &[char]) -> (r: Option<usize>)
    requires
        lo <= hi <= s@.len(),
    ensures
        match r {
            Some(a) => lo <= a <= hi && strip_prefix(s@.subrange(lo as int, hi as int), p@) == Some(
                s@.subrange(a as int, hi as int),
            ),
            None => strip_prefix(s@.subrange(lo as int, hi as int), p@) is None,
        },
{
    if at_in(s, lo, hi, lo, p) {
        proof {
            let w = s@.subrange(lo as int, hi as int);
            assert(w.subrange(p@.len() as int, w.len() as int) =~= s@.subrange(
                lo + p@.len(),
                hi as int,
            ));
        }
        Some(lo + p.len())
    } else {
        None
    }
}

/// `s[lo..hi].strip_suffix(p)`, as the new end of the window.
pub fn strip_suffix_in(s: &[char], lo: usize, hi: usize, p: &[char]) -> (r: Option<usize>)
    requires
        lo <= hi <= s@.len(),
    ensures
        match r {
            Some(b) => lo <= b <= hi && strip_suffix(s@.subrange(lo as int, hi as int), p@) == Some(
                s@.subrange(lo as int, b as int),
            ),
            None => strip_suffix(s@.subrange(lo as int, hi as int), p@) is None,
        },
{
    if ends_with_in(s, lo, hi, p) {
        proof {
            let w = s@.subrange(lo as int, hi as int);
            assert(w.subrange(0, w.len() - p@.len()) =~= s@.subrange(lo as int, hi - p@.len()));
        }
        Some(hi - p.len())
    } else {
        None
    }
}

/// `s[lo..hi].trim_start_matches(p)`, as the new start of the window.
pub fn trim_prefix_all_in(s: &[char], lo: usize, hi: usize, p: &[char]) -> (r: usize)
    requires
        lo <= hi <= s@.len(),
    ensures
        lo <= r <= hi,
        trim_prefix_all(s@.subrange(lo as int, hi as int), p@) == s@.subrange(r as int, hi as int),
{
    let mut a = lo;
    while p.len() > 0 && at_in(s, a, hi, a, p)
        invariant
            lo <= a <= hi <= s@.len(),
            trim_prefix_all(s@.subrange(lo as int, hi as int), p@) == trim_prefix_all(
                s@.subrange(a as int, hi as int),
                p@,
            ),
        decreases hi - a,
    {
        proof {
            let w = s@.subrange(a as int, hi as int);
            assert(w.subrange(p@.len() as int, w.len() as int) =~= s@.subrange(
                a + p@.len(),
                hi as int,
            ));
        }
        a = a + p.len();
    }
    a
}

/// `s[lo..hi].trim_end_matches(p)`, as the new end of the window.
pub fn trim_suffix_all_in(s: &[char], lo: usize, hi: usize, p: &[char]) -> (r: usize)
    requires
        lo <= hi <= s@.len(),
    ensures
        lo <= r <= hi,
        trim_suffix_all(s@.subrange(lo as int, hi as int), p@) == s@.subrange(lo as int, r as int),
{
    let mut b = hi;
    while p.len() > 0 && ends_with_in(s, lo, b, p)
        invariant
            lo <= b <= hi <= s@.len(),
            trim_suffix_all(s@.subrange(lo as int, hi as int), p@) == trim_suffix_all(
                s@.subrange(lo as int, b as int),
                p@,
            ),
        decreases b - lo,
    {
        proof {
            let w = s@.subrange(lo as int, b as int);
            assert(w.subrange(0, w.len() - p@.len()) =~= s@.subrange(lo as int, b - p@.len()));
        }
        b = b - p.len();
    }
    b
}

/// `s.replace(c, "")`.
pub open spec fn remove_char(s: Seq<char>, c: char) -> Seq<char>
    decreases s.len(),
{
    if s.len() == 0 {
        s
    } else if s.last() == c {
        remove_char(s.drop_last(), c)
    } else {
        remove_char(s.drop_last(), c).push(s.last())
    }
}

/// Removing a character commutes with concatenation.
pub proof fn lemma_remove_char_add(a: Seq<char>, b: Seq<char>, c: char)
    ensures
        remove_char(a + b, c) == remove_char(a, c) + remove_char(b, c),
    decreases b.len(),
{
    if b.len() == 0 {
        assert(a + b =~= a);
        assert(remove_char(a, c) + remove_char(b, c) =~= remove_char(a, c));
    } else {
        lemma_remove_char_add(a, b.drop_last(), c);
        assert((a + b).drop_last() =~= a + b.drop_last());
        assert((a + b).last() == b.last());
        if b.last() != c {
            assert(remove_char(a, c) + remove_char(b.drop_last(), c).push(b.last()) =~= (remove_char(
                a,
                c,
            ) + remove_char(b.drop_last(), c)).push(b.last()));
        }
    }
}

/// A text without `c` loses nothing when `c` is removed.
pub proof fn lemma_remove_absent(s: Seq<char>, c: char)
    requires
        !s.contains(c),
    ensures
        remove_char(s, c) == s,
    decreases s.len(),
{
    if s.len() > 0 {
        assert(!s.drop_last().contains(c)) by {
            if s.drop_last().contains(c) {
                let j = choose|j: int| 0 <= j < s.drop_last().len() && s.drop_last()[j] == c;
                assert(s[j] == c);
            }
        }
        lemma_remove_absent(s.drop_last(), c);
        assert(s[s.len() - 1] != c);
        assert(s.drop_last().push(s.last()) =~= s);
    }
}

// ---------------------------------------------------------------------------
// ASCII case
// ---------------------------------------------------------------------------

/// `char::to_ascii_lowercase`: `A`..`Z` become `a`..`z`, every other
/// character is kept.
pub open spec fn lower_char(c: char) -> char {
    if is_upper(c) {
        ((c as u32) + 32) as char
    } else {
        c
    }
}

/// `str::to_ascii_lowercase`, character by character.
pub open spec fn ascii_lower(s: Seq<char>) -> Seq<char> {
    s.map_values(|c: char| lower_char(c))
}

pub fn lower_of(c: char) -> (r: char)
    ensures
        r == lower_char(c),
{
    if 'A' <= c && c <= 'Z' {
        let u = c as u32;
        let b = u as u8;
        assert(b == u) by (bit_vector)
            requires
                65 <= u <= 90,
                b == u as u8,
        ;
        (b + 32) as char
    } else {
        c
    }
}

/// A copy of `s` with ASCII capitals lowered.
pub fn to_ascii_lower(s: &str) -> (r: String)
    ensures
        r@ == ascii_lower(s@),
{
    let cs = chars_of(s);
    let mut out = String::new();
    let mut i: usize = 0;
    while i < cs.len()
        invariant
            i <= cs@.len(),
            cs@ == s@,
            out@ == ascii_lower(cs@.take(i as int)),
        decreases cs.len() - i,
    {
        push_char(&mut out, lower_of(cs[i]));
        proof {
            assert(ascii_lower(cs@.take(i + 1)) =~= ascii_lower(cs@.take(i as int)).push(
                lower_char(cs@[i as int]),
            ));
        }
        i += 1;
    }
    proof {
        assert(cs@.take(cs@.len() as int) =~= cs@);
    }
    out
}

/// `str::eq_ignore_ascii_case`: equal once ASCII capitals are lowered.
pub fn eq_ignore_ascii_case(a: &str, b: &str) -> (r: bool)
    ensures
        r == (ascii_lower(a@) == ascii_lower(b@)),
{
    let x = to_ascii_lower(a);
    let y = to_ascii_lower(b);
    str_eq(x.as_str(), y.as_str())
}

} // verus!
