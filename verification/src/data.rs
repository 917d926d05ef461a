//! Repository data parsing: the CSV tables, path-listing discovery, path
//! safety and the date readers the pages use.
use vstd::prelude::*;

pub use crate::dates::days_from_civil;
use crate::config::{
    int_at, int_of, key_is, path_value, str_at, string_list_of, table_get, text_of, tlist,
    toml_of, toml_tree_of, tstr, TomlTable,
};
use crate::dates::{civil_days, civil_fits, i64_ok};
use crate::sort::views;
use crate::number::{parse_i64, parse_i64_in};
use crate::text::{
    chars_of, owned, string_of, trim, trim_window, find_char_in, set_pred, skip_set_back, split_char, split_in, split_once, trim_end_by, win,
    wins,
};

verus! {

// ---------------------------------------------------------------------------
// Reads
// ---------------------------------------------------------------------------

/// A repo file as read at request time.
pub struct Doc {
    pub text: String,
    /// true ⇒ came from GitHub at request time.
    pub live: bool,
}

impl Doc {
    /// Whether the file holds nothing but whitespace.
    pub fn is_empty(&self) -> (r: bool)
        ensures
            r == (trim(self.text@).len() == 0),
    {
        let cs = chars_of(self.text.as_str());
        proof {
            assert(cs@.subrange(0, cs@.len() as int) =~= cs@);
        }
        let (a, b) = trim_window(&cs, 0, cs.len());
        a == b
    }
}

// ---------------------------------------------------------------------------
// Strategy variant manifests
// ---------------------------------------------------------------------------

/// Everything `strategy.toml` declares about one variant. `summary` is the
/// one-line description used in tables and lists; `explainer` the longer
/// lede on the variant's own page.
pub struct VariantMeta {
    pub family: String,
    pub variant: String,
    pub summary: String,
    pub explainer: String,
    pub status: String,
    pub created: String,
    pub supersedes: String,
    pub labels: Vec<String>,
    pub slot: Option<i64>,
    pub trial_started: String,
    pub review_due: String,
    pub success_guideline: String,
    pub retired_on: String,
    pub retire_reason: String,
    /// `parked`: the thesis held, there is just no board to trade right now.
    pub parked_on: String,
    pub park_reason: String,
    pub reopen_when: String,
}

impl VariantMeta {
    /// `family/variant`.
    pub fn key(&self) -> (r: String)
        ensures
            r@ == self.family@ + "/"@ + self.variant@,
    {
        let mut out = owned(self.family.as_str());
        out.append("/");
        out.append(self.variant.as_str());
        out
    }

    /// The variant's page.
    pub fn href(&self) -> (r: String)
        ensures
            r@ == "/strategies/"@ + self.family@ + "/"@ + self.variant@,
    {
        let mut out = owned("/strategies/");
        out.append(self.family.as_str());
        out.append("/");
        out.append(self.variant.as_str());
        out
    }
}

/// The string at a two-key path of a manifest.
pub open spec fn manifest_str(t: TomlTable, a: Seq<char>, b: Seq<char>) -> Seq<char> {
    text_of(path_value(t, seq![a, b]))
}

/// `s.trim()` as a new string.
fn trimmed_str(s: &str) -> (r: String)
    ensures
        r@ == trim(s@),
{
    let cs = chars_of(s);
    proof {
        assert(cs@.subrange(0, cs@.len() as int) =~= cs@);
    }
    let (a, b) = trim_window(&cs, 0, cs.len());
    string_of(&cs, a, b)
}

/// `m` is the manifest of `family/variant` as the table `t` reads: every
/// field the table lacks (or holds with another type) is empty.
pub open spec fn meta_reads(m: VariantMeta, family: Seq<char>, variant: Seq<char>, t: TomlTable) -> bool {
    &&& m.family@ == family
    &&& m.variant@ == variant
    &&& m.summary@ == text_of(table_get(t, "summary"@))
    &&& m.explainer@ == trim(text_of(table_get(t, "explainer"@)))
    &&& m.status@ == text_of(table_get(t, "status"@))
    &&& m.created@ == text_of(table_get(t, "created"@))
    &&& m.supersedes@ == text_of(table_get(t, "supersedes"@))
    &&& views(m.labels@) == string_list_of(table_get(t, "labels"@))
    &&& m.slot == int_of(path_value(t, seq!["trial"@, "slot"@]))
    &&& m.trial_started@ == manifest_str(t, "trial"@, "started"@)
    &&& m.review_due@ == manifest_str(t, "trial"@, "review_due"@)
    &&& m.success_guideline@ == manifest_str(t, "trial"@, "success_guideline"@)
    &&& m.parked_on@ == manifest_str(t, "parked"@, "date"@)
    &&& m.park_reason@ == trim(manifest_str(t, "parked"@, "reason"@))
    &&& m.reopen_when@ == trim(manifest_str(t, "parked"@, "reopen_when"@))
    &&& m.retired_on@ == manifest_str(t, "retirement"@, "date"@)
    &&& m.retire_reason@ == manifest_str(t, "retirement"@, "reason"@)
}

/// `m` names `family/variant` and holds nothing else.
pub open spec fn meta_blank(m: VariantMeta, family: Seq<char>, variant: Seq<char>) -> bool {
    &&& m.family@ == family
    &&& m.variant@ == variant
    &&& m.summary@.len() == 0
    &&& m.explainer@.len() == 0
    &&& m.status@.len() == 0
    &&& m.created@.len() == 0
    &&& m.supersedes@.len() == 0
    &&& m.labels@.len() == 0
    &&& m.slot is None
    &&& m.trial_started@.len() == 0
    &&& m.review_due@.len() == 0
    &&& m.success_guideline@.len() == 0
    &&& m.parked_on@.len() == 0
    &&& m.park_reason@.len() == 0
    &&& m.reopen_when@.len() == 0
    &&& m.retired_on@.len() == 0
    &&& m.retire_reason@.len() == 0
}

/// A variant's manifest read from the text of its `strategy.toml`: every
/// field the document lacks (or holds with another type) is empty, and a
/// text the TOML reader rejects gives a manifest with nothing but the names.
pub fn parse_variant_meta(family: &str, variant: &str, src: &str) -> (m: VariantMeta)
    ensures
        match toml_tree_of(src@) {
            Some(t) => meta_reads(m, family@, variant@, t),
            None => meta_blank(m, family@, variant@),
        },
{
    let t = toml_of(src);
    let m = meta_from_table(family, variant, &t);
    proof {
        if toml_tree_of(src@) is None {
            lemma_empty_table_reads(t);
            let e = Seq::<char>::empty();
            assert(table_get(t, "explainer"@) is None);
            assert(path_value(t, seq!["parked"@, "reason"@]) is None);
            assert(path_value(t, seq!["parked"@, "reopen_when"@]) is None);
            assert(table_get(t, "labels"@) is None);
            assert(path_value(t, seq!["trial"@, "slot"@]) is None);
            crate::text::lemma_first_index(0, crate::text::kept(e, crate::text::ws_pred()));
            crate::text::lemma_last_index(0, crate::text::kept(e, crate::text::ws_pred()));
            assert(trim(e) =~= e);
            assert(views(m.labels@).len() == m.labels@.len());
        }
    }
    m
}

proof fn lemma_empty_table_reads(t: TomlTable)
    requires
        t.entries@.len() == 0,
    ensures
        forall|k: Seq<char>| #[trigger] table_get(t, k) is None,
        forall|p: Seq<Seq<char>>| #[trigger] path_value(t, p) is None,
{
    assert forall|k: Seq<char>| #[trigger] table_get(t, k) is None by {
        crate::text::lemma_first_index(0, key_is(t.entries@, k));
    }
}

fn meta_from_table(family: &str, variant: &str, t: &TomlTable) -> (m: VariantMeta)
    ensures
        meta_reads(m, family@, variant@, *t),
        m.family@ == family@,
        m.variant@ == variant@,
        m.summary@ == text_of(table_get(*t, "summary"@)),
        m.explainer@ == trim(text_of(table_get(*t, "explainer"@))),
        m.status@ == text_of(table_get(*t, "status"@)),
        m.created@ == text_of(table_get(*t, "created"@)),
        m.supersedes@ == text_of(table_get(*t, "supersedes"@)),
        views(m.labels@) == string_list_of(table_get(*t, "labels"@)),
        m.slot == int_of(path_value(*t, seq!["trial"@, "slot"@])),
        m.trial_started@ == manifest_str(*t, "trial"@, "started"@),
        m.review_due@ == manifest_str(*t, "trial"@, "review_due"@),
        m.success_guideline@ == manifest_str(*t, "trial"@, "success_guideline"@),
        m.parked_on@ == manifest_str(*t, "parked"@, "date"@),
        m.park_reason@ == trim(manifest_str(*t, "parked"@, "reason"@)),
        m.reopen_when@ == trim(manifest_str(*t, "parked"@, "reopen_when"@)),
        m.retired_on@ == manifest_str(*t, "retirement"@, "date"@),
        m.retire_reason@ == manifest_str(*t, "retirement"@, "reason"@),
{
    let trial_slot = ["trial", "slot"];
    let trial_started = ["trial", "started"];
    let trial_due = ["trial", "review_due"];
    let trial_goal = ["trial", "success_guideline"];
    let parked_date = ["parked", "date"];
    let parked_reason = ["parked", "reason"];
    let parked_reopen = ["parked", "reopen_when"];
    let retired_date = ["retirement", "date"];
    let retired_reason = ["retirement", "reason"];
    proof {
        assert(crate::config::path_views(trial_slot@) =~= seq!["trial"@, "slot"@]);
        assert(crate::config::path_views(trial_started@) =~= seq!["trial"@, "started"@]);
        assert(crate::config::path_views(trial_due@) =~= seq!["trial"@, "review_due"@]);
        assert(crate::config::path_views(trial_goal@) =~= seq!["trial"@, "success_guideline"@]);
        assert(crate::config::path_views(parked_date@) =~= seq!["parked"@, "date"@]);
        assert(crate::config::path_views(parked_reason@) =~= seq!["parked"@, "reason"@]);
        assert(crate::config::path_views(parked_reopen@) =~= seq!["parked"@, "reopen_when"@]);
        assert(crate::config::path_views(retired_date@) =~= seq!["retirement"@, "date"@]);
        assert(crate::config::path_views(retired_reason@) =~= seq!["retirement"@, "reason"@]);
    }
    VariantMeta {
        family: owned(family),
        variant: owned(variant),
        summary: owned(tstr(t, "summary")),
        explainer: trimmed_str(tstr(t, "explainer")),
        status: owned(tstr(t, "status")),
        created: owned(tstr(t, "created")),
        supersedes: owned(tstr(t, "supersedes")),
        labels: tlist(t, "labels"),
        slot: int_at(t, &trial_slot),
        trial_started: owned(str_at(t, &trial_started)),
        review_due: owned(str_at(t, &trial_due)),
        success_guideline: owned(str_at(t, &trial_goal)),
        parked_on: owned(str_at(t, &parked_date)),
        park_reason: trimmed_str(str_at(t, &parked_reason)),
        reopen_when: trimmed_str(str_at(t, &parked_reopen)),
        retired_on: owned(str_at(t, &retired_date)),
        retire_reason: owned(str_at(t, &retired_reason)),
    }
}

// ---------------------------------------------------------------------------
// Dates
// ---------------------------------------------------------------------------

/// `y-m-d` read the way the pages read it: the first three `-`-separated
/// pieces, each a 64-bit integer.
pub open spec fn ymd(date: Seq<char>) -> Option<(int, int, int)> {
    let p = split_char(date, '-');
    if p.len() >= 3 {
        match (parse_i64(p[0]), parse_i64(p[1]), parse_i64(p[2])) {
            (Some(y), Some(m), Some(d)) => Some((y as int, m as int, d as int)),
            _ => None,
        }
    } else {
        None
    }
}

pub open spec fn day_name(k: int) -> Seq<char> {
    if k == 0 {
        "Sunday"@
    } else if k == 1 {
        "Monday"@
    } else if k == 2 {
        "Tuesday"@
    } else if k == 3 {
        "Wednesday"@
    } else if k == 4 {
        "Thursday"@
    } else if k == 5 {
        "Friday"@
    } else {
        "Saturday"@
    }
}

/// The weekday of a `YYYY-MM-DD` string; empty when it does not read as one.
pub open spec fn weekday_of(date: Seq<char>) -> Seq<char> {
    match ymd(date) {
        Some((y, m, d)) => day_name((civil_days(y, m, d) + 4) % 7),
        None => Seq::empty(),
    }
}

/// The dates whose day count `weekday` can compute without overflow.
pub open spec fn weekday_fits(date: Seq<char>) -> bool {
    match ymd(date) {
        Some((y, m, d)) => civil_fits(y, m, d) && civil_days(y, m, d) + 4 <= i64::MAX,
        None => true,
    }
}

/// The three leading `-`-separated pieces of `s`, each read as an `i64`.
pub fn read_ymd(s: &[char]) -> (r: Option<(i64, i64, i64)>)
    ensures
        match r {
            Some((y, m, d)) => ymd(s@) == Some((y as int, m as int, d as int)),
            None => ymd(s@) is None,
        },
{
    let parts = split_in(s, 0, s.len(), '-');
    proof {
        assert(s@.subrange(0, s@.len() as int) =~= s@);
    }
    if parts.len() < 3 {
        return None;
    }
    let (a0, b0) = parts[0];
    let (a1, b1) = parts[1];
    let (a2, b2) = parts[2];
    proof {
        assert(wins(s@, parts@)[0] == win(s@, parts@[0]));
        assert(wins(s@, parts@)[1] == win(s@, parts@[1]));
        assert(wins(s@, parts@)[2] == win(s@, parts@[2]));
    }
    let y = parse_i64_in(s, a0, b0);
    let m = parse_i64_in(s, a1, b1);
    let d = parse_i64_in(s, a2, b2);
    match (y, m, d) {
        (Some(y), Some(m), Some(d)) => Some((y, m, d)),
        _ => None,
    }
}

/// `t.rem_euclid(7)`.
fn mod7(t: i64) -> (r: i64)
    ensures
        r == (t as int) % 7,
{
    if t >= 0 {
        t % 7
    } else {
        let q = (-(t + 1)) % 7;
        proof {
            let u = -(t + 1);
            assert(6 - q == (t as int) % 7) by (nonlinear_arith)
                requires
                    u >= 0,
                    q == u % 7,
                    t == -u - 1,
            ;
        }
        6 - q
    }
}

/// Weekday name of a `YYYY-MM-DD` string ("" when unparseable).
pub fn weekday(date: &str) -> (r: &'static str)
    requires
        weekday_fits(date@),
    ensures
        r@ == weekday_of(date@),
{
    let s = crate::text::chars_of(date);
    match read_ymd(&s) {
        None => {
            proof {
                reveal_strlit("");
            }
            ""
        },
        Some((y, m, d)) => {
            let days = days_from_civil(y, m, d);
            let idx = mod7(days + 4);
            if idx == 0 {
                "Sunday"
            } else if idx == 1 {
                "Monday"
            } else if idx == 2 {
                "Tuesday"
            } else if idx == 3 {
                "Wednesday"
            } else if idx == 4 {
                "Thursday"
            } else if idx == 5 {
                "Friday"
            } else {
                "Saturday"
            }
        },
    }
}


/// The parts of a timestamp `ts_ms` reads: the date, and the hour, minute and
/// second fields of the time after `T` (trailing `Z`s dropped; a missing or
/// unreadable minute or second counts as 0).
pub open spec fn ts_fields(ts: Seq<char>) -> Option<(int, int, int, int, int, int)> {
    match split_once(ts, 'T') {
        None => None,
        Some((date, time)) => match ymd(date) {
            None => None,
            Some((y, m, d)) => {
                let t = trim_end_by(time, set_pred(seq!['Z']));
                let tp = split_char(t, ':');
                match parse_i64(tp[0]) {
                    None => None,
                    Some(hh) => {
                        let mm = if tp.len() > 1 {
                            match parse_i64(tp[1]) {
                                Some(v) => v as int,
                                None => 0,
                            }
                        } else {
                            0
                        };
                        let ss = if tp.len() > 2 {
                            match parse_i64(split_char(tp[2], '.')[0]) {
                                Some(v) => v as int,
                                None => 0,
                            }
                        } else {
                            0
                        };
                        Some((y, m, d, hh as int, mm, ss))
                    },
                }
            },
        },
    }
}

/// Epoch milliseconds of `y-m-d hh:mm:ss` UTC.
pub open spec fn epoch_ms(f: (int, int, int, int, int, int)) -> int {
    (civil_days(f.0, f.1, f.2) * 86_400 + f.3 * 3_600 + f.4 * 60 + f.5) * 1_000
}

/// `ts_ms` of a timestamp.
pub open spec fn ts_ms_of(ts: Seq<char>) -> Option<int> {
    match ts_fields(ts) {
        Some(f) => Some(epoch_ms(f)),
        None => None,
    }
}

/// The timestamps whose conversion stays within 64 bits at every step.
pub open spec fn ts_fits(ts: Seq<char>) -> bool {
    match ts_fields(ts) {
        Some(f) => {
            let days = civil_days(f.0, f.1, f.2);
            &&& civil_fits(f.0, f.1, f.2)
            &&& i64_ok(days * 86_400)
            &&& i64_ok(f.3 * 3_600)
            &&& i64_ok(days * 86_400 + f.3 * 3_600)
            &&& i64_ok(f.4 * 60)
            &&& i64_ok(days * 86_400 + f.3 * 3_600 + f.4 * 60)
            &&& i64_ok(days * 86_400 + f.3 * 3_600 + f.4 * 60 + f.5)
            &&& i64_ok(epoch_ms(f))
        },
        None => true,
    }
}

/// `s[lo..hi].parse::<i64>().unwrap_or(0)`.
fn parse_or_zero(s: &[char], lo: usize, hi: usize) -> (r: i64)
    requires
        lo <= hi <= s@.len(),
    ensures
        r == match parse_i64(s@.subrange(lo as int, hi as int)) {
            Some(v) => v,
            None => 0,
        },
{
    match parse_i64_in(s, lo, hi) {
        Some(v) => v,
        None => 0,
    }
}

/// `2026-07-25T01:52:10Z` → unix epoch milliseconds (None when unparseable).
pub fn ts_ms(ts: &str) -> (r: Option<i64>)
    requires
        ts_fits(ts@),
    ensures
        match r {
            Some(v) => ts_ms_of(ts@) == Some(v as int),
            None => ts_ms_of(ts@) is None,
        },
{
    let s = crate::text::chars_of(ts);
    let n = s.len();
    proof {
        assert(s@.subrange(0, n as int) =~= s@);
    }
    let tpos = match find_char_in(&s, 0, n, 'T') {
        Some(i) => i,
        None => return None,
    };
    let ghost date = s@.subrange(0, tpos as int);
    let ghost time = s@.subrange(tpos + 1, n as int);
    let dchars = crate::text::slice_vec(&s, 0, tpos);
    let (y, m, d) = match read_ymd(&dchars) {
        Some(v) => v,
        None => return None,
    };
    let zset = ['Z'];
    let te = skip_set_back(&s, tpos + 1, n, &zset);
    proof {
        assert(zset@ =~= seq!['Z']);
    }
    let tp = split_in(&s, tpos + 1, te, ':');
    proof {
        assert(wins(s@, tp@)[0] == win(s@, tp@[0]));
    }
    let (h0, h1) = tp[0];
    let hh = match parse_i64_in(&s, h0, h1) {
        Some(v) => v,
        None => return None,
    };
    let mm = if tp.len() > 1 {
        proof {
            assert(wins(s@, tp@)[1] == win(s@, tp@[1]));
        }
        parse_or_zero(&s, tp[1].0, tp[1].1)
    } else {
        0
    };
    let ss = if tp.len() > 2 {
        proof {
            assert(wins(s@, tp@)[2] == win(s@, tp@[2]));
        }
        let (a, b) = tp[2];
        let sp = split_in(&s, a, b, '.');
        proof {
            assert(wins(s@, sp@)[0] == win(s@, sp@[0]));
        }
        parse_or_zero(&s, sp[0].0, sp[0].1)
    } else {
        0
    };
    let days = days_from_civil(y, m, d);
    Some((days * 86_400 + hh * 3_600 + mm * 60 + ss) * 1_000)
}

/// The day count of `YYYY-MM-DD…` as `days_between` reads it: the day is the
/// first two characters of the third piece.
pub open spec fn day_number(s: Seq<char>) -> Option<(int, int, int)> {
    let p = split_char(s, '-');
    if p.len() >= 3 && p[2].len() >= 2 {
        match (parse_i64(p[0]), parse_i64(p[1]), parse_i64(p[2].subrange(0, 2))) {
            (Some(y), Some(m), Some(d)) => Some((y as int, m as int, d as int)),
            _ => None,
        }
    } else {
        None
    }
}

/// Whole days from `from` to `to`, both `YYYY-MM-DD` (None when either is
/// unparseable).
pub open spec fn days_between_of(from: Seq<char>, to: Seq<char>) -> Option<int> {
    match (day_number(to), day_number(from)) {
        (Some(b), Some(a)) => Some(civil_days(b.0, b.1, b.2) - civil_days(a.0, a.1, a.2)),
        _ => None,
    }
}

pub open spec fn day_number_fits(s: Seq<char>) -> bool {
    match day_number(s) {
        Some((y, m, d)) => civil_fits(y, m, d),
        None => true,
    }
}

/// The inputs on which `days_between` computes without overflow: `to` is read
/// first, `from` only when `to` reads.
pub open spec fn days_between_fits(from: Seq<char>, to: Seq<char>) -> bool {
    &&& day_number_fits(to)
    &&& (day_number(to) is Some ==> day_number_fits(from))
    &&& (days_between_of(from, to) matches Some(v) ==> i64_ok(v))
}

fn read_day_number(s: &[char]) -> (r: Option<i64>)
    requires
        day_number_fits(s@),
    ensures
        match r {
            Some(v) => day_number(s@) matches Some(t) && v == civil_days(t.0, t.1, t.2),
            None => day_number(s@) is None,
        },
{
    let parts = split_in(s, 0, s.len(), '-');
    proof {
        assert(s@.subrange(0, s@.len() as int) =~= s@);
    }
    if parts.len() < 3 {
        return None;
    }
    proof {
        assert(wins(s@, parts@)[0] == win(s@, parts@[0]));
        assert(wins(s@, parts@)[1] == win(s@, parts@[1]));
        assert(wins(s@, parts@)[2] == win(s@, parts@[2]));
    }
    let (a2, b2) = parts[2];
    if b2 - a2 < 2 {
        return None;
    }
    proof {
        assert(win(s@, parts@[2]).subrange(0, 2) =~= s@.subrange(a2 as int, a2 + 2));
    }
    let y = parse_i64_in(s, parts[0].0, parts[0].1);
    let m = parse_i64_in(s, parts[1].0, parts[1].1);
    let d = parse_i64_in(s, a2, a2 + 2);
    match (y, m, d) {
        (Some(y), Some(m), Some(d)) => Some(days_from_civil(y, m, d)),
        _ => None,
    }
}

/// Whole days between two `YYYY-MM-DD` strings (None when unparseable).
pub fn days_between(from: &str, to: &str) -> (r: Option<i64>)
    requires
        days_between_fits(from@, to@),
    ensures
        match r {
            Some(v) => days_between_of(from@, to@) == Some(v as int),
            None => days_between_of(from@, to@) is None,
        },
{
    let t = crate::text::chars_of(to);
    let b = match read_day_number(&t) {
        Some(v) => v,
        None => return None,
    };
    let f = crate::text::chars_of(from);
    let a = match read_day_number(&f) {
        Some(v) => v,
        None => return None,
    };
    Some(b - a)
}

/// Day counts add up: the days from `a` to `b` and from `b` to `c` make the
/// days from `a` to `c`.
pub proof fn law_days_between_adds(a: Seq<char>, b: Seq<char>, c: Seq<char>)
    requires
        days_between_of(a, b) is Some,
        days_between_of(b, c) is Some,
    ensures
        days_between_of(a, c) == Some(days_between_of(a, b).unwrap() + days_between_of(b, c).unwrap()),
{
}

/// Counting the other way round negates the count, and a date is no days
/// from itself.
pub proof fn law_days_between_reverses(a: Seq<char>, b: Seq<char>)
    ensures
        days_between_of(a, b) is Some ==> days_between_of(b, a) == Some(
            -days_between_of(a, b).unwrap(),
        ),
        day_number(a) is Some ==> days_between_of(a, a) == Some(0int),
{
}


/// The days of the week in calendar order, Sunday first.
pub open spec fn week() -> Seq<Seq<char>> {
    seq!["Sunday"@, "Monday"@, "Tuesday"@, "Wednesday"@, "Thursday"@, "Friday"@, "Saturday"@]
}

/// Weekdays follow each other: the day after any date is named by the next
/// entry of the week (Saturday wrapping round to Sunday), and 1970-01-01,
/// day zero of the calendar, is a Thursday.
pub proof fn law_weekdays_follow_each_other(a: Seq<char>, b: Seq<char>)
    ensures
        ymd(a) matches Some((y, m, d)) && y == 1970 && m == 1 && d == 1 ==> weekday_of(a)
            == "Thursday"@,
        ({
            match (ymd(a), ymd(b)) {
                (Some((y1, m1, d1)), Some((y2, m2, d2))) => civil_days(y2, m2, d2) == civil_days(
                    y1,
                    m1,
                    d1,
                ) + 1 ==> exists|k: int|
                    0 <= k < 7 && weekday_of(a) == week()[k] && weekday_of(b) == #[trigger] week()[(k
                        + 1) % 7],
                _ => true,
            }
        }),
{
    assert(civil_days(1970, 1, 1) == 0);
    match (ymd(a), ymd(b)) {
        (Some((y1, m1, d1)), Some((y2, m2, d2))) => {
            let z = civil_days(y1, m1, d1);
            if civil_days(y2, m2, d2) == z + 1 {
                let k = (z + 4) % 7;
                assert((z + 5) % 7 == (k + 1) % 7);
                assert(weekday_of(a) == week()[k]);
                assert(weekday_of(b) == week()[(k + 1) % 7]);
            }
        },
        _ => {},
    }
}

} // verus!
