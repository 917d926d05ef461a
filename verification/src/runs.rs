//! Daily run manifests: how a manifest's name orders it within its day, which
//! run of a day is the last, which run follows a date, and whether a run
//! mentions a variant.
use vstd::prelude::*;

use crate::config::{
    array_items, bool_at, bool_of, path_value, path_views, str_at, table_get, text_of, tstr,
    value_get, arr_at, TomlTable, TomlValue,
};
use crate::data::{
    days_between, days_between_fits, days_between_of, weekday, weekday_fits, weekday_of,
};
use crate::number::{dec, int_str, parse_u32, parse_u32_in, push_dec, push_int};
use crate::data::VariantMeta;
use crate::render::{
    badge, badge_html, concat, count, count_of, esc, escaped, fmt_int, fmt_int_of, join, stat_line,
    stat_line_cell, table, table_of,
};
use crate::table::{cell_of, grid, Table};
use crate::sort::{lex_le_exec, lex_lt, views};
use crate::text::{
    byte_len, byte_len_capped, char_at_byte, char_index_of_byte, chars_of, contains_seq, find_in,
    last_index, owned, slice_vec, str_eq, string_of, strip_prefix, strip_prefix_in, window_eq,
    lemma_first_index_is, lemma_first_index_none, first_index, starts_with,
};

verus! {

/// `<date>[-N]` → (date, N): when the eleventh byte is `-`, the first ten bytes
/// are the date and the rest is N (1 when it does not read); otherwise the
/// whole name is the date and N is 1.
pub open spec fn stem_key(stem: Seq<char>) -> (Seq<char>, u32) {
    match char_at_byte(stem, 10) {
        Some(k) => if byte_len(stem) > 10 && k < stem.len() && stem[k] == '-' {
            (
                stem.take(k),
                match parse_u32(stem.skip(k + 1)) {
                    Some(n) => n,
                    None => 1,
                },
            )
        } else {
            (stem, 1)
        },
        None => (stem, 1),
    }
}

/// `stem_key` of the window `p[a..b]`.
pub fn stem_key_window(p: &[char], a: usize, b: usize) -> (r: (Vec<char>, u32))
    requires
        a <= b <= p@.len(),
    ensures
        r.0@ == stem_key(p@.subrange(a as int, b as int)).0,
        r.1 == stem_key(p@.subrange(a as int, b as int)).1,
{
    let ghost stem = p@.subrange(a as int, b as int);
    let long = byte_len_capped(p, a, b, 10) > 10;
    match char_index_of_byte(p, a, b, 10) {
        Some(k) => {
            if long && k < b - a && p[a + k] == '-' {
                proof {
                    assert(stem.take(k as int) =~= p@.subrange(a as int, a + k));
                    assert(stem.skip(k + 1) =~= p@.subrange(a + k + 1, b as int));
                }
                let n = match parse_u32_in(p, a + k + 1, b) {
                    Some(v) => v,
                    None => 1,
                };
                (slice_vec(p, a, a + k), n)
            } else {
                (slice_vec(p, a, b), 1)
            }
        },
        None => (slice_vec(p, a, b), 1),
    }
}

/// `<date>[-N]` manifest stem → (date, run index within the day, 1-based).
pub fn run_key(stem: &str) -> (r: (String, u32))
    ensures
        r.0@ == stem_key(stem@).0,
        r.1 == stem_key(stem@).1,
{
    let s = chars_of(stem);
    proof {
        assert(s@.subrange(0, s@.len() as int) =~= s@);
    }
    let (d, n) = stem_key_window(&s, 0, s.len());
    proof {
        assert(d@.subrange(0, d@.len() as int) =~= d@);
    }
    (string_of(&d, 0, d.len()), n)
}

/// Whether the window `a` holds the same characters as `b`.
fn same(a: &Vec<char>, b: &Vec<char>) -> (r: bool)
    ensures
        r == (a@ == b@),
{
    proof {
        assert(a@.subrange(0, a@.len() as int) =~= a@);
    }
    window_eq(a, 0, a.len(), b)
}

/// No other manifest of the same date has a higher run index.
pub open spec fn last_of_day(stem: Seq<char>, stems: Seq<Seq<char>>) -> bool {
    !exists|i: int|
        0 <= i < stems.len() && stem_key(#[trigger] stems[i]).0 == stem_key(stem).0 && stem_key(
            stems[i],
        ).1 > stem_key(stem).1
}

/// Is this the last manifest written for its date?
pub fn is_last_run_of_day(stem: &str, stems: &[String]) -> (r: bool)
    ensures
        r == last_of_day(stem@, views(stems@)),
{
    let s = chars_of(stem);
    proof {
        assert(s@.subrange(0, s@.len() as int) =~= s@);
    }
    let (date, idx) = stem_key_window(&s, 0, s.len());
    let ghost v = views(stems@);
    let mut i: usize = 0;
    while i < stems.len()
        invariant
            i <= stems@.len(),
            v == views(stems@),
            date@ == stem_key(stem@).0,
            idx == stem_key(stem@).1,
            forall|j: int|
                0 <= j < i ==> !(stem_key(#[trigger] v[j]).0 == stem_key(stem@).0 && stem_key(
                    v[j],
                ).1 > stem_key(stem@).1),
        decreases stems.len() - i,
    {
        let o = chars_of(stems[i].as_str());
        proof {
            assert(o@.subrange(0, o@.len() as int) =~= o@);
            assert(v[i as int] == o@);
        }
        let (od, oi) = stem_key_window(&o, 0, o.len());
        if same(&od, &date) && oi > idx {
            return false;
        }
        i += 1;
    }
    true
}

/// The index of the first date after `date`.
pub open spec fn later(dates: Seq<Seq<char>>, date: Seq<char>) -> spec_fn(int) -> bool {
    |i: int| lex_lt(date, dates[i])
}

/// The first run date strictly after `date` (in string order) — the run that
/// could act on a market that settled that day.
pub open spec fn next_run_after_of(date: Seq<char>, dates: Seq<Seq<char>>) -> Option<Seq<char>> {
    match first_index(dates.len() as int, later(dates, date)) {
        Some(i) => Some(dates[i]),
        None => None,
    }
}

pub fn next_run_after(date: &str, dates: &[String]) -> (r: Option<String>)
    ensures
        match r {
            Some(d) => next_run_after_of(date@, views(dates@)) == Some(d@),
            None => next_run_after_of(date@, views(dates@)) is None,
        },
{
    let ghost v = views(dates@);
    let ghost p = later(v, date@);
    let dc = chars_of(date);
    let mut i: usize = 0;
    while i < dates.len()
        invariant
            i <= dates@.len(),
            v == views(dates@),
            p == later(v, date@),
            dc@ == date@,
            forall|j: int| 0 <= j < i ==> !#[trigger] p(j),
        decreases dates.len() - i,
    {
        let o = chars_of(dates[i].as_str());
        proof {
            assert(v[i as int] == o@);
            assert(dc@.subrange(0, dc@.len() as int) =~= dc@);
        }
        if lex_le_exec(&dc, &o) && !window_eq(&dc, 0, dc.len(), &o) {
            proof {
                lemma_first_index_is(v.len() as int, p, i as int);
            }
            return Some(owned(dates[i].as_str()));
        }
        i += 1;
    }
    proof {
        lemma_first_index_none(v.len() as int, p);
    }
    None
}

/// The part of a run id after its last `/`.
pub open spec fn id_tail(id: Seq<char>) -> Seq<char> {
    match last_index(id.len() as int, crate::text::char_is(id, '/')) {
        Some(i) => id.skip(i + 1),
        None => id,
    }
}

/// `2026-07-23/run2` → 2; anything without an explicit run number → 1.
pub open spec fn run_id_index_of(id: Seq<char>) -> u32 {
    match strip_prefix(id_tail(id), "run"@) {
        Some(n) => match parse_u32(n) {
            Some(v) => v,
            None => 1,
        },
        None => 1,
    }
}

pub fn run_id_index(run_id: &str) -> (r: u32)
    ensures
        r == run_id_index_of(run_id@),
{
    let s = chars_of(run_id);
    let n = s.len();
    let ghost p = crate::text::char_is(s@, '/');
    let mut i = n;
    while i > 0 && s[i - 1] != '/'
        invariant
            i <= n == s@.len(),
            p == crate::text::char_is(s@, '/'),
            forall|j: int| i <= j < n ==> !#[trigger] p(j),
        decreases i,
    {
        i -= 1;
    }
    proof {
        if i > 0 {
            crate::text::lemma_last_index_is(n as int, p, i - 1);
            assert(s@.skip(i as int) =~= s@.subrange(i as int, n as int));
        } else {
            crate::text::lemma_last_index_none(n as int, p);
            assert(s@ =~= s@.subrange(0, n as int));
        }
    }
    let run = chars_of("run");
    match strip_prefix_in(&s, i, n, &run) {
        Some(a) => match parse_u32_in(&s, a, n) {
            Some(v) => v,
            None => 1,
        },
        None => 1,
    }
}

/// A step names the variant: its `variant` is exactly `key`, or its `note`
/// contains `key`.
pub open spec fn step_mentions(step: TomlValue, key: Seq<char>) -> bool {
    (value_get(step, "variant"@) matches Some(TomlValue::Str(v)) && v@ == key) || (value_get(
        step,
        "note"@,
    ) matches Some(TomlValue::Str(n)) && contains_seq(n@, key))
}

/// Does this manifest name the variant, in a step's `variant` field or note?
pub open spec fn mentions_variant_of(t: TomlTable, key: Seq<char>) -> bool {
    exists|i: int|
        0 <= i < array_items(path_value(t, seq!["step"@])).len() && step_mentions(
            #[trigger] array_items(path_value(t, seq!["step"@]))[i],
            key,
        )
}

pub fn mentions_variant(t: &TomlTable, key: &str) -> (r: bool)
    ensures
        r == mentions_variant_of(*t, key@),
{
    let path = ["step"];
    proof {
        assert(path_views(path@) =~= seq!["step"@]);
    }
    let steps = arr_at(t, &path);
    let ghost items = array_items(path_value(*t, seq!["step"@]));
    let kc = chars_of(key);
    let mut i: usize = 0;
    while i < steps.len()
        invariant
            i <= steps@.len(),
            steps@.len() == items.len(),
            items == array_items(path_value(*t, seq!["step"@])),
            forall|j: int| 0 <= j < steps@.len() ==> *(#[trigger] steps@[j]) == items[j],
            kc@ == key@,
            forall|j: int| 0 <= j < i ==> !step_mentions(#[trigger] items[j], key@),
        decreases steps.len() - i,
    {
        let st = steps[i];
        proof {
            assert(*steps@[i as int] == items[i as int]);
        }
        let by_variant = match st.get("variant") {
            Some(TomlValue::Str(v)) => str_eq(v.as_str(), key),
            _ => false,
        };
        let by_note = match st.get("note") {
            Some(TomlValue::Str(n)) => {
                let nc = chars_of(n.as_str());
                proof {
                    assert(nc@.subrange(0, nc@.len() as int) =~= nc@);
                }
                find_in(&nc, 0, nc.len(), &kc).is_some()
            },
            _ => false,
        };
        if by_variant || by_note {
            proof {
                assert(step_mentions(items[i as int], key@));
            }
            return true;
        }
        i += 1;
    }
    false
}

// ---------------------------------------------------------------------------
// The story of one run
// ---------------------------------------------------------------------------

/// A row's cell in the column `name`.
pub open spec fn cellv(t: Table, row: Seq<Seq<char>>, name: Seq<char>) -> Seq<char> {
    cell_of(views(t.head@), row, name)
}

/// A prediction row the run logged: stamped on its date and carrying its
/// run index.
pub open spec fn logged_by(p: Table, date: Seq<char>, idx: u32, row: Seq<Seq<char>>) -> bool {
    starts_with(cellv(p, row, "timestamp"@), date) && run_id_index_of(cellv(p, row, "run_id"@))
        == idx
}

pub open spec fn variant_of_row(p: Table, row: Seq<Seq<char>>) -> Seq<char> {
    cellv(p, row, "family"@) + "/"@ + cellv(p, row, "variant"@)
}

/// The `family/variant` keys of the rows the run logged, in order.
pub open spec fn logged_keys(p: Table, rows: Seq<Seq<Seq<char>>>, date: Seq<char>, idx: u32) -> Seq<
    Seq<char>,
>
    decreases rows.len(),
{
    if rows.len() == 0 {
        Seq::empty()
    } else {
        let prev = logged_keys(p, rows.drop_last(), date, idx);
        if logged_by(p, date, idx, rows.last()) {
            prev.push(variant_of_row(p, rows.last()))
        } else {
            prev
        }
    }
}

/// The distinct items of `ks`, first seen first.
pub open spec fn distinct(ks: Seq<Seq<char>>) -> Seq<Seq<char>>
    decreases ks.len(),
{
    if ks.len() == 0 {
        Seq::empty()
    } else {
        let prev = distinct(ks.drop_last());
        if prev.contains(ks.last()) {
            prev
        } else {
            prev.push(ks.last())
        }
    }
}

/// How often `k` occurs in `ks`.
pub open spec fn occ(ks: Seq<Seq<char>>, k: Seq<char>) -> nat
    decreases ks.len(),
{
    if ks.len() == 0 {
        0
    } else {
        occ(ks.drop_last(), k) + if ks.last() == k {
            1nat
        } else {
            0nat
        }
    }
}

pub open spec fn variant_link(k: Seq<char>, n: nat, many: bool) -> Seq<char> {
    "<a href=\"/strategies/"@ + escaped(k) + "\">"@ + escaped(k) + "</a>"@ + if many {
        " ("@ + dec(n) + ")"@
    } else {
        Seq::empty()
    }
}

pub open spec fn variant_links(ks: Seq<Seq<char>>, ds: Seq<Seq<char>>) -> Seq<Seq<char>> {
    ds.map_values(|k: Seq<char>| variant_link(k, occ(ks, k), ds.len() > 1))
}

/// "Logged N new predictions from …", naming each variant (with its count
/// when there are several), or nothing when the run logged none.
pub open spec fn logged_line(p: Table, date: Seq<char>, idx: u32) -> Option<Seq<char>> {
    let ks = logged_keys(p, grid(p.rows@), date, idx);
    if ks.len() == 0 {
        None
    } else {
        Some(
            "Logged <b>"@ + dec(ks.len()) + "</b> new predictions from "@ + join(
                variant_links(ks, distinct(ks)),
                " and "@,
            ) + "."@,
        )
    }
}

proof fn lemma_distinct_unique(ks: Seq<Seq<char>>)
    ensures
        forall|a: int, b: int|
            0 <= a < b < distinct(ks).len() ==> #[trigger] distinct(ks)[a] != #[trigger] distinct(
                ks,
            )[b],
        forall|k: Seq<char>| distinct(ks).contains(k) <==> ks.contains(k),
    decreases ks.len(),
{
    if ks.len() > 0 {
        lemma_distinct_unique(ks.drop_last());
        let prev = distinct(ks.drop_last());
        assert forall|k: Seq<char>| distinct(ks).contains(k) <==> ks.contains(k) by {
            if ks.contains(k) && k != ks.last() {
                let j = choose|j: int| 0 <= j < ks.len() && #[trigger] ks[j] == k;
                assert(ks.drop_last()[j] == k);
                assert(ks.drop_last().contains(k));
            }
            if ks.drop_last().contains(k) {
                let j = choose|j: int| 0 <= j < ks.drop_last().len() && #[trigger] ks.drop_last()[j]
                    == k;
                assert(ks[j] == k);
            }
            if k == ks.last() {
                assert(ks[ks.len() - 1] == k);
            }
            if !prev.contains(ks.last()) {
                if distinct(ks).contains(k) && k != ks.last() {
                    let j = choose|j: int| 0 <= j < distinct(ks).len() && #[trigger] distinct(ks)[j]
                        == k;
                    assert(prev[j] == k);
                }
                if k == ks.last() {
                    assert(distinct(ks)[prev.len() as int] == k);
                }
                if prev.contains(k) {
                    let j = choose|j: int| 0 <= j < prev.len() && #[trigger] prev[j] == k;
                    assert(distinct(ks)[j] == k);
                }
            }
        }
    }
}

/// The run's "Logged …" line.
fn logged_line_exec(p: &Table, date: &str, idx: u32) -> (r: Option<String>)
    ensures
        match logged_line(*p, date@, idx) {
            Some(l) => r matches Some(x) && x@ == l,
            None => r is None,
        },
{
    let ghost rows = grid(p.rows@);
    let mut keys: Vec<String> = Vec::new();
    let mut counts: Vec<usize> = Vec::new();
    let mut n: usize = 0;
    let mut i: usize = 0;
    while i < p.rows.len()
        invariant
            i <= p.rows@.len(),
            rows == grid(p.rows@),
            n == logged_keys(*p, rows.take(i as int), date@, idx).len(),
            n <= i,
            views(keys@) == distinct(logged_keys(*p, rows.take(i as int), date@, idx)),
            counts@.len() == keys@.len(),
            forall|j: int|
                0 <= j < counts@.len() ==> #[trigger] counts@[j] as nat == occ(
                    logged_keys(*p, rows.take(i as int), date@, idx),
                    keys@[j]@,
                ) && counts@[j] <= i,
        decreases p.rows.len() - i,
    {
        let row = &p.rows[i];
        let ghost ks = logged_keys(*p, rows.take(i as int), date@, idx);
        proof {
            assert(rows.take(i + 1).drop_last() =~= rows.take(i as int));
            assert(rows.take(i + 1).last() == views(row@));
            lemma_distinct_unique(ks);
        }
        let ts = p.cell(row.as_slice(), "timestamp");
        let rid = p.cell(row.as_slice(), "run_id");
        if crate::text::str_starts_with(ts, date) && run_id_index(rid) == idx {
            let mut key = owned(p.cell(row.as_slice(), "family"));
            key.append("/");
            key.append(p.cell(row.as_slice(), "variant"));
            let ghost nks = ks.push(key@);
            proof {
                assert(nks.drop_last() =~= ks);
                assert(nks.last() == key@);
            }
            let found = find_key(&keys, key.as_str());
            if let Some(j) = found {
                let c = counts[j];
                proof {
                    assert(views(keys@)[j as int] == keys@[j as int]@);
                    assert(distinct(ks).contains(key@));
                    assert(distinct(nks) == distinct(ks));
                    assert forall|m: int| 0 <= m < counts@.len() && m != j implies keys@[m]@
                        != key@ by {
                        assert(views(keys@)[m] == keys@[m]@);
                        assert(views(keys@)[j as int] == keys@[j as int]@);
                    }
                }
                counts.set(j, c + 1);
                proof {
                    assert forall|m: int| 0 <= m < counts@.len() implies #[trigger] counts@[m] as nat
                        == occ(nks, keys@[m]@) && counts@[m] <= i + 1 by {
                        assert(occ(nks, keys@[m]@) == occ(ks, keys@[m]@) + if nks.last()
                            == keys@[m]@ {
                            1nat
                        } else {
                            0nat
                        });
                    }
                }
            } else {
                proof {
                    assert(!distinct(ks).contains(key@)) by {
                        if distinct(ks).contains(key@) {
                            let m = choose|m: int| 0 <= m < distinct(ks).len() && #[trigger] distinct(
                                ks,
                            )[m] == key@;
                            assert(views(keys@)[m] == keys@[m]@);
                        }
                    }
                    assert(!ks.contains(key@));
                    assert(occ(ks, key@) == 0) by {
                        lemma_occ_absent(ks, key@);
                    }
                }
                let ghost before = keys@;
                keys.push(key);
                counts.push(1);
                proof {
                    assert(views(keys@) =~= views(before).push(nks.last()));
                    assert forall|m: int| 0 <= m < counts@.len() implies #[trigger] counts@[m] as nat
                        == occ(nks, keys@[m]@) && counts@[m] <= i + 1 by {
                        assert(occ(nks, keys@[m]@) == occ(ks, keys@[m]@) + if nks.last()
                            == keys@[m]@ {
                            1nat
                        } else {
                            0nat
                        });
                        if m < before.len() {
                            assert(keys@[m] == before[m]);
                        }
                    }
                }
            }
            n = n + 1;
        }
        i += 1;
    }
    proof {
        assert(rows.take(p.rows@.len() as int) =~= rows);
    }
    if n == 0 {
        return None;
    }
    let ghost ks = logged_keys(*p, rows, date@, idx);
    let many = keys.len() > 1;
    let mut links: Vec<String> = Vec::new();
    let mut j: usize = 0;
    while j < keys.len()
        invariant
            j <= keys@.len(),
            counts@.len() == keys@.len(),
            views(keys@) == distinct(ks),
            many == (keys@.len() > 1),
            forall|m: int|
                0 <= m < counts@.len() ==> #[trigger] counts@[m] as nat == occ(ks, keys@[m]@),
            views(links@) == variant_links(ks, distinct(ks)).take(j as int),
        decreases keys.len() - j,
    {
        let mut l = owned("<a href=\"/strategies/");
        crate::render::push_esc(&mut l, keys[j].as_str());
        l.append("\">");
        crate::render::push_esc(&mut l, keys[j].as_str());
        l.append("</a>");
        if many {
            l.append(" (");
            push_dec(&mut l, counts[j] as u64);
            l.append(")");
        }
        proof {
            assert(views(keys@)[j as int] == keys@[j as int]@);
            assert(l@ =~= variant_link(keys@[j as int]@, occ(ks, keys@[j as int]@), many));
        }
        let ghost before = links@;
        links.push(l);
        proof {
            assert(views(keys@)[j as int] == keys@[j as int]@);
            assert(views(links@) =~= views(before).push(l@));
            assert(variant_links(ks, distinct(ks)).take(j + 1) =~= variant_links(
                ks,
                distinct(ks),
            ).take(j as int).push(variant_link(keys@[j as int]@, occ(ks, keys@[j as int]@), many)));
        }
        j += 1;
    }
    proof {
        assert(variant_links(ks, distinct(ks)).take(keys@.len() as int) =~= variant_links(
            ks,
            distinct(ks),
        ));
    }
    let mut out = owned("Logged <b>");
    push_dec(&mut out, n as u64);
    out.append("</b> new predictions from ");
    crate::render::push_join(&mut out, &links, " and ");
    out.append(".");
    Some(out)
}

/// Where `k` sits in `keys`.
fn find_key(keys: &Vec<String>, k: &str) -> (r: Option<usize>)
    ensures
        match r {
            Some(j) => j < keys@.len() && keys@[j as int]@ == k@,
            None => forall|m: int| 0 <= m < keys@.len() ==> #[trigger] keys@[m]@ != k@,
        },
{
    let mut j: usize = 0;
    while j < keys.len()
        invariant
            j <= keys@.len(),
            forall|m: int| 0 <= m < j ==> #[trigger] keys@[m]@ != k@,
        decreases keys.len() - j,
    {
        if str_eq(keys[j].as_str(), k) {
            return Some(j);
        }
        j += 1;
    }
    None
}

proof fn lemma_occ_absent(ks: Seq<Seq<char>>, k: Seq<char>)
    requires
        !ks.contains(k),
    ensures
        occ(ks, k) == 0,
    decreases ks.len(),
{
    if ks.len() > 0 {
        assert(!ks.drop_last().contains(k)) by {
            if ks.drop_last().contains(k) {
                let j = choose|j: int| 0 <= j < ks.drop_last().len() && #[trigger] ks.drop_last()[j]
                    == k;
                assert(ks[j] == k);
            }
        }
        assert(ks[ks.len() - 1] != k);
        lemma_occ_absent(ks.drop_last(), k);
    }
}

/// A resolution row this run is credited with: it has a date, this run is
/// the first after it, and this run is the day's last.
pub open spec fn settles_here(
    r: Table,
    row: Seq<Seq<char>>,
    date: Seq<char>,
    dates: Seq<Seq<char>>,
    last: bool,
) -> bool {
    let rd = cellv(r, row, "resolved_date"@);
    rd.len() > 0 && next_run_after_of(rd, dates) == Some(date) && last
}

/// The market slugs of the resolution rows credited to the run, in order.
pub open spec fn settled_slugs(
    r: Table,
    rows: Seq<Seq<Seq<char>>>,
    date: Seq<char>,
    dates: Seq<Seq<char>>,
    last: bool,
) -> Seq<Seq<char>>
    decreases rows.len(),
{
    if rows.len() == 0 {
        Seq::empty()
    } else {
        let prev = settled_slugs(r, rows.drop_last(), date, dates, last);
        if settles_here(r, rows.last(), date, dates, last) {
            prev.push(cellv(r, rows.last(), "market_slug"@))
        } else {
            prev
        }
    }
}

/// Of the first `n` score rows, how many are on one of `slugs`, and how many
/// of those beat the market (`ahead`).
pub open spec fn scored_count(d: Table, slugs: Seq<Seq<char>>, n: int) -> nat
    decreases n,
{
    if n <= 0 {
        0
    } else {
        scored_count(d, slugs, n - 1) + if slugs.contains(
            cellv(d, grid(d.rows@)[n - 1], "market_slug"@),
        ) {
            1nat
        } else {
            0nat
        }
    }
}

pub open spec fn ahead_count(d: Table, ahead: Seq<bool>, slugs: Seq<Seq<char>>, n: int) -> nat
    decreases n,
{
    if n <= 0 {
        0
    } else {
        ahead_count(d, ahead, slugs, n - 1) + if slugs.contains(
            cellv(d, grid(d.rows@)[n - 1], "market_slug"@),
        ) && ahead[n - 1] {
            1nat
        } else {
            0nat
        }
    }
}

/// "N markets settled …", with how many of the predictions on them beat the
/// market's own price; nothing when none settled for this run.
pub open spec fn settled_line(
    r: Table,
    d: Table,
    ahead: Seq<bool>,
    date: Seq<char>,
    dates: Seq<Seq<char>>,
    last: bool,
) -> Option<Seq<char>> {
    let sl = settled_slugs(r, grid(r.rows@), date, dates, last);
    let sc = scored_count(d, sl, d.rows@.len() as int);
    let ah = ahead_count(d, ahead, sl, d.rows@.len() as int);
    if sl.len() == 0 {
        None
    } else if sc == 0 {
        Some("<b>"@ + dec(sl.len()) + "</b> markets we had predictions on settled."@)
    } else if ah == sc {
        Some(
            "<b>"@ + dec(sl.len()) + "</b> markets settled. All <b>"@ + dec(sc)
                + "</b> of our predictions on them beat the market's own price."@,
        )
    } else {
        Some(
            "<b>"@ + dec(sl.len()) + "</b> markets settled. Of the <b>"@ + dec(sc)
                + "</b> predictions they covered, <b>"@ + dec(ah)
                + "</b> beat the market's own price."@,
        )
    }
}

fn settled_line_exec(
    r: &Table,
    d: &Table,
    ahead: &Vec<bool>,
    date: &str,
    dates: &[String],
    last: bool,
) -> (res: Option<String>)
    requires
        ahead@.len() == d.rows@.len(),
    ensures
        match settled_line(*r, *d, ahead@, date@, views(dates@), last) {
            Some(l) => res matches Some(x) && x@ == l,
            None => res is None,
        },
{
    let ghost rows = grid(r.rows@);
    let mut slugs: Vec<String> = Vec::new();
    let mut i: usize = 0;
    while i < r.rows.len()
        invariant
            i <= r.rows@.len(),
            rows == grid(r.rows@),
            views(slugs@) == settled_slugs(*r, rows.take(i as int), date@, views(dates@), last),
            slugs@.len() <= i,
        decreases r.rows.len() - i,
    {
        let row = &r.rows[i];
        proof {
            assert(rows.take(i + 1).drop_last() =~= rows.take(i as int));
            assert(rows.take(i + 1).last() == views(row@));
        }
        let rd = r.cell(row.as_slice(), "resolved_date");
        let here = !rd.is_empty() && last && match next_run_after(rd, dates) {
            Some(x) => str_eq(x.as_str(), date),
            None => false,
        };
        if here {
            let ghost before = slugs@;
            slugs.push(owned(r.cell(row.as_slice(), "market_slug")));
            proof {
                assert(views(slugs@) =~= views(before).push(
                    cellv(*r, views(row@), "market_slug"@),
                ));
            }
        }
        i += 1;
    }
    proof {
        assert(rows.take(r.rows@.len() as int) =~= rows);
    }
    if slugs.len() == 0 {
        return None;
    }
    let ghost sl = views(slugs@);
    let mut sc: usize = 0;
    let mut ah: usize = 0;
    let mut j: usize = 0;
    while j < d.rows.len()
        invariant
            j <= d.rows@.len(),
            ahead@.len() == d.rows@.len(),
            sl == views(slugs@),
            sc == scored_count(*d, sl, j as int),
            ah == ahead_count(*d, ahead@, sl, j as int),
            sc <= j,
            ah <= j,
        decreases d.rows.len() - j,
    {
        let row = &d.rows[j];
        proof {
            assert(grid(d.rows@)[j as int] == views(row@));
        }
        let slug = d.cell(row.as_slice(), "market_slug");
        let hit = find_key(&slugs, slug).is_some();
        proof {
            if hit {
                let m = choose|m: int| 0 <= m < slugs@.len() && #[trigger] slugs@[m]@ == slug@;
                assert(sl[m] == slug@);
            } else {
                if sl.contains(slug@) {
                    let m = choose|m: int| 0 <= m < sl.len() && #[trigger] sl[m] == slug@;
                    assert(slugs@[m]@ == slug@);
                }
            }
        }
        if hit {
            sc = sc + 1;
            if ahead[j] {
                ah = ah + 1;
            }
        }
        j += 1;
    }
    let mut out = owned("<b>");
    push_dec(&mut out, slugs.len() as u64);
    if sc == 0 {
        out.append("</b> markets we had predictions on settled.");
    } else if ah == sc {
        out.append("</b> markets settled. All <b>");
        push_dec(&mut out, sc as u64);
        out.append("</b> of our predictions on them beat the market's own price.");
    } else {
        out.append("</b> markets settled. Of the <b>");
        push_dec(&mut out, sc as u64);
        out.append("</b> predictions they covered, <b>");
        push_dec(&mut out, ah as u64);
        out.append("</b> beat the market's own price.");
    }
    Some(out)
}

pub open spec fn owns(
    owners: Seq<(String, String, String)>,
    key: Seq<char>,
    when: Seq<char>,
    stem: Seq<char>,
) -> bool {
    exists|i: int|
        0 <= i < owners.len() && #[trigger] owners[i].0@ == key && owners[i].1@ == when
            && owners[i].2@ == stem
}

pub open spec fn meta_key(m: VariantMeta) -> Seq<char> {
    m.family@ + "/"@ + m.variant@
}

/// The variant was created on the run's date, by this run.
pub open spec fn started_here(
    m: VariantMeta,
    owners: Seq<(String, String, String)>,
    date: Seq<char>,
    stem: Seq<char>,
) -> bool {
    m.created@ == date && owns(owners, meta_key(m), m.created@, stem)
}

/// The variant was retired on the run's date, by this run.
pub open spec fn dropped_here(
    m: VariantMeta,
    owners: Seq<(String, String, String)>,
    date: Seq<char>,
    stem: Seq<char>,
) -> bool {
    m.retired_on@.len() > 0 && m.retired_on@ == date && owns(owners, meta_key(m), m.retired_on@, stem)
}

pub open spec fn strategy_line(
    m: VariantMeta,
    owners: Seq<(String, String, String)>,
    date: Seq<char>,
    stem: Seq<char>,
) -> Seq<char> {
    let started = started_here(m, owners, date, stem);
    let dropped = dropped_here(m, owners, date, stem);
    let verb = if started && dropped {
        "Started and dropped"@
    } else if started {
        "Started"@
    } else {
        "Dropped"@
    };
    verb + " <a href=\""@ + escaped("/strategies/"@ + m.family@ + "/"@ + m.variant@) + "\">"@
        + escaped(meta_key(m)) + "</a>: "@ + escaped(m.summary@)
}

/// One line for every variant this run started or dropped, in manifest order.
pub open spec fn strategy_lines(
    ms: Seq<VariantMeta>,
    owners: Seq<(String, String, String)>,
    date: Seq<char>,
    stem: Seq<char>,
) -> Seq<Seq<char>>
    decreases ms.len(),
{
    if ms.len() == 0 {
        Seq::empty()
    } else {
        let prev = strategy_lines(ms.drop_last(), owners, date, stem);
        let m = ms.last();
        if started_here(m, owners, date, stem) || dropped_here(m, owners, date, stem) {
            prev.push(strategy_line(m, owners, date, stem))
        } else {
            prev
        }
    }
}

fn owns_exec(owners: &[(String, String, String)], key: &str, when: &str, stem: &str) -> (r: bool)
    ensures
        r == owns(owners@, key@, when@, stem@),
{
    let mut i: usize = 0;
    while i < owners.len()
        invariant
            i <= owners@.len(),
            forall|j: int|
                0 <= j < i ==> !(#[trigger] owners@[j].0@ == key@ && owners@[j].1@ == when@
                    && owners@[j].2@ == stem@),
        decreases owners.len() - i,
    {
        if str_eq(owners[i].0.as_str(), key) && str_eq(owners[i].1.as_str(), when) && str_eq(
            owners[i].2.as_str(),
            stem,
        ) {
            proof {
                assert(owners@[i as int].0@ == key@);
            }
            return true;
        }
        i += 1;
    }
    false
}

fn strategy_lines_exec(
    metas: &[VariantMeta],
    owners: &[(String, String, String)],
    date: &str,
    stem: &str,
) -> (r: Vec<String>)
    ensures
        views(r@) == strategy_lines(metas@, owners@, date@, stem@),
{
    let mut out: Vec<String> = Vec::new();
    let mut i: usize = 0;
    while i < metas.len()
        invariant
            i <= metas@.len(),
            views(out@) == strategy_lines(metas@.take(i as int), owners@, date@, stem@),
        decreases metas.len() - i,
    {
        let m = &metas[i];
        proof {
            assert(metas@.take(i + 1).drop_last() =~= metas@.take(i as int));
            assert(metas@.take(i + 1).last() == *m);
        }
        let key = m.key();
        let started = str_eq(m.created.as_str(), date) && owns_exec(
            owners,
            key.as_str(),
            m.created.as_str(),
            stem,
        );
        let dropped = !m.retired_on.as_str().is_empty() && str_eq(m.retired_on.as_str(), date)
            && owns_exec(owners, key.as_str(), m.retired_on.as_str(), stem);
        if started || dropped {
            let mut l = if started && dropped {
                owned("Started and dropped")
            } else if started {
                owned("Started")
            } else {
                owned("Dropped")
            };
            l.append(" <a href=\"");
            crate::render::push_esc(&mut l, m.href().as_str());
            l.append("\">");
            crate::render::push_esc(&mut l, key.as_str());
            l.append("</a>: ");
            crate::render::push_esc(&mut l, m.summary.as_str());
            proof {
                assert(l@ =~= strategy_line(*m, owners@, date@, stem@));
            }
            let ghost before = out@;
            out.push(l);
            proof {
                assert(views(out@) =~= views(before).push(l@));
            }
        }
        i += 1;
    }
    proof {
        assert(metas@.take(metas@.len() as int) =~= metas@);
    }
    out
}

/// The idea files dated on the run's day, by name.
pub open spec fn filed_names(ideas: Seq<(String, String)>, date: Seq<char>) -> Seq<Seq<char>>
    decreases ideas.len(),
{
    if ideas.len() == 0 {
        Seq::empty()
    } else {
        let prev = filed_names(ideas.drop_last(), date);
        if ideas.last().0@ == date {
            prev.push(ideas.last().1@)
        } else {
            prev
        }
    }
}

pub open spec fn mono(n: Seq<char>) -> Seq<char> {
    "<span class=\"mono\">"@ + escaped(n) + "</span>"@
}

/// "Added N candidates to the idea backlog: …", credited to the day's last
/// run; nothing when no idea is dated that day.
pub open spec fn ideas_line(ideas: Seq<(String, String)>, date: Seq<char>, last: bool) -> Option<
    Seq<char>,
> {
    let fs = filed_names(ideas, date);
    if !last || fs.len() == 0 {
        None
    } else {
        Some(
            "Added "@ + count_of(fs.len(), "candidate"@) + " to the idea backlog: "@ + join(
                fs.map_values(|n: Seq<char>| mono(n)),
                ", "@,
            ) + "."@,
        )
    }
}

fn ideas_line_exec(ideas: &[(String, String)], date: &str, last: bool) -> (r: Option<String>)
    ensures
        match ideas_line(ideas@, date@, last) {
            Some(l) => r matches Some(x) && x@ == l,
            None => r is None,
        },
{
    if !last {
        return None;
    }
    let mut names: Vec<String> = Vec::new();
    let mut i: usize = 0;
    while i < ideas.len()
        invariant
            i <= ideas@.len(),
            views(names@) == filed_names(ideas@.take(i as int), date@).map_values(
                |n: Seq<char>| mono(n),
            ),
            names@.len() <= i,
        decreases ideas.len() - i,
    {
        proof {
            assert(ideas@.take(i + 1).drop_last() =~= ideas@.take(i as int));
            assert(ideas@.take(i + 1).last() == ideas@[i as int]);
        }
        if str_eq(ideas[i].0.as_str(), date) {
            let mut n = owned("<span class=\"mono\">");
            crate::render::push_esc(&mut n, ideas[i].1.as_str());
            n.append("</span>");
            let ghost before = names@;
            names.push(n);
            proof {
                assert(views(names@) =~= views(before).push(mono(ideas@[i as int].1@)));
                assert(filed_names(ideas@.take(i + 1), date@).map_values(|n: Seq<char>| mono(n))
                    =~= filed_names(ideas@.take(i as int), date@).map_values(
                    |n: Seq<char>| mono(n),
                ).push(mono(ideas@[i as int].1@)));
            }
        }
        i += 1;
    }
    proof {
        assert(ideas@.take(ideas@.len() as int) =~= ideas@);
    }
    if names.len() == 0 {
        return None;
    }
    let mut out = owned("Added ");
    let c = count(names.len(), "candidate");
    out.append(c.as_str());
    out.append(" to the idea backlog: ");
    crate::render::push_join(&mut out, &names, ", ");
    out.append(".");
    Some(out)
}

pub open spec fn opt_seq(o: Option<Seq<char>>) -> Seq<Seq<char>> {
    match o {
        Some(x) => seq![x],
        None => Seq::empty(),
    }
}

pub open spec fn story_p(l: Seq<char>) -> Seq<char> {
    "<p class=\"run-story\">"@ + l + "</p>"@
}

/// The story's paragraphs, or a maintenance note when nothing happened.
pub open spec fn story_html(lines: Seq<Seq<char>>) -> Seq<char> {
    if lines.len() == 0 {
        "<p class=\"run-story\">Maintenance only \u{2014} no predictions, settlements or strategy changes recorded for this run.</p>"@
    } else {
        concat(lines.map_values(|l: Seq<char>| story_p(l)))
    }
}

fn story_exec(lines: &Vec<String>) -> (r: String)
    ensures
        r@ == story_html(views(lines@)),
{
    if lines.len() == 0 {
        return owned(
            "<p class=\"run-story\">Maintenance only \u{2014} no predictions, settlements or strategy changes recorded for this run.</p>",
        );
    }
    let ghost ls = views(lines@).map_values(|l: Seq<char>| story_p(l));
    let mut out = String::new();
    let mut i: usize = 0;
    while i < lines.len()
        invariant
            i <= lines@.len(),
            ls == views(lines@).map_values(|l: Seq<char>| story_p(l)),
            out@ == concat(ls.take(i as int)),
        decreases lines.len() - i,
    {
        out.append("<p class=\"run-story\">");
        out.append(lines[i].as_str());
        out.append("</p>");
        proof {
            assert(ls.take(i + 1).drop_last() =~= ls.take(i as int));
            assert(ls[i as int] == story_p(lines@[i as int]@));
            assert(out@ =~= concat(ls.take(i as int)) + story_p(lines@[i as int]@));
        }
        i += 1;
    }
    proof {
        assert(ls.take(lines@.len() as int) =~= ls);
    }
    out
}

/// A step's string field, or `default` when it has none.
pub open spec fn field_text(step: TomlValue, key: Seq<char>, default: Seq<char>) -> Seq<char> {
    match value_get(step, key) {
        Some(TomlValue::Str(x)) => x@,
        _ => default,
    }
}

/// One step as a table row: who (the role, with the variant it worked on),
/// and the note as written (the status when there is no note).
pub open spec fn step_row(step: TomlValue) -> Seq<Seq<char>> {
    let role = field_text(step, "role"@, "?"@);
    let variant = field_text(step, "variant"@, ""@);
    let note = field_text(step, "note"@, ""@);
    let status = field_text(step, "status"@, ""@);
    let who = if variant.len() == 0 {
        escaped(role)
    } else {
        escaped(role) + "<span class=\"sub\"><a href=\"/strategies/"@ + escaped(variant) + "\">"@
            + escaped(variant) + "</a></span>"@
    };
    seq![
        who,
        if note.len() == 0 {
            escaped(status)
        } else {
            escaped(note)
        },
    ]
}

pub open spec fn steps_head() -> Seq<(Seq<char>, Seq<char>)> {
    seq![("Who"@, ""@), ("Note, as written"@, "wrap"@)]
}

fn field<'a>(step: &'a TomlValue, key: &str, default: &'a str) -> (r: &'a str)
    ensures
        r@ == field_text(*step, key@, default@),
{
    match step.get(key) {
        Some(TomlValue::Str(x)) => x.as_str(),
        _ => default,
    }
}

fn step_row_exec(step: &TomlValue) -> (r: Vec<String>)
    ensures
        views(r@) == step_row(*step),
{
    let role = field(step, "role", "?");
    let variant = field(step, "variant", "");
    let note = field(step, "note", "");
    let status = field(step, "status", "");
    let mut who = esc(role);
    if !variant.is_empty() {
        who.append("<span class=\"sub\"><a href=\"/strategies/");
        crate::render::push_esc(&mut who, variant);
        who.append("\">");
        crate::render::push_esc(&mut who, variant);
        who.append("</a></span>");
    }
    let second = if note.is_empty() {
        esc(status)
    } else {
        esc(note)
    };
    let r = vec![who, second];
    proof {
        assert(views(r@) =~= step_row(*step));
    }
    r
}

/// `yes` or `no`.
pub open spec fn yes_no(b: bool) -> Seq<char> {
    if b {
        "yes"@
    } else {
        "no"@
    }
}

/// The manifest's date.
pub open spec fn run_date(t: TomlTable) -> Seq<char> {
    text_of(table_get(t, "date"@))
}

/// The inputs `run_block` can render: a date whose weekday can be computed,
/// a stem that does not split a character at its run suffix, and one
/// "beat the market" verdict per score row.
pub open spec fn run_block_ok(stem: Seq<char>, t: TomlTable, d: Table, ahead: Seq<bool>) -> bool {
    &&& weekday_fits(run_date(t))
    &&& byte_len(stem) > 10 ==> char_at_byte(stem, 11) is Some
    &&& ahead.len() == d.rows@.len()
}

/// The manifest's steps as a table, its closing note, and its flags.
pub open spec fn run_detail_html(t: TomlTable) -> Seq<char> {
    let steps = array_items(path_value(t, seq!["step"@]));
    let all_ran = bool_of(path_value(t, seq!["health"@, "all_slots_ran"@])) == Some(true);
    let pushed = bool_of(path_value(t, seq!["health"@, "pushed"@])) == Some(true);
    let notes = text_of(path_value(t, seq!["health"@, "notes"@]));
    table_of(steps_head(), steps.map_values(|st: TomlValue| step_row(st)), "data"@) + (if notes.len()
        > 0 {
        "<p class=\"note\"><b>Closing note:</b> "@ + escaped(notes) + "</p>"@
    } else {
        Seq::empty()
    }) + "<p class=\"note\">Trigger: "@ + escaped(text_of(table_get(t, "trigger"@)))
        + " \u{b7} models: "@ + escaped(text_of(table_get(t, "model"@))) + " \u{b7} all slots ran: "@
        + yes_no(all_ran) + " \u{b7} pushed: "@ + yes_no(pushed) + "</p>"@
}

/// The story's lines: what the run logged, what settled for it, which
/// variants it started or dropped, and which ideas it filed.
pub open spec fn run_story_lines(
    stem: Seq<char>,
    date: Seq<char>,
    p: Table,
    r: Table,
    d: Table,
    ahead: Seq<bool>,
    metas: Seq<VariantMeta>,
    ideas: Seq<(String, String)>,
    dates: Seq<Seq<char>>,
    dates_all: Seq<Seq<char>>,
    owners: Seq<(String, String, String)>,
) -> Seq<Seq<char>> {
    let idx = stem_key(stem).1;
    let last = last_of_day(stem, dates_all);
    opt_seq(logged_line(p, date, idx)) + opt_seq(settled_line(r, d, ahead, date, dates, last))
        + strategy_lines(metas, owners, date, stem) + opt_seq(ideas_line(ideas, date, last))
}

/// One run on the runs page: its date line, the story assembled from the
/// dated repo facts credited to it, and the manifest's own steps one click
/// down. `ahead` says, per score row, whether that prediction beat the
/// market; `tokens` is the run's token spend as the page prints it.
pub open spec fn run_block_html(
    stem: Seq<char>,
    t: TomlTable,
    p: Table,
    r: Table,
    d: Table,
    ahead: Seq<bool>,
    metas: Seq<VariantMeta>,
    ideas: Seq<(String, String)>,
    dates: Seq<Seq<char>>,
    dates_all: Seq<Seq<char>>,
    owners: Seq<(String, String, String)>,
    tokens: Seq<char>,
) -> Seq<char> {
    let date = run_date(t);
    let steps = array_items(path_value(t, seq!["step"@]));
    let all_ran = bool_of(path_value(t, seq!["health"@, "all_slots_ran"@])) == Some(true);
    let pushed = bool_of(path_value(t, seq!["health"@, "pushed"@])) == Some(true);
    let health = if all_ran && pushed {
        Seq::empty()
    } else {
        " \u{b7} "@ + badge_html("check health"@, "warn"@)
    };
    let suffix = if byte_len(stem) > 10 {
        " \u{b7} run "@ + stem.skip(char_at_byte(stem, 11).unwrap())
    } else {
        Seq::empty()
    };
    "<section class=\"run\"><div class=\"run-line\"><span class=\"run-when\"><b>"@ + escaped(date)
        + "</b> "@ + escaped(weekday_of(date)) + suffix + "</span><span class=\"run-meta\">"@ + dec(
        steps.len(),
    ) + " steps \u{b7} "@ + tokens + " tokens"@ + health + "</span></div>"@ + story_html(
        run_story_lines(stem, date, p, r, d, ahead, metas, ideas, dates, dates_all, owners),
    )
        + "<details class=\"doc doc-plain\"><summary>What the CEO wrote<span class=\"doc-meta\">ops/runs/"@
        + escaped(stem) + ".toml</span></summary><div class=\"doc-body\">"@ + run_detail_html(t)
        + "</div></details></section>"@
}

fn health_flag(t: &TomlTable, key: &str) -> (r: bool)
    ensures
        r == (bool_of(path_value(*t, seq!["health"@, key@])) == Some(true)),
{
    let path = ["health", key];
    proof {
        assert(path_views(path@) =~= seq!["health"@, key@]);
    }
    match bool_at(t, &path) {
        Some(b) => b,
        None => false,
    }
}

fn steps_of(t: &TomlTable) -> (r: Vec<&TomlValue>)
    ensures
        r@.len() == array_items(path_value(*t, seq!["step"@])).len(),
        forall|i: int|
            0 <= i < r@.len() ==> *(#[trigger] r@[i]) == array_items(path_value(*t, seq!["step"@]))[i],
{
    let path = ["step"];
    proof {
        assert(path_views(path@) =~= seq!["step"@]);
    }
    arr_at(t, &path)
}

fn steps_table(t: &TomlTable) -> (r: String)
    ensures
        r@ == table_of(
            steps_head(),
            array_items(path_value(*t, seq!["step"@])).map_values(|st: TomlValue| step_row(st)),
            "data"@,
        ),
{
    let steps = steps_of(t);
    let ghost items = array_items(path_value(*t, seq!["step"@]));
    let mut step_rows: Vec<Vec<String>> = Vec::new();
    let mut j: usize = 0;
    while j < steps.len()
        invariant
            j <= steps@.len(),
            steps@.len() == items.len(),
            forall|m: int| 0 <= m < steps@.len() ==> *(#[trigger] steps@[m]) == items[m],
            step_rows@.len() == j,
            forall|m: int|
                0 <= m < j ==> (#[trigger] step_rows@[m]).deep_view() == step_row(items[m]),
        decreases steps.len() - j,
    {
        let row = step_row_exec(steps[j]);
        proof {
            assert(row.deep_view() =~= views(row@));
        }
        step_rows.push(row);
        j += 1;
    }
    let head = [("Who", ""), ("Note, as written", "wrap")];
    let rows = step_rows.as_slice();
    proof {
        assert(rows.deep_view() =~~= items.map_values(|st: TomlValue| step_row(st)));
    }
    let hs = head.as_slice();
    proof {
        assert(hs.deep_view() =~= steps_head());
    }
    table(hs, rows)
}

fn run_detail(t: &TomlTable) -> (r: String)
    ensures
        r@ == run_detail_html(*t),
{
    let all_ran = health_flag(t, "all_slots_ran");
    let pushed = health_flag(t, "pushed");
    let notes_path = ["health", "notes"];
    proof {
        assert(path_views(notes_path@) =~= seq!["health"@, "notes"@]);
    }
    let notes = str_at(t, &notes_path);
    let mut detail = steps_table(t);
    if !notes.is_empty() {
        detail.append("<p class=\"note\"><b>Closing note:</b> ");
        crate::render::push_esc(&mut detail, notes);
        detail.append("</p>");
    }
    detail.append("<p class=\"note\">Trigger: ");
    crate::render::push_esc(&mut detail, tstr(t, "trigger"));
    detail.append(" \u{b7} models: ");
    crate::render::push_esc(&mut detail, tstr(t, "model"));
    detail.append(" \u{b7} all slots ran: ");
    detail.append(if all_ran { "yes" } else { "no" });
    detail.append(" \u{b7} pushed: ");
    detail.append(if pushed { "yes" } else { "no" });
    detail.append("</p>");
    proof {
        assert(detail@ =~= run_detail_html(*t));
    }
    detail
}

fn run_story(
    stem: &str,
    date: &str,
    p: &Table,
    r: &Table,
    d: &Table,
    ahead: &Vec<bool>,
    metas: &[VariantMeta],
    ideas: &[(String, String)],
    dates: &[String],
    dates_all: &[String],
    owners: &[(String, String, String)],
) -> (res: String)
    requires
        ahead@.len() == d.rows@.len(),
    ensures
        res@ == story_html(
            run_story_lines(
                stem@,
                date@,
                *p,
                *r,
                *d,
                ahead@,
                metas@,
                ideas@,
                views(dates@),
                views(dates_all@),
                owners@,
            ),
        ),
{
    let (_, idx) = run_key(stem);
    let last = is_last_run_of_day(stem, dates_all);
    let mut lines: Vec<String> = Vec::new();
    let ghost ll = opt_seq(logged_line(*p, date@, idx));
    match logged_line_exec(p, date, idx) {
        Some(l) => lines.push(l),
        None => {},
    }
    proof {
        assert(views(lines@) =~= ll);
    }
    let ghost sl = opt_seq(settled_line(*r, *d, ahead@, date@, views(dates@), last));
    match settled_line_exec(r, d, ahead, date, dates, last) {
        Some(l) => {
            let ghost before = lines@;
            lines.push(l);
            proof {
                assert(views(lines@) =~= views(before).push(l@));
            }
        },
        None => {},
    }
    proof {
        assert(views(lines@) =~= ll + sl);
    }
    let strat = strategy_lines_exec(metas, owners, date, stem);
    let ghost st = views(strat@);
    let mut i: usize = 0;
    let ghost base = views(lines@);
    while i < strat.len()
        invariant
            i <= strat@.len(),
            st == views(strat@),
            views(lines@) == base + st.take(i as int),
        decreases strat.len() - i,
    {
        let ghost before = lines@;
        lines.push(owned(strat[i].as_str()));
        proof {
            assert(views(lines@) =~= views(before).push(st[i as int]));
            assert(st.take(i + 1) =~= st.take(i as int).push(st[i as int]));
            assert(base + st.take(i + 1) =~= (base + st.take(i as int)).push(st[i as int]));
        }
        i += 1;
    }
    proof {
        assert(st.take(strat@.len() as int) =~= st);
    }
    let ghost il = opt_seq(ideas_line(ideas@, date@, last));
    let ghost mid = views(lines@);
    match ideas_line_exec(ideas, date, last) {
        Some(l) => {
            let ghost before = lines@;
            lines.push(l);
            proof {
                assert(views(lines@) =~= views(before).push(l@));
            }
        },
        None => {},
    }
    proof {
        assert(views(lines@) =~= mid + il);
        assert(views(lines@) =~= run_story_lines(
            stem@,
            date@,
            *p,
            *r,
            *d,
            ahead@,
            metas@,
            ideas@,
            views(dates@),
            views(dates_all@),
            owners@,
        ));
    }
    story_exec(&lines)
}

/// One run on the runs page (see `run_block_html`).
pub fn run_block(
    stem: &str,
    t: &TomlTable,
    p: &Table,
    r: &Table,
    d: &Table,
    ahead: &Vec<bool>,
    metas: &[VariantMeta],
    ideas: &[(String, String)],
    dates: &[String],
    dates_all: &[String],
    owners: &[(String, String, String)],
    tokens: &str,
) -> (html: String)
    requires
        run_block_ok(stem@, *t, *d, ahead@),
    ensures
        html@ == run_block_html(
            stem@,
            *t,
            *p,
            *r,
            *d,
            ahead@,
            metas@,
            ideas@,
            views(dates@),
            views(dates_all@),
            owners@,
            tokens@,
        ),
{
    let date = tstr(t, "date");
    let n_steps = steps_of(t).len();
    let all_ran = health_flag(t, "all_slots_ran");
    let pushed = health_flag(t, "pushed");
    let story = run_story(stem, date, p, r, d, ahead, metas, ideas, dates, dates_all, owners);
    let detail = run_detail(t);
    let cs = chars_of(stem);
    let n = cs.len();
    proof {
        assert(cs@.subrange(0, n as int) =~= stem@);
    }
    let mut out = owned("<section class=\"run\"><div class=\"run-line\"><span class=\"run-when\"><b>");
    crate::render::push_esc(&mut out, date);
    out.append("</b> ");
    crate::render::push_esc(&mut out, weekday(date));
    let ghost before_suffix = out@;
    if byte_len_capped(&cs, 0, n, 10) > 10 {
        match char_index_of_byte(&cs, 0, n, 11) {
            Some(k) => {
                out.append(" \u{b7} run ");
                let tail = string_of(&cs, k, n);
                proof {
                    assert(tail@ =~= stem@.skip(k as int));
                }
                out.append(tail.as_str());
            },
            None => {},
        }
    }
    proof {
        let suffix = if byte_len(stem@) > 10 {
            " \u{b7} run "@ + stem@.skip(char_at_byte(stem@, 11).unwrap())
        } else {
            Seq::<char>::empty()
        };
        assert(out@ =~= before_suffix + suffix);
    }
    out.append("</span><span class=\"run-meta\">");
    push_dec(&mut out, n_steps as u64);
    out.append(" steps \u{b7} ");
    out.append(tokens);
    out.append(" tokens");
    if !(all_ran && pushed) {
        out.append(" \u{b7} ");
        let b = badge("check health", "warn");
        out.append(b.as_str());
    }
    out.append("</span></div>");
    out.append(story.as_str());
    out.append(
        "<details class=\"doc doc-plain\"><summary>What the CEO wrote<span class=\"doc-meta\">ops/runs/",
    );
    crate::render::push_esc(&mut out, stem);
    out.append(".toml</span></summary><div class=\"doc-body\">");
    out.append(detail.as_str());
    out.append("</div></details></section>");
    proof {
        assert(out@ =~= run_block_html(
            stem@,
            *t,
            *p,
            *r,
            *d,
            ahead@,
            metas@,
            ideas@,
            views(dates@),
            views(dates_all@),
            owners@,
            tokens@,
        ));
    }
    out
}

// ---------------------------------------------------------------------------
// The runs page's summary strip
// ---------------------------------------------------------------------------

/// Every slot ran and the run's work was pushed.
pub open spec fn healthy(t: TomlTable) -> bool {
    bool_of(path_value(t, seq!["health"@, "all_slots_ran"@])) == Some(true) && bool_of(
        path_value(t, seq!["health"@, "pushed"@]),
    ) == Some(true)
}

pub open spec fn steps_total(runs: Seq<(String, TomlTable)>) -> nat
    decreases runs.len(),
{
    if runs.len() == 0 {
        0
    } else {
        steps_total(runs.drop_last()) + array_items(path_value(runs.last().1, seq!["step"@])).len()
    }
}

pub open spec fn flagged_count(runs: Seq<(String, TomlTable)>) -> nat
    decreases runs.len(),
{
    if runs.len() == 0 {
        0
    } else {
        flagged_count(runs.drop_last()) + if healthy(runs.last().1) {
            0nat
        } else {
            1nat
        }
    }
}

/// The dates of the oldest run (listed last) and the newest (listed first).
pub open spec fn oldest_date(runs: Seq<(String, TomlTable)>) -> Seq<char> {
    if runs.len() == 0 {
        Seq::empty()
    } else {
        run_date(runs.last().1)
    }
}

pub open spec fn newest_date(runs: Seq<(String, TomlTable)>) -> Seq<char> {
    if runs.len() == 0 {
        Seq::empty()
    } else {
        run_date(runs[0].1)
    }
}

/// Calendar days the runs span, both ends included; 0 when the dates do
/// not read.
pub open spec fn span_days(runs: Seq<(String, TomlTable)>) -> int {
    match days_between_of(oldest_date(runs), newest_date(runs)) {
        Some(d) => d + 1,
        None => 0,
    }
}

/// The counts `summary_line` prints fit an `i64`, and the span's day count
/// can be computed.
pub open spec fn summary_ok(runs: Seq<(String, TomlTable)>, p: Table) -> bool {
    &&& runs.len() <= i64::MAX
    &&& steps_total(runs) <= i64::MAX
    &&& p.rows@.len() <= i64::MAX
    &&& days_between_fits(oldest_date(runs), newest_date(runs))
    &&& days_between_of(oldest_date(runs), newest_date(runs)) != Some(i64::MAX as int)
}

/// The strip over the runs page: how many runs over how many days, how much
/// work, how many predictions, the tokens spent (`tokens`, as the page
/// prints the total), and how many runs were healthy.
pub open spec fn summary_line_html(runs: Seq<(String, TomlTable)>, p: Table, tokens: Seq<char>) -> Seq<
    char,
> {
    let flagged = flagged_count(runs);
    let cells = seq![
        stat_line_cell(fmt_int_of(runs.len() as int), "runs in "@ + int_str(span_days(runs)) + " days"@, ""@),
        stat_line_cell(fmt_int_of(steps_total(runs) as int), "pieces of work"@, ""@),
        stat_line_cell(fmt_int_of(p.rows@.len() as int), "predictions logged"@, ""@),
        stat_line_cell(tokens, "tokens spent"@, ""@),
        stat_line_cell(
            if flagged == 0 {
                "all"@
            } else {
                fmt_int_of(runs.len() - flagged)
            },
            "runs healthy"@,
            if flagged == 0 {
                "ok"@
            } else {
                "warn"@
            },
        ),
    ];
    "<div class=\"statline\">"@ + concat(cells) + "</div>"@
}

/// The runs page's summary strip (see `summary_line_html`).
pub fn summary_line(runs: &[(String, TomlTable)], p: &Table, tokens: &str) -> (r: String)
    requires
        summary_ok(runs@, *p),
    ensures
        r@ == summary_line_html(runs@, *p, tokens@),
{
    let mut steps: u64 = 0;
    let mut flagged: usize = 0;
    let mut i: usize = 0;
    while i < runs.len()
        invariant
            i <= runs@.len(),
            steps_total(runs@) <= i64::MAX,
            steps as nat == steps_total(runs@.take(i as int)),
            flagged as nat == flagged_count(runs@.take(i as int)),
            flagged <= i,
        decreases runs.len() - i,
    {
        let t = &runs[i].1;
        proof {
            assert(runs@.take(i + 1).drop_last() =~= runs@.take(i as int));
            assert(runs@.take(i + 1).last() == runs@[i as int]);
            lemma_steps_total_prefix(runs@, i + 1);
        }
        let n = steps_of(t).len() as u64;
        proof {
            assert(steps_total(runs@.take(i + 1)) == steps_total(runs@.take(i as int)) + n);
        }
        steps = steps + n;
        if !(health_flag(t, "all_slots_ran") && health_flag(t, "pushed")) {
            flagged = flagged + 1;
        }
        i += 1;
    }
    proof {
        assert(runs@.take(runs@.len() as int) =~= runs@);
    }
    let first = if runs.len() == 0 {
        ""
    } else {
        tstr(&runs[runs.len() - 1].1, "date")
    };
    let last = if runs.len() == 0 {
        ""
    } else {
        tstr(&runs[0].1, "date")
    };
    proof {
        reveal_strlit("");
        assert(first@ == oldest_date(runs@));
        assert(last@ == newest_date(runs@));
    }
    let days: i64 = match days_between(first, last) {
        Some(d) => d + 1,
        None => 0,
    };
    let mut label = owned("runs in ");
    push_int(&mut label, days);
    label.append(" days");
    let healthy_v = if flagged == 0 {
        owned("all")
    } else {
        fmt_int((runs.len() - flagged) as i64)
    };
    let items = [
        (fmt_int(runs.len() as i64), label, ""),
        (fmt_int(steps as i64), owned("pieces of work"), ""),
        (fmt_int(p.rows.len() as i64), owned("predictions logged"), ""),
        (owned(tokens), owned("tokens spent"), ""),
        (
            healthy_v,
            owned("runs healthy"),
            if flagged == 0 {
                "ok"
            } else {
                "warn"
            },
        ),
    ];
    let r = stat_line(&items);
    proof {
        let cells = items@.map_values(
            |t: (String, String, &str)| stat_line_cell(t.0@, t.1@, t.2@),
        );
        assert(cells[0] == stat_line_cell(fmt_int_of(runs@.len() as int), "runs in "@ + int_str(span_days(runs@)) + " days"@, ""@));
        assert(cells =~= seq![
            stat_line_cell(fmt_int_of(runs@.len() as int), "runs in "@ + int_str(span_days(runs@)) + " days"@, ""@),
            stat_line_cell(fmt_int_of(steps_total(runs@) as int), "pieces of work"@, ""@),
            stat_line_cell(fmt_int_of(p.rows@.len() as int), "predictions logged"@, ""@),
            stat_line_cell(tokens@, "tokens spent"@, ""@),
            stat_line_cell(
                if flagged_count(runs@) == 0 {
                    "all"@
                } else {
                    fmt_int_of(runs@.len() - flagged_count(runs@))
                },
                "runs healthy"@,
                if flagged_count(runs@) == 0 {
                    "ok"@
                } else {
                    "warn"@
                },
            ),
        ]);
    }
    r
}

proof fn lemma_steps_total_prefix(runs: Seq<(String, TomlTable)>, n: int)
    requires
        0 <= n <= runs.len(),
    ensures
        steps_total(runs.take(n)) <= steps_total(runs),
    decreases runs.len() - n,
{
    if n < runs.len() {
        lemma_steps_total_prefix(runs, n + 1);
        assert(runs.take(n + 1).drop_last() =~= runs.take(n));
    } else {
        assert(runs.take(n) =~= runs);
    }
}

} // verus!
