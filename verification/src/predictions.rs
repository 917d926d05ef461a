//! The predictions pages' panels that read only the logged tables: which
//! strategies produced the rows, how each market settled, and one market's
//! facts as logged.
use vstd::prelude::*;

use crate::book::{meta_is, sorted_set_of, sorted_unique, strategy_links, strategy_links_of};
use crate::data::VariantMeta;
use crate::render::{
    badge, badge_html, cell_text, cell_text_of, concat, count, count_of, empty_state, escaped,
    fmt_int, fmt_int_of, fmt_ts, fmt_ts_of, fmt_ts_ok, item, item_html, items, push_esc, row,
    row_html, rows, section, section_html, status_badge, status_tone_of, table, table_of,
};
use crate::runs::{cellv, meta_key, occ, variant_of_row};
use crate::sort::views;
use crate::table::{grid, Table};
use crate::text::{first_index, lemma_first_index_is, lemma_first_index_none, owned, str_eq};

verus! {

/// Every row's `family/variant`, in order.
pub open spec fn row_keys(p: Table) -> Seq<Seq<char>> {
    grid(p.rows@).map_values(|row: Seq<Seq<char>>| variant_of_row(p, row))
}

pub open spec fn meta_is_key(metas: Seq<VariantMeta>, k: Seq<char>) -> spec_fn(int) -> bool {
    |i: int| meta_key(metas[i]) == k
}

/// The first manifest whose `family/variant` is `k`.
pub open spec fn meta_for(metas: Seq<VariantMeta>, k: Seq<char>) -> Option<int> {
    first_index(metas.len() as int, meta_is_key(metas, k))
}

pub open spec fn meta_href(m: VariantMeta) -> Seq<char> {
    "/strategies/"@ + m.family@ + "/"@ + m.variant@
}

/// One strategy's entry: its key, its own summary when it has a manifest,
/// and how many rows it logged.
pub open spec fn attribution_item(p: Table, metas: Seq<VariantMeta>, k: Seq<char>) -> Seq<char> {
    let n = badge_html(count_of(occ(row_keys(p), k), "row"@), ""@);
    match meta_for(metas, k) {
        Some(i) => item_html(
            meta_href(metas[i]),
            escaped(k),
            "<span class=\"item-summary\">"@ + escaped(metas[i].summary@) + "</span>"@,
            n,
        ),
        None => item_html(Seq::empty(), escaped(k), Seq::empty(), n),
    }
}

/// The section over the strategies `ks`; nothing when there are none.
pub open spec fn attribution_with(ks: Seq<Seq<char>>, p: Table, metas: Seq<VariantMeta>) -> Seq<
    char,
> {
    if ks.len() == 0 {
        Seq::empty()
    } else {
        section_html(
            "Where these predictions come from"@,
            "the strategies that produced the rows below, in their own words"@,
            ""@,
            "<div class=\"items\">"@ + concat(
                ks.map_values(|k: Seq<char>| attribution_item(p, metas, k)),
            ) + "</div>"@,
            Seq::empty(),
        )
    }
}

fn find_meta(metas: &[VariantMeta], k: &str) -> (r: Option<usize>)
    ensures
        match r {
            Some(i) => meta_for(metas@, k@) == Some(i as int) && i < metas@.len(),
            None => meta_for(metas@, k@) is None,
        },
{
    let ghost p = meta_is_key(metas@, k@);
    let mut i: usize = 0;
    while i < metas.len()
        invariant
            i <= metas@.len(),
            p == meta_is_key(metas@, k@),
            forall|j: int| 0 <= j < i ==> !#[trigger] p(j),
        decreases metas.len() - i,
    {
        if str_eq(metas[i].key().as_str(), k) {
            proof {
                lemma_first_index_is(metas@.len() as int, p, i as int);
            }
            return Some(i);
        }
        i += 1;
    }
    proof {
        lemma_first_index_none(metas@.len() as int, p);
    }
    None
}

/// `family/variant` of each row.
fn keys_of(p: &Table) -> (r: Vec<String>)
    ensures
        views(r@) == row_keys(*p),
{
    let mut out: Vec<String> = Vec::new();
    let mut i: usize = 0;
    while i < p.rows.len()
        invariant
            i <= p.rows@.len(),
            views(out@) == row_keys(*p).take(i as int),
        decreases p.rows.len() - i,
    {
        let row = p.rows[i].as_slice();
        let mut k = owned(p.cell(row, "family"));
        k.append("/");
        k.append(p.cell(row, "variant"));
        let ghost before = out@;
        out.push(k);
        proof {
            assert(grid(p.rows@)[i as int] == views(p.rows@[i as int]@));
            assert(views(out@) =~= views(before).push(k@));
            assert(row_keys(*p).take(i + 1) =~= row_keys(*p).take(i as int).push(
                row_keys(*p)[i as int],
            ));
        }
        i += 1;
    }
    proof {
        assert(row_keys(*p).take(p.rows@.len() as int) =~= row_keys(*p));
    }
    out
}

/// How often `k` occurs among `keys`.
fn count_key(keys: &Vec<String>, k: &str) -> (r: usize)
    ensures
        r == occ(views(keys@), k@),
{
    let ghost ks = views(keys@);
    let mut n: usize = 0;
    let mut i: usize = 0;
    while i < keys.len()
        invariant
            i <= keys@.len(),
            ks == views(keys@),
            n == occ(ks.take(i as int), k@),
            n <= i,
        decreases keys.len() - i,
    {
        proof {
            assert(ks.take(i + 1).drop_last() =~= ks.take(i as int));
            assert(ks.take(i + 1).last() == keys@[i as int]@);
        }
        if str_eq(keys[i].as_str(), k) {
            n = n + 1;
        }
        i += 1;
    }
    proof {
        assert(ks.take(keys@.len() as int) =~= ks);
    }
    n
}

/// Which strategies produced the rows: one entry per `family/variant`, in
/// key order, with its summary and its row count.
pub fn attribution(p: &Table, metas: &[VariantMeta]) -> (r: String)
    ensures
        exists|ks: Seq<Seq<char>>|
            sorted_set_of(ks, row_keys(*p)) && r@ == #[trigger] attribution_with(ks, *p, metas@),
{
    let all = keys_of(p);
    let ghost raw = views(all@);
    let mut copy: Vec<String> = Vec::new();
    let mut c: usize = 0;
    while c < all.len()
        invariant
            c <= all@.len(),
            raw == views(all@),
            views(copy@) == raw.take(c as int),
        decreases all.len() - c,
    {
        let ghost before = copy@;
        copy.push(owned(all[c].as_str()));
        proof {
            assert(views(copy@) =~= views(before).push(raw[c as int]));
            assert(raw.take(c + 1) =~= raw.take(c as int).push(raw[c as int]));
        }
        c += 1;
    }
    proof {
        assert(raw.take(all@.len() as int) =~= raw);
    }
    let keys = sorted_unique(copy);
    if keys.len() == 0 {
        let r = String::new();
        proof {
            assert(attribution_with(views(keys@), *p, metas@) =~= r@);
        }
        return r;
    }
    let ghost ks = views(keys@);
    let ghost its = ks.map_values(|k: Seq<char>| attribution_item(*p, metas@, k));
    let mut inner = String::new();
    let mut i: usize = 0;
    while i < keys.len()
        invariant
            i <= keys@.len(),
            ks == views(keys@),
            raw == views(all@),
            raw == row_keys(*p),
            its == ks.map_values(|k: Seq<char>| attribution_item(*p, metas@, k)),
            inner@ == concat(its.take(i as int)),
        decreases keys.len() - i,
    {
        let k = keys[i].as_str();
        let n = count_key(&all, k);
        let nb = badge(count(n, "row").as_str(), "");
        let entry = match find_meta(metas, k) {
            Some(j) => {
                let mut sub = owned("<span class=\"item-summary\">");
                push_esc(&mut sub, metas[j].summary.as_str());
                sub.append("</span>");
                let title = crate::render::esc(k);
                item(metas[j].href().as_str(), title.as_str(), sub.as_str(), nb.as_str())
            },
            None => {
                let title = crate::render::esc(k);
                let none = String::new();
                item(none.as_str(), title.as_str(), none.as_str(), nb.as_str())
            },
        };
        proof {
            assert(ks[i as int] == k@);
            assert(entry@ == attribution_item(*p, metas@, k@));
            assert(its.take(i + 1).drop_last() =~= its.take(i as int));
        }
        inner.append(entry.as_str());
        i += 1;
    }
    proof {
        assert(its.take(keys@.len() as int) =~= its);
    }
    let body = items(inner.as_str());
    let r = section(
        "Where these predictions come from",
        "the strategies that produced the rows below, in their own words",
        "",
        body.as_str(),
    );
    proof {
        assert(r@ == attribution_with(ks, *p, metas@));
    }
    r
}

/// Whether any prediction row is on market `slug`.
pub open spec fn predicted(p: Table, slug: Seq<char>) -> bool {
    exists|i: int|
        0 <= i < p.rows@.len() && cellv(p, #[trigger] grid(p.rows@)[i], "market_slug"@) == slug
}

/// One resolution as a table row: the market (linked when we predicted on
/// it) with its note, the winning outcome, the date.
pub open spec fn resolution_row(r: Table, p: Table, row: Seq<Seq<char>>) -> Seq<Seq<char>> {
    let slug = cellv(r, row, "market_slug"@);
    let note = cellv(r, row, "note"@);
    seq![
        (if predicted(p, slug) {
            "<a href=\"/markets/"@ + escaped(slug) + "\">"@ + escaped(slug) + "</a>"@
        } else {
            escaped(slug)
        }) + (if note.len() == 0 {
            Seq::empty()
        } else {
            "<span class=\"sub\">"@ + escaped(note) + "</span>"@
        }),
        badge_html(cellv(r, row, "winning_outcome"@), ""@),
        "<span class=\"mono\">"@ + escaped(cellv(r, row, "resolved_date"@)) + "</span>"@,
    ]
}

pub open spec fn resolutions_head() -> Seq<(Seq<char>, Seq<char>)> {
    seq![("Market"@, ""@), ("Winner"@, ""@), ("Resolved"@, ""@)]
}

/// How each market settled, newest (last logged) first; an empty state when
/// nothing has.
pub open spec fn resolutions_html(r: Table, p: Table) -> Seq<char> {
    let rs = grid(r.rows@);
    if rs.len() == 0 {
        section_html(
            "Resolutions"@,
            "predictions/resolutions.csv"@,
            ""@,
            "<div class=\"empty\"><strong>"@ + escaped("Nothing resolved yet"@) + "</strong>"@
                + "<div>The CEO appends a row when a market settles.</div>"@ + "</div>"@,
            Seq::empty(),
        )
    } else {
        section_html(
            "Resolutions"@,
            "how each market settled, newest first"@,
            badge_html(count_of(rs.len(), "market"@), ""@),
            table_of(
                resolutions_head(),
                rs.reverse().map_values(|row: Seq<Seq<char>>| resolution_row(r, p, row)),
                "data"@,
            ),
            Seq::empty(),
        )
    }
}

fn predicted_exec(p: &Table, slug: &str) -> (b: bool)
    ensures
        b == predicted(*p, slug@),
{
    let mut i: usize = 0;
    while i < p.rows.len()
        invariant
            i <= p.rows@.len(),
            forall|j: int|
                0 <= j < i ==> cellv(*p, #[trigger] grid(p.rows@)[j], "market_slug"@) != slug@,
        decreases p.rows.len() - i,
    {
        let row = p.rows[i].as_slice();
        proof {
            assert(grid(p.rows@)[i as int] == views(p.rows@[i as int]@));
        }
        if str_eq(p.cell(row, "market_slug"), slug) {
            return true;
        }
        i += 1;
    }
    false
}

fn resolution_row_exec(r: &Table, p: &Table, row: &[String]) -> (out: Vec<String>)
    ensures
        views(out@) == resolution_row(*r, *p, views(row@)),
{
    let slug = r.cell(row, "market_slug");
    let note = r.cell(row, "note");
    let mut first = if predicted_exec(p, slug) {
        let mut a = owned("<a href=\"/markets/");
        push_esc(&mut a, slug);
        a.append("\">");
        push_esc(&mut a, slug);
        a.append("</a>");
        a
    } else {
        crate::render::esc(slug)
    };
    if !note.is_empty() {
        first.append("<span class=\"sub\">");
        push_esc(&mut first, note);
        first.append("</span>");
    }
    let winner = badge(r.cell(row, "winning_outcome"), "");
    let mut date = owned("<span class=\"mono\">");
    push_esc(&mut date, r.cell(row, "resolved_date"));
    date.append("</span>");
    let ghost want = resolution_row(*r, *p, views(row@));
    proof {
        assert(slug@ == cellv(*r, views(row@), "market_slug"@));
        assert(first@ =~= want[0]);
        assert(winner@ =~= want[1]);
        assert(date@ =~= want[2]);
    }
    let out = vec![first, winner, date];
    proof {
        assert(views(out@) =~= want);
    }
    out
}

/// The resolutions section.
pub fn resolutions_table(r: &Table, p: &Table) -> (html: String)
    ensures
        html@ == resolutions_html(*r, *p),
{
    if r.rows.len() == 0 {
        let e = empty_state(
            "Nothing resolved yet",
            "<div>The CEO appends a row when a market settles.</div>",
        );
        return section("Resolutions", "predictions/resolutions.csv", "", e.as_str());
    }
    let ghost rs = grid(r.rows@);
    let ghost want = rs.reverse().map_values(|row: Seq<Seq<char>>| resolution_row(*r, *p, row));
    let mut body: Vec<Vec<String>> = Vec::new();
    let n = r.rows.len();
    let mut k: usize = 0;
    while k < n
        invariant
            k <= n,
            n == r.rows@.len(),
            rs == grid(r.rows@),
            want == rs.reverse().map_values(|row: Seq<Seq<char>>| resolution_row(*r, *p, row)),
            body@.len() == k,
            forall|m: int| 0 <= m < k ==> (#[trigger] body@[m]).deep_view() == want[m],
        decreases n - k,
    {
        let row = r.rows[n - 1 - k].as_slice();
        let cells = resolution_row_exec(r, p, row);
        proof {
            assert(rs[n - 1 - k] == views(r.rows@[n - 1 - k]@));
            assert(rs.reverse()[k as int] == rs[n - 1 - k]);
            assert(cells.deep_view() =~= views(cells@));
        }
        body.push(cells);
        k += 1;
    }
    let head = [("Market", ""), ("Winner", ""), ("Resolved", "")];
    let hs = head.as_slice();
    let bs = body.as_slice();
    proof {
        assert(hs.deep_view() =~= resolutions_head());
        assert(bs.deep_view() =~~= want);
    }
    let t = table(hs, bs);
    let chip = badge(count(n, "market").as_str(), "");
    section("Resolutions", "how each market settled, newest first", chip.as_str(), t.as_str())
}

/// "What it claims": the variant's own summary, when its manifest has one.
pub open spec fn claims_row(metas: Seq<VariantMeta>, family: Seq<char>, variant: Seq<char>) -> Seq<
    char,
> {
    match first_index(metas.len() as int, meta_is(metas, family, variant)) {
        Some(i) => if metas[i].summary@.len() > 0 {
            "<div class=\"row row-block\"><span class=\"k\">What it claims</span><span class=\"v\">"@
                + escaped(metas[i].summary@) + "</span></div>"@
        } else {
            Seq::empty()
        },
        None => Seq::empty(),
    }
}

pub open spec fn mono_html(x: Seq<char>) -> Seq<char> {
    "<span class=\"mono\">"@ + escaped(x) + "</span>"@
}

/// How the market settled, or that it is open.
pub open spec fn resolved_rows(r: Table, resolution: Option<Seq<Seq<char>>>) -> Seq<char> {
    match resolution {
        Some(rr) => row_html(
            "Resolved"@,
            badge_html(cellv(r, rr, "winning_outcome"@), "ok"@) + " "@ + mono_html(
                cellv(r, rr, "resolved_date"@),
            ),
        ) + if cellv(r, rr, "note"@).len() > 0 {
            row_html("Note"@, escaped(cellv(r, rr, "note"@)))
        } else {
            Seq::empty()
        },
        None => row_html("Resolved"@, "<span class=\"muted\">open</span>"@),
    }
}

/// One market's facts as logged: its strategy, what that strategy claims,
/// the prediction's status, when it was first and last logged, how many rows
/// there are, its ids, and how it settled.
pub open spec fn market_facts_html(
    p: Table,
    r: Table,
    n_rows: nat,
    first: Seq<Seq<char>>,
    latest: Seq<Seq<char>>,
    resolution: Option<Seq<Seq<char>>>,
    family: Seq<char>,
    variant: Seq<char>,
    metas: Seq<VariantMeta>,
) -> Seq<char> {
    let cond = cellv(p, latest, "condition_id"@);
    let token = cellv(p, latest, "token_id"@);
    let status = cellv(p, latest, "status"@);
    let inner = row_html("Strategy"@, strategy_links_of(family, variant, metas)) + claims_row(
        metas,
        family,
        variant,
    ) + row_html("Status"@, badge_html(status, status_tone_of(status))) + row_html(
        "First logged"@,
        mono_html(fmt_ts_of(cellv(p, first, "timestamp"@))),
    ) + row_html("Last logged"@, mono_html(fmt_ts_of(cellv(p, latest, "timestamp"@)))) + row_html(
        "Rows"@,
        fmt_int_of(n_rows as int),
    ) + (if cond.len() > 0 {
        row_html("Condition id"@, cell_text_of(cond))
    } else {
        Seq::empty()
    }) + (if token.len() > 0 {
        row_html("Token id"@, cell_text_of(token))
    } else {
        Seq::empty()
    }) + resolved_rows(r, resolution);
    section_html(
        "Market facts"@,
        "identifiers as logged with the prediction"@,
        ""@,
        "<div class=\"rows\">"@ + inner + "</div>"@,
        Seq::empty(),
    )
}

pub open spec fn opt_views(o: Option<&Vec<String>>) -> Option<Seq<Seq<char>>> {
    match o {
        Some(v) => Some(views(v@)),
        None => None,
    }
}

fn claims(metas: &[VariantMeta], family: &str, variant: &str) -> (r: String)
    ensures
        r@ == claims_row(metas@, family@, variant@),
{
    let ghost p = meta_is(metas@, family@, variant@);
    let mut i: usize = 0;
    while i < metas.len()
        invariant
            i <= metas@.len(),
            p == meta_is(metas@, family@, variant@),
            forall|j: int| 0 <= j < i ==> !#[trigger] p(j),
        decreases metas.len() - i,
    {
        if str_eq(metas[i].family.as_str(), family) && str_eq(metas[i].variant.as_str(), variant) {
            proof {
                lemma_first_index_is(metas@.len() as int, p, i as int);
            }
            if metas[i].summary.as_str().is_empty() {
                return String::new();
            }
            let mut out = owned(
                "<div class=\"row row-block\"><span class=\"k\">What it claims</span><span class=\"v\">",
            );
            push_esc(&mut out, metas[i].summary.as_str());
            out.append("</span></div>");
            return out;
        }
        i += 1;
    }
    proof {
        lemma_first_index_none(metas@.len() as int, p);
    }
    String::new()
}

fn mono_exec(x: &str) -> (r: String)
    ensures
        r@ == mono_html(x@),
{
    let mut out = owned("<span class=\"mono\">");
    push_esc(&mut out, x);
    out.append("</span>");
    out
}

fn resolved_exec(r: &Table, resolution: Option<&Vec<String>>) -> (out: String)
    ensures
        out@ == resolved_rows(*r, opt_views(resolution)),
{
    match resolution {
        Some(rr) => {
            let row_s = rr.as_slice();
            let mut v = badge(r.cell(row_s, "winning_outcome"), "ok");
            v.append(" ");
            let m = mono_exec(r.cell(row_s, "resolved_date"));
            v.append(m.as_str());
            let mut out = row("Resolved", v.as_str());
            let note = r.cell(row_s, "note");
            if !note.is_empty() {
                let n = crate::render::esc(note);
                let nr = row("Note", n.as_str());
                out.append(nr.as_str());
            }
            out
        },
        None => row("Resolved", "<span class=\"muted\">open</span>"),
    }
}

/// The "Market facts" section of a market page.
pub fn market_facts(
    p: &Table,
    r: &Table,
    rows_of_market: &[&Vec<String>],
    first: &Vec<String>,
    latest: &Vec<String>,
    resolution: Option<&Vec<String>>,
    family: &str,
    variant: &str,
    metas: &[VariantMeta],
) -> (html: String)
    requires
        fmt_ts_ok(cellv(*p, views(first@), "timestamp"@)),
        fmt_ts_ok(cellv(*p, views(latest@), "timestamp"@)),
        rows_of_market@.len() <= i64::MAX,
    ensures
        html@ == market_facts_html(
            *p,
            *r,
            rows_of_market@.len(),
            views(first@),
            views(latest@),
            opt_views(resolution),
            family@,
            variant@,
            metas@,
        ),
{
    let fs = first.as_slice();
    let ls = latest.as_slice();
    let cond = p.cell(ls, "condition_id");
    let token = p.cell(ls, "token_id");
    let sl = strategy_links(family, variant, metas);
    let mut inner = row("Strategy", sl.as_str());
    let c = claims(metas, family, variant);
    inner.append(c.as_str());
    let st = status_badge(p.cell(ls, "status"));
    let st_row = row("Status", st.as_str());
    inner.append(st_row.as_str());
    let f = mono_exec(fmt_ts(p.cell(fs, "timestamp")).as_str());
    let f_row = row("First logged", f.as_str());
    inner.append(f_row.as_str());
    let l = mono_exec(fmt_ts(p.cell(ls, "timestamp")).as_str());
    let l_row = row("Last logged", l.as_str());
    inner.append(l_row.as_str());
    let n = fmt_int(rows_of_market.len() as i64);
    let n_row = row("Rows", n.as_str());
    inner.append(n_row.as_str());
    if !cond.is_empty() {
        let ct = cell_text(cond);
        let cr = row("Condition id", ct.as_str());
        inner.append(cr.as_str());
    }
    if !token.is_empty() {
        let tt = cell_text(token);
        let tr = row("Token id", tt.as_str());
        inner.append(tr.as_str());
    }
    let res = resolved_exec(r, resolution);
    inner.append(res.as_str());
    let body = rows(inner.as_str());
    let out = section("Market facts", "identifiers as logged with the prediction", "", body.as_str());
    proof {
        let cond_s = cellv(*p, views(latest@), "condition_id"@);
        let token_s = cellv(*p, views(latest@), "token_id"@);
        let want_inner = row_html("Strategy"@, strategy_links_of(family@, variant@, metas@))
            + claims_row(metas@, family@, variant@) + row_html(
            "Status"@,
            badge_html(
                cellv(*p, views(latest@), "status"@),
                status_tone_of(cellv(*p, views(latest@), "status"@)),
            ),
        ) + row_html(
            "First logged"@,
            mono_html(fmt_ts_of(cellv(*p, views(first@), "timestamp"@))),
        ) + row_html(
            "Last logged"@,
            mono_html(fmt_ts_of(cellv(*p, views(latest@), "timestamp"@))),
        ) + row_html("Rows"@, fmt_int_of(rows_of_market@.len() as int)) + (if cond_s.len() > 0 {
            row_html("Condition id"@, cell_text_of(cond_s))
        } else {
            Seq::empty()
        }) + (if token_s.len() > 0 {
            row_html("Token id"@, cell_text_of(token_s))
        } else {
            Seq::empty()
        }) + resolved_rows(*r, opt_views(resolution));
        assert(inner@ =~= want_inner);
    }
    out
}

} // verus!
