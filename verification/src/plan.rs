//! The paper book's plan summary and its fee-free warning.
use vstd::prelude::*;

use crate::number::{dec, push_dec};
use crate::render::{
    badge, badge_html, concat, count, count_of, empty_state, esc, escaped, fmt_int, fmt_int_of,
    fmt_ts, fmt_ts_of, fmt_ts_ok, icon, icon_svg, lemma_concat_take, notes, notes_html, push_esc,
    section,
    section_foot, section_html, stat_html, stat_line, stat_line_cell, stat_piece, table, table_of,
};
use crate::book::{
    iso_of_ms, now_iso, strategy_links, strategy_links_of, symbol, symbol_of, symbol_tone,
    symbol_tone_of,
};
use crate::data::VariantMeta;
use crate::sort::views;
use crate::text::{
    chars_of, first_index, lemma_first_index, lemma_first_index_is, lemma_first_index_none, lines,
    lines_in, owned, push_char, push_window, replace_char, str_eq, wins, windows_ok,
};
use vstd::utf8::encode_utf8;

verus! {

/// What the plan summary and the fee-free warning read of a policy file: its
/// stem, name, version and character line, whether it delays entry, and
/// whether it charges the venue's taker fee.
pub struct PlanPolicy {
    pub file: String,
    pub name: String,
    pub version: i64,
    pub character: String,
    pub delayed: bool,
    pub taker_fees: bool,
}

/// How many of `xs` are `x`.
pub open spec fn tally_of(xs: Seq<Seq<char>>, x: Seq<char>) -> nat
    decreases xs.len(),
{
    if xs.len() == 0 {
        0
    } else {
        tally_of(xs.drop_last(), x) + if xs.last() == x {
            1nat
        } else {
            0nat
        }
    }
}

/// How many of `xs` are not empty.
pub open spec fn nonempty_count(xs: Seq<Seq<char>>) -> nat
    decreases xs.len(),
{
    if xs.len() == 0 {
        0
    } else {
        nonempty_count(xs.drop_last()) + if xs.last().len() > 0 {
            1nat
        } else {
            0nat
        }
    }
}

pub open spec fn refused_text(refused: nat) -> Seq<char> {
    if refused == 1 {
        "1 candidate was refused, and the table below says by which rule"@
    } else {
        dec(refused) + " candidates were refused, and the table below says by which rule"@
    }
}

pub open spec fn prices_text(age_mins: Option<u64>) -> Seq<char> {
    match age_mins {
        Some(a) => "priced against the order book as of "@ + dec(a as nat) + " minutes ago"@,
        None => "no order-book snapshot could be read, so every price below is the last logged midpoint spread apart by this policy's assumed spread \u{2014} an assumption about a book, not a book"@,
    }
}

/// The plan's line: how many positions it opens, increases, reduces and
/// closes.
pub open spec fn plan_line(kinds: Seq<Seq<char>>) -> Seq<char> {
    "<p class=\"plan-line\"><b>Plan:</b> "@ + dec(tally_of(kinds, "open"@)) + " to open, "@ + dec(
        tally_of(kinds, "increase"@),
    ) + " to increase, "@ + dec(tally_of(kinds, "reduce"@)) + " to reduce, "@ + dec(
        tally_of(kinds, "close"@),
    ) + " to close.</p>"@
}

/// The plan's statistics: the policy, how many signals were considered, how
/// many passed every gate, and how many actions result.
pub open spec fn plan_stats_html(policy: PlanPolicy, kinds: Seq<Seq<char>>, gates: Seq<Seq<char>>) -> Seq<
    char,
> {
    let actions = tally_of(kinds, "open"@) + tally_of(kinds, "increase"@) + tally_of(
        kinds,
        "reduce"@,
    ) + tally_of(kinds, "close"@);
    let considered = gates.len();
    let refused = nonempty_count(gates);
    "<div class=\"statgrid\">"@ + stat_html(
        escaped(policy.name@),
        "policy"@,
        ""@,
        if policy.character@.len() == 0 {
            "no character line in the policy file"@
        } else {
            policy.character@
        },
        "/backtest"@,
    ) + stat_html(
        fmt_int_of(considered as int),
        "signals considered"@,
        ""@,
        if policy.delayed {
            "the latest unresolved prediction on each selected market that is already old enough for this policy's entry delay"@
        } else {
            "the latest unresolved prediction on each selected market"@
        },
        ""@,
    ) + stat_html(
        fmt_int_of(considered - refused),
        "passed every gate"@,
        if considered > 0 && considered == refused {
            "warn"@
        } else {
            ""@
        },
        refused_text(refused),
        ""@,
    ) + stat_html(
        fmt_int_of(actions as int),
        "actions"@,
        ""@,
        dec(tally_of(kinds, "no change"@)) + " unchanged \u{b7} "@ + dec(tally_of(kinds, "unmanaged"@))
            + " outside this plan"@,
        ""@,
    ) + "</div>"@
}

/// "What this plan would do": the plan's line and statistics. `kinds` lists
/// the kind of each proposed action; `gates` lists, per candidate, the rule
/// that refused it, empty for one that passed; `age_mins` is the age of the
/// order-book snapshot the prices were read from.
pub open spec fn plan_summary_html(
    policy: PlanPolicy,
    kinds: Seq<Seq<char>>,
    gates: Seq<Seq<char>>,
    age_mins: Option<u64>,
    plan_id: Seq<char>,
) -> Seq<char> {
    section_html(
        "What this plan would do"@,
        "target positions minus what is open, the way terraform reads a diff"@,
        badge_html(
            "version "@ + crate::number::int_str(policy.version as int),
            if policy.version >= 2 {
                "ok"@
            } else {
                "warn"@
            },
        ),
        plan_line(kinds) + plan_stats_html(policy, kinds, gates),
        "<div class=\"sec-foot\">"@ + plan_foot_html(policy, plan_id, age_mins) + "</div>"@,
    )
}

fn tally_exec(xs: &[String], x: &str) -> (r: usize)
    ensures
        r == tally_of(views(xs@), x@),
        r <= xs@.len(),
{
    let ghost vs = views(xs@);
    let mut n: usize = 0;
    let mut i: usize = 0;
    while i < xs.len()
        invariant
            i <= xs@.len(),
            vs == views(xs@),
            n == tally_of(vs.take(i as int), x@),
            n <= i,
        decreases xs.len() - i,
    {
        proof {
            assert(vs.take(i + 1).drop_last() =~= vs.take(i as int));
            assert(vs.take(i + 1).last() == xs@[i as int]@);
        }
        if str_eq(xs[i].as_str(), x) {
            n = n + 1;
        }
        i += 1;
    }
    proof {
        assert(vs.take(xs@.len() as int) =~= vs);
    }
    n
}

proof fn lemma_tally_disjoint(xs: Seq<Seq<char>>, a: Seq<char>, b: Seq<char>, c: Seq<char>, d: Seq<char>)
    requires
        a != b && a != c && a != d && b != c && b != d && c != d,
    ensures
        tally_of(xs, a) + tally_of(xs, b) + tally_of(xs, c) + tally_of(xs, d) <= xs.len(),
    decreases xs.len(),
{
    if xs.len() > 0 {
        lemma_tally_disjoint(xs.drop_last(), a, b, c, d);
    }
}

fn plan_line_exec(kinds: &[String]) -> (r: String)
    ensures
        r@ == plan_line(views(kinds@)),
{
    let mut line = owned("<p class=\"plan-line\"><b>Plan:</b> ");
    push_dec(&mut line, tally_exec(kinds, "open") as u64);
    line.append(" to open, ");
    push_dec(&mut line, tally_exec(kinds, "increase") as u64);
    line.append(" to increase, ");
    push_dec(&mut line, tally_exec(kinds, "reduce") as u64);
    line.append(" to reduce, ");
    push_dec(&mut line, tally_exec(kinds, "close") as u64);
    line.append(" to close.</p>");
    line
}

fn count_nonempty(gates: &[String]) -> (r: usize)
    ensures
        r == nonempty_count(views(gates@)),
        r <= gates@.len(),
{
    let mut refused: usize = 0;
    let ghost gv = views(gates@);
    let mut g: usize = 0;
    while g < gates.len()
        invariant
            g <= gates@.len(),
            gv == views(gates@),
            refused == nonempty_count(gv.take(g as int)),
            refused <= g,
        decreases gates.len() - g,
    {
        proof {
            assert(gv.take(g + 1).drop_last() =~= gv.take(g as int));
            assert(gv.take(g + 1).last() == gates@[g as int]@);
        }
        if !gates[g].as_str().is_empty() {
            refused = refused + 1;
        }
        g += 1;
    }
    proof {
        assert(gv.take(gates@.len() as int) =~= gv);
    }
    refused
}

fn plan_stats(policy: &PlanPolicy, kinds: &[String], gates: &[String]) -> (r: String)
    requires
        kinds@.len() <= i64::MAX,
        gates@.len() <= i64::MAX,
    ensures
        r@ == plan_stats_html(*policy, views(kinds@), views(gates@)),
{
    let nk = kinds.len();
    let o = tally_exec(kinds, "open");
    let i = tally_exec(kinds, "increase");
    let rd = tally_exec(kinds, "reduce");
    let c = tally_exec(kinds, "close");
    proof {
        reveal_strlit("open");
        reveal_strlit("increase");
        reveal_strlit("reduce");
        reveal_strlit("close");
        assert("open"@.len() == 4);
        assert("increase"@.len() == 8);
        assert("reduce"@.len() == 6);
        assert("close"@.len() == 5);
        lemma_tally_disjoint(views(kinds@), "open"@, "increase"@, "reduce"@, "close"@);
    }
    let actions = o + i + rd + c;
    let considered = gates.len();
    let refused = count_nonempty(gates);
    let mut r = owned("<div class=\"statgrid\">");
    let name = crate::render::esc(policy.name.as_str());
    let c1 = stat_piece(
        name.as_str(),
        "policy",
        "",
        if policy.character.as_str().is_empty() {
            "no character line in the policy file"
        } else {
            policy.character.as_str()
        },
        "/backtest",
    );
    r.append(c1.as_str());
    let v2 = fmt_int(considered as i64);
    let c2 = stat_piece(
        v2.as_str(),
        "signals considered",
        "",
        if policy.delayed {
            "the latest unresolved prediction on each selected market that is already old enough for this policy's entry delay"
        } else {
            "the latest unresolved prediction on each selected market"
        },
        "",
    );
    r.append(c2.as_str());
    let v3 = fmt_int((considered - refused) as i64);
    let mut why = String::new();
    if refused == 1 {
        why.append("1 candidate was refused, and the table below says by which rule");
    } else {
        push_dec(&mut why, refused as u64);
        why.append(" candidates were refused, and the table below says by which rule");
    }
    let c3 = stat_piece(
        v3.as_str(),
        "passed every gate",
        if considered > 0 && considered == refused {
            "warn"
        } else {
            ""
        },
        why.as_str(),
        "",
    );
    r.append(c3.as_str());
    let v4 = fmt_int(actions as i64);
    let mut ctx4 = String::new();
    push_dec(&mut ctx4, tally_exec(kinds, "no change") as u64);
    ctx4.append(" unchanged \u{b7} ");
    push_dec(&mut ctx4, tally_exec(kinds, "unmanaged") as u64);
    ctx4.append(" outside this plan");
    let c4 = stat_piece(v4.as_str(), "actions", "", ctx4.as_str(), "");
    r.append(c4.as_str());
    r.append("</div>");
    proof {
        let ks = views(kinds@);
        let gs = views(gates@);
        assert(c1@ == stat_html(
            escaped(policy.name@),
            "policy"@,
            ""@,
            if policy.character@.len() == 0 {
                "no character line in the policy file"@
            } else {
                policy.character@
            },
            "/backtest"@,
        ));
        assert(considered == gs.len());
        assert(refused == nonempty_count(gs));
        assert(why@ =~= refused_text(refused as nat));
        assert(actions == tally_of(ks, "open"@) + tally_of(ks, "increase"@) + tally_of(ks, "reduce"@) + tally_of(ks, "close"@));
        assert(ctx4@ =~= dec(tally_of(ks, "no change"@)) + " unchanged \u{b7} "@ + dec(tally_of(ks, "unmanaged"@)) + " outside this plan"@);
        assert(r@ =~= plan_stats_html(*policy, views(kinds@), views(gates@)));
    }
    r
}

/// The summary's footer: the policy file, the plan id, and what the prices
/// were read from.
pub open spec fn plan_foot_html(policy: PlanPolicy, plan_id: Seq<char>, age_mins: Option<u64>) -> Seq<
    char,
> {
    "<span class=\"mono\">execution/policies/"@ + escaped(policy.file@)
        + ".toml</span><span class=\"mono\">plan "@ + escaped(plan_id) + "</span><span>"@ + escaped(
        prices_text(age_mins),
    ) + "</span>"@
}

fn plan_foot(policy: &PlanPolicy, plan_id: &str, age_mins: Option<u64>) -> (r: String)
    ensures
        r@ == plan_foot_html(*policy, plan_id@, age_mins),
{
    let mut prices = String::new();
    match age_mins {
        Some(a) => {
            prices.append("priced against the order book as of ");
            push_dec(&mut prices, a);
            prices.append(" minutes ago");
        },
        None => {
            prices.append(
                "no order-book snapshot could be read, so every price below is the last logged midpoint spread apart by this policy's assumed spread \u{2014} an assumption about a book, not a book",
            );
        },
    }
    proof {
        assert(prices@ =~= prices_text(age_mins));
    }
    let mut foot = owned("<span class=\"mono\">execution/policies/");
    push_esc(&mut foot, policy.file.as_str());
    foot.append(".toml</span><span class=\"mono\">plan ");
    push_esc(&mut foot, plan_id);
    foot.append("</span><span>");
    push_esc(&mut foot, prices.as_str());
    foot.append("</span>");
    foot
}

fn version_chip(version: i64) -> (r: String)
    requires
        version > i64::MIN,
    ensures
        r@ == badge_html(
            "version "@ + crate::number::int_str(version as int),
            if version >= 2 {
                "ok"@
            } else {
                "warn"@
            },
        ),
{
    let mut chip_text = owned("version ");
    crate::number::push_int(&mut chip_text, version);
    badge(
        chip_text.as_str(),
        if version >= 2 {
            "ok"
        } else {
            "warn"
        },
    )
}

/// The plan's summary section (see `plan_summary_html`).
pub fn plan_summary(
    policy: &PlanPolicy,
    kinds: &[String],
    gates: &[String],
    age_mins: Option<u64>,
    plan_id: &str,
) -> (r: String)
    requires
        kinds@.len() <= i64::MAX,
        gates@.len() <= i64::MAX,
        policy.version > i64::MIN,
    ensures
        r@ == plan_summary_html(*policy, views(kinds@), views(gates@), age_mins, plan_id@),
{
    let mut body = plan_line_exec(kinds);
    let stats = plan_stats(policy, kinds, gates);
    body.append(stats.as_str());
    let chip = version_chip(policy.version);
    let foot = plan_foot(policy, plan_id, age_mins);
    section_foot(
        "What this plan would do",
        "target positions minus what is open, the way terraform reads a diff",
        chip.as_str(),
        body.as_str(),
        foot.as_str(),
    )
}

impl PlanPolicy {
    /// How the policy's cost model reads.
    pub open spec fn fee_label_of(self) -> Seq<char> {
        if self.taker_fees {
            "the venue's real taker fee, charged per fill"@
        } else {
            "no fee at all \u{2014} this policy is fee-free and its numbers are not costed"@
        }
    }

    pub fn fee_label(&self) -> (r: String)
        ensures
            r@ == self.fee_label_of(),
    {
        if self.taker_fees {
            owned("the venue's real taker fee, charged per fill")
        } else {
            owned("no fee at all \u{2014} this policy is fee-free and its numbers are not costed")
        }
    }
}

/// The banner over a plan whose policy charges no venue fee; nothing for a
/// policy that does.
pub open spec fn v1_warning_html(policy: PlanPolicy) -> Seq<char> {
    if policy.taker_fees {
        Seq::empty()
    } else {
        "<div class=\"banner\">"@ + icon_svg("alert"@)
            + " <div><strong>This policy is fee-free.</strong> <span class=\"mono\">"@ + escaped(
            policy.file@,
        )
            + "</span> charges no venue fee at all, and the venue has charged takers since 2026-01-05 ("@
            + escaped(policy.fee_label_of())
            + "). Every cost below is therefore missing the fee, and a fee-free number must never be read as a costed one \u{2014} the v1 files exist so the v1\u{2192}v2 difference is readable as the price of the fee, not because anyone trades this way. Pick a <span class=\"mono\">-v2</span> policy to see what it would actually cost.</div></div>"@
    }
}

pub fn v1_warning(policy: &PlanPolicy) -> (r: String)
    ensures
        r@ == v1_warning_html(*policy),
{
    if policy.taker_fees {
        return String::new();
    }
    let mut out = owned("<div class=\"banner\">");
    let ic = icon("alert");
    out.append(ic.as_str());
    out.append(" <div><strong>This policy is fee-free.</strong> <span class=\"mono\">");
    push_esc(&mut out, policy.file.as_str());
    out.append(
        "</span> charges no venue fee at all, and the venue has charged takers since 2026-01-05 (",
    );
    let label = policy.fee_label();
    push_esc(&mut out, label.as_str());
    out.append(
        "). Every cost below is therefore missing the fee, and a fee-free number must never be read as a costed one \u{2014} the v1 files exist so the v1\u{2192}v2 difference is readable as the price of the fee, not because anyone trades this way. Pick a <span class=\"mono\">-v2</span> policy to see what it would actually cost.</div></div>",
    );
    out
}

// ---------------------------------------------------------------------------
// The plan's id
// ---------------------------------------------------------------------------

/// One FNV-1a step: mix in a byte, then multiply by the 64-bit FNV prime,
/// wrapping.
pub open spec fn fnv_step(h: u64, b: u8) -> u64 {
    (((h ^ (b as u64)) as nat * 0x100000001b3nat) % 0x1_0000_0000_0000_0000nat) as u64
}

/// FNV-1a over `bs`, from the state `h`.
pub open spec fn fnv(h: u64, bs: Seq<u8>) -> u64
    decreases bs.len(),
{
    if bs.len() == 0 {
        h
    } else {
        fnv_step(fnv(h, bs.drop_last()), bs.last())
    }
}

pub open spec fn utf8_all(parts: Seq<Seq<char>>) -> Seq<u8>
    decreases parts.len(),
{
    if parts.len() == 0 {
        Seq::empty()
    } else {
        utf8_all(parts.drop_last()) + encode_utf8(parts.last())
    }
}

/// Everything a plan id covers, in order: the policy, the strategies and
/// markets selected, and each action's kind, token, side and amounts.
pub open spec fn plan_parts(
    policy: Seq<char>,
    strategies: Seq<Seq<char>>,
    markets: Seq<Seq<char>>,
    actions: Seq<(String, String, String, String)>,
) -> Seq<Seq<char>> {
    seq![policy] + strategies + markets + action_parts(actions)
}

pub open spec fn action_parts(actions: Seq<(String, String, String, String)>) -> Seq<Seq<char>>
    decreases actions.len(),
{
    if actions.len() == 0 {
        Seq::empty()
    } else {
        let a = actions.last();
        action_parts(actions.drop_last()) + seq![a.0@, a.1@, a.2@, a.3@]
    }
}

pub open spec fn hex_digit(d: int) -> char {
    if d < 10 {
        (48 + d) as char
    } else {
        (87 + d) as char
    }
}

/// `{:08x}`: eight lowercase hex digits.
pub open spec fn hex8(x: u32) -> Seq<char> {
    Seq::new(8, |k: int| hex_digit(((x as int) / pow16(7 - k)) % 16))
}

pub open spec fn pow16(e: int) -> int
    decreases e,
{
    if e <= 0 {
        1
    } else {
        16 * pow16(e - 1)
    }
}

/// A short stable id for exactly this plan: `p-` and the high half of the
/// FNV-1a hash of its parts, in hex.
pub open spec fn plan_id_of(
    policy: Seq<char>,
    strategies: Seq<Seq<char>>,
    markets: Seq<Seq<char>>,
    actions: Seq<(String, String, String, String)>,
) -> Seq<char> {
    let h = fnv(0xcbf2_9ce4_8422_2325, utf8_all(plan_parts(policy, strategies, markets, actions)));
    "p-"@ + hex8((h as nat / 0x1_0000_0000nat) as u32)
}

fn eat(h: u64, s: &str) -> (r: u64)
    ensures
        r == fnv(h, encode_utf8(s@)),
{
    let bs = s.as_bytes();
    let ghost all = encode_utf8(s@);
    let mut x = h;
    let mut i: usize = 0;
    while i < bs.len()
        invariant
            i <= bs@.len(),
            bs@ == all,
            x == fnv(h, all.take(i as int)),
        decreases bs.len() - i,
    {
        proof {
            assert(all.take(i + 1).drop_last() =~= all.take(i as int));
            assert(all.take(i + 1).last() == bs@[i as int]);
        }
        x = (x ^ (bs[i] as u64)).wrapping_mul(0x100000001b3);
        i += 1;
    }
    proof {
        assert(all.take(bs@.len() as int) =~= all);
    }
    x
}

proof fn lemma_fnv_add(h: u64, a: Seq<u8>, b: Seq<u8>)
    ensures
        fnv(h, a + b) == fnv(fnv(h, a), b),
    decreases b.len(),
{
    if b.len() == 0 {
        assert(a + b =~= a);
    } else {
        lemma_fnv_add(h, a, b.drop_last());
        assert((a + b).drop_last() =~= a + b.drop_last());
        assert((a + b).last() == b.last());
    }
}

fn hex_char(d: u32) -> (c: char)
    requires
        d < 16,
    ensures
        c == hex_digit(d as int),
{
    if d < 10 {
        ((48 + d) as u8) as char
    } else {
        ((87 + d) as u8) as char
    }
}

/// The plan's id (see `plan_id_of`). `actions` are each action's kind,
/// token, side, and amounts as the plan prints them.
pub fn plan_id(
    policy: &str,
    strategies: &[String],
    markets: &[String],
    actions: &[(String, String, String, String)],
) -> (r: String)
    ensures
        r@ == plan_id_of(policy@, views(strategies@), views(markets@), actions@),
{
    let ghost parts = plan_parts(policy@, views(strategies@), views(markets@), actions@);
    let mut h: u64 = eat(0xcbf2_9ce4_8422_2325, policy);
    let ghost done: Seq<Seq<char>> = seq![policy@];
    proof {
        assert(done.drop_last() =~= Seq::<Seq<char>>::empty());
        assert(done.last() == policy@);
        assert(utf8_all(done.drop_last()) == Seq::<u8>::empty());
        assert(Seq::<u8>::empty() + encode_utf8(policy@) =~= encode_utf8(policy@));
    }
    let mut i: usize = 0;
    while i < strategies.len()
        invariant
            i <= strategies@.len(),
            done == seq![policy@] + views(strategies@).take(i as int),
            h == fnv(0xcbf2_9ce4_8422_2325, utf8_all(done)),
        decreases strategies.len() - i,
    {
        let ghost before = done;
        let ghost hb = h;
        h = eat(h, strategies[i].as_str());
        proof {
            done = before.push(strategies@[i as int]@);
            assert(done =~= seq![policy@] + views(strategies@).take(i + 1));
            assert(done.drop_last() =~= before);
            lemma_fnv_add(0xcbf2_9ce4_8422_2325, utf8_all(before), encode_utf8(strategies@[i as int]@));
        }
        i += 1;
    }
    proof {
        assert(views(strategies@).take(strategies@.len() as int) =~= views(strategies@));
    }
    let ghost mid = done;
    let mut j: usize = 0;
    while j < markets.len()
        invariant
            j <= markets@.len(),
            mid == seq![policy@] + views(strategies@),
            done == mid + views(markets@).take(j as int),
            h == fnv(0xcbf2_9ce4_8422_2325, utf8_all(done)),
        decreases markets.len() - j,
    {
        let ghost before = done;
        h = eat(h, markets[j].as_str());
        proof {
            done = before.push(markets@[j as int]@);
            assert(done =~= mid + views(markets@).take(j + 1));
            assert(done.drop_last() =~= before);
            lemma_fnv_add(0xcbf2_9ce4_8422_2325, utf8_all(before), encode_utf8(markets@[j as int]@));
        }
        j += 1;
    }
    proof {
        assert(views(markets@).take(markets@.len() as int) =~= views(markets@));
    }
    let ghost mid2 = done;
    let mut k: usize = 0;
    while k < actions.len()
        invariant
            k <= actions@.len(),
            mid2 == seq![policy@] + views(strategies@) + views(markets@),
            done == mid2 + action_parts(actions@.take(k as int)),
            h == fnv(0xcbf2_9ce4_8422_2325, utf8_all(done)),
        decreases actions.len() - k,
    {
        let a = &actions[k];
        let ghost d0 = done;
        h = eat(h, a.0.as_str());
        let ghost d1 = d0.push(a.0@);
        proof {
            assert(d1.drop_last() =~= d0);
            lemma_fnv_add(0xcbf2_9ce4_8422_2325, utf8_all(d0), encode_utf8(a.0@));
        }
        h = eat(h, a.1.as_str());
        let ghost d2 = d1.push(a.1@);
        proof {
            assert(d2.drop_last() =~= d1);
            lemma_fnv_add(0xcbf2_9ce4_8422_2325, utf8_all(d1), encode_utf8(a.1@));
        }
        h = eat(h, a.2.as_str());
        let ghost d3 = d2.push(a.2@);
        proof {
            assert(d3.drop_last() =~= d2);
            lemma_fnv_add(0xcbf2_9ce4_8422_2325, utf8_all(d2), encode_utf8(a.2@));
        }
        h = eat(h, a.3.as_str());
        let ghost d4 = d3.push(a.3@);
        proof {
            assert(d4.drop_last() =~= d3);
            lemma_fnv_add(0xcbf2_9ce4_8422_2325, utf8_all(d3), encode_utf8(a.3@));
            assert(actions@.take(k + 1).drop_last() =~= actions@.take(k as int));
            assert(actions@.take(k + 1).last() == *a);
            assert(d4 =~= mid2 + action_parts(actions@.take(k + 1)));
            done = d4;
        }
        k += 1;
    }
    proof {
        assert(actions@.take(actions@.len() as int) =~= actions@);
        assert(done =~= parts);
    }
    let top: u32 = (h / 0x1_0000_0000) as u32;
    let mut out = owned("p-");
    let mut e: u32 = 0;
    let mut div: u32 = 0x1000_0000;
    let ghost start = out@;
    proof {
        reveal_with_fuel(pow16, 8);
        assert(pow16(7) == 0x1000_0000);
    }
    while e < 8
        invariant
            e <= 8,
            div > 0,
            div as int == pow16(7 - e as int),
            start == "p-"@,
            out@ == start + hex8(top).take(e as int),
        decreases 8 - e,
    {
        let d = (top / div) % 16;
        push_char(&mut out, hex_char(d));
        proof {
            assert(hex8(top).take(e + 1) =~= hex8(top).take(e as int).push(hex8(top)[e as int]));
            if e < 7 {
                assert(pow16(7 - e as int) == 16 * pow16(7 - e - 1));
            }
        }
        if e < 7 {
            div = div / 16;
        }
        e += 1;
    }
    proof {
        assert(hex8(top).take(8) =~= hex8(top));
    }
    out
}


// ---------------------------------------------------------------------------
// Why the rest were not traded
// ---------------------------------------------------------------------------

/// A candidate the plan weighed: one unresolved prediction on a selected
/// market. The prices are carried as the texts the page prints (`prob`,
/// `bid`, `ask` as probabilities, `edge` signed); `has_book` says whether any
/// side of the book was quoted at all. `gate` is the rule that refused it,
/// empty for one that passed.
pub struct Cand {
    pub slug: String,
    pub outcome: String,
    pub signal_ts: String,
    pub prob: String,
    pub has_book: bool,
    pub bid: String,
    pub ask: String,
    pub synthetic: bool,
    pub side: String,
    pub edge: String,
    pub gate: String,
    pub detail: String,
}

/// The candidates a gate refused, in order.
pub open spec fn refusals(cands: Seq<Cand>) -> Seq<Cand>
    decreases cands.len(),
{
    if cands.len() == 0 {
        Seq::empty()
    } else {
        refusals(cands.drop_last()) + if cands.last().gate@.len() > 0 {
            seq![cands.last()]
        } else {
            Seq::empty()
        }
    }
}

pub open spec fn gate_list(rs: Seq<Cand>) -> Seq<Seq<char>> {
    rs.map_values(|c: Cand| c.gate@)
}

/// The distinct gates of `gs`, in the order they first fire.
pub open spec fn gates_seen(gs: Seq<Seq<char>>) -> Seq<Seq<char>>
    decreases gs.len(),
{
    if gs.len() == 0 {
        Seq::empty()
    } else {
        let g = gates_seen(gs.drop_last());
        if g.contains(gs.last()) {
            g
        } else {
            g.push(gs.last())
        }
    }
}

/// Each gate that fired with how often, in the order they first fired.
pub open spec fn gate_tally(gs: Seq<Seq<char>>) -> Seq<(Seq<char>, nat)> {
    gates_seen(gs).map_values(|g: Seq<char>| (g, tally_of(gs, g)))
}

pub open spec fn below(l: Seq<(Seq<char>, nat)>, n: nat) -> spec_fn(int) -> bool {
    |k: int| l[k].1 < n
}

/// `x` placed after every entry of `l` that fired at least as often.
pub open spec fn ins_desc(l: Seq<(Seq<char>, nat)>, x: (Seq<char>, nat)) -> Seq<(Seq<char>, nat)> {
    match first_index(l.len() as int, below(l, x.1)) {
        Some(p) => l.insert(p, x),
        None => l.push(x),
    }
}

/// The tally, most frequent gate first; gates that fired equally often keep
/// the order they first fired in.
pub open spec fn by_count(t: Seq<(Seq<char>, nat)>) -> Seq<(Seq<char>, nat)>
    decreases t.len(),
{
    if t.len() == 0 {
        Seq::empty()
    } else {
        ins_desc(by_count(t.drop_last()), t.last())
    }
}

pub open spec fn tally_cell(e: (Seq<char>, nat)) -> Seq<char> {
    stat_line_cell(fmt_int_of(e.1 as int), e.0, ""@)
}

pub open spec fn refusal_row(c: Cand) -> Seq<Seq<char>> {
    seq![
        "<a href=\"/markets/"@ + escaped(c.slug@) + "\">"@ + escaped(c.slug@)
            + "</a><span class=\"sub\">"@ + escaped(c.outcome@) + "</span>"@,
        c.prob@ + "<span class=\"sub\">"@ + escaped(fmt_ts_of(c.signal_ts@)) + "</span>"@,
        if c.has_book {
            c.bid@ + " / "@ + c.ask@ + if c.synthetic {
                "<span class=\"sub\">assumed spread, not a real book</span>"@
            } else {
                ""@
            }
        } else {
            "<span class=\"muted\">\u{2014}</span>"@
        },
        if c.side@.len() == 0 {
            "<span class=\"muted\">none</span>"@
        } else {
            escaped(c.side@) + "<span class=\"sub\">"@ + c.edge@ + "</span>"@
        },
        "<b>"@ + escaped(c.gate@) + "</b>"@,
        escaped(c.detail@),
    ]
}

pub open spec fn gate_head() -> Seq<(Seq<char>, Seq<char>)> {
    seq![
        ("Market"@, ""@),
        ("Our probability"@, "num"@),
        ("Book (bid / ask)"@, "num"@),
        ("Side and edge"@, ""@),
        ("Stopped by"@, ""@),
        ("The numbers"@, "wrap"@),
    ]
}

pub open spec fn any_synthetic(cands: Seq<Cand>) -> bool {
    exists|i: int| 0 <= i < cands.len() && #[trigger] cands[i].synthetic
}

pub open spec fn gate_notes(cands: Seq<Cand>, respect_venue_epsilon: bool) -> Seq<Seq<char>> {
    seq!["Gates are applied in the same order as the backtest engine (<span class=\"mono\">execution/engine/src/sim.rs</span>), so a candidate refused here would be refused there. The first rule to fire is the one reported."@] + (if respect_venue_epsilon {
        seq!["This policy also declines to sell a barrier sitting within 0.2% of its running extreme. No signal set carries that distance yet, so the screen could not be applied to any row above — counted, not silently passed."@]
    } else {
        Seq::empty()
    }) + (if any_synthetic(cands) {
        seq!["Rows marked <b>assumed spread</b> had no live order book. Their bid and ask were built by spreading the last logged midpoint apart, which is a guess about a price rather than an observation of one — treat any verdict on those rows as provisional."@]
    } else {
        Seq::empty()
    })
}

/// "Why the rest were not traded": every refused candidate with the rule
/// that stopped it, under a strip counting the refusals per rule.
pub open spec fn gate_report_html(cands: Seq<Cand>, respect_venue_epsilon: bool) -> Seq<char> {
    let rs = refusals(cands);
    if rs.len() == 0 {
        if cands.len() == 0 {
            section_html(
                "Why the rest were not traded"@,
                ""@,
                ""@,
                "<div class=\"empty\"><strong>"@ + escaped("There were no candidates at all"@)
                    + "</strong>"@ + "<div>No selected strategy has an unresolved prediction on a selected market. Widen the selection above, or wait for the next run to log signals.</div>"@ + "</div>"@,
                Seq::empty(),
            )
        } else {
            Seq::empty()
        }
    } else {
        section_html(
            "Why the rest were not traded"@,
            "every candidate that did not make it, and the rule that stopped it"@,
            badge_html(count_of(rs.len(), "refusal"@), ""@),
            "<div class=\"statline\">"@ + concat(
                by_count(gate_tally(gate_list(rs))).map_values(|e: (Seq<char>, nat)| tally_cell(e)),
            ) + "</div>"@ + table_of(
                gate_head(),
                rs.map_values(|c: Cand| refusal_row(c)),
                "data"@,
            ) + notes_html(gate_notes(cands, respect_venue_epsilon)),
            "<div class=\"sec-foot\">"@ + "<span class=\"mono\">predictions/predictions.csv</span><a href=\"/backtest\">How these policies did in the backtest →</a>"@ + "</div>"@,
        )
    }
}

pub open spec fn tally_view(t: Seq<(String, usize)>) -> Seq<(Seq<char>, nat)> {
    t.map_values(|e: (String, usize)| (e.0@, e.1 as nat))
}

proof fn lemma_tally_bound(xs: Seq<Seq<char>>, x: Seq<char>)
    ensures
        tally_of(xs, x) <= xs.len(),
    decreases xs.len(),
{
    if xs.len() > 0 {
        lemma_tally_bound(xs.drop_last(), x);
    }
}

proof fn lemma_seen(gs: Seq<Seq<char>>)
    ensures
        forall|a: int, b: int|
            0 <= a < b < gates_seen(gs).len() ==> gates_seen(gs)[a] != gates_seen(gs)[b],
        forall|h: Seq<char>| !gates_seen(gs).contains(h) ==> tally_of(gs, h) == 0,
    decreases gs.len(),
{
    if gs.len() > 0 {
        lemma_seen(gs.drop_last());
        let g = gates_seen(gs.drop_last());
        let s = gates_seen(gs);
        if !g.contains(gs.last()) {
            assert(s == g.push(gs.last()));
            assert forall|a: int, b: int| 0 <= a < b < s.len() implies s[a] != s[b] by {
                if b == s.len() - 1 {
                    assert(g[a] == s[a]);
                }
            }
            assert(s[s.len() - 1] == gs.last());
            assert forall|h: Seq<char>| !s.contains(h) implies tally_of(gs, h) == 0 by {
                if g.contains(h) {
                    let k = choose|k: int| 0 <= k < g.len() && g[k] == h;
                    assert(s[k] == h);
                }
                assert(h != gs.last());
                assert(tally_of(gs.drop_last(), h) == 0);
                assert(tally_of(gs, h) == tally_of(gs.drop_last(), h) + if gs.last() == h {
                    1nat
                } else {
                    0nat
                });
            }
        } else {
            assert(s == g);
            assert forall|h: Seq<char>| !s.contains(h) implies tally_of(gs, h) == 0 by {
                assert(h != gs.last());
                assert(tally_of(gs.drop_last(), h) == 0);
                assert(tally_of(gs, h) == tally_of(gs.drop_last(), h) + if gs.last() == h {
                    1nat
                } else {
                    0nat
                });
            }
        }
    }
}

fn find_gate(r: &Vec<(String, usize)>, g: &str) -> (k: Option<usize>)
    ensures
        match k {
            Some(k) => k < r@.len() && r@[k as int].0@ == g@ && forall|m: int|
                0 <= m < k ==> r@[m].0@ != g@,
            None => forall|m: int| 0 <= m < r@.len() ==> r@[m].0@ != g@,
        },
{
    let mut k: usize = 0;
    while k < r.len()
        invariant
            k <= r@.len(),
            forall|m: int| 0 <= m < k ==> r@[m].0@ != g@,
        decreases r.len() - k,
    {
        if str_eq(r[k].0.as_str(), g) {
            return Some(k);
        }
        k += 1;
    }
    None
}

proof fn lemma_tally_push(gs: Seq<Seq<char>>, g: Seq<char>)
    ensures
        forall|h: Seq<char>| #[trigger] tally_of(gs.push(g), h) == tally_of(gs, h) + if h == g {
            1nat
        } else {
            0nat
        },
        gates_seen(gs.push(g)) == if gates_seen(gs).contains(g) {
            gates_seen(gs)
        } else {
            gates_seen(gs).push(g)
        },
{
    assert(gs.push(g).drop_last() =~= gs);
}

/// Each refused candidate's gate, counted, in the order the gates first fire.
fn gate_tally_exec(cands: &[Cand]) -> (r: Vec<(String, usize)>)
    ensures
        tally_view(r@) == gate_tally(gate_list(refusals(cands@))),
        forall|k: int| 0 <= k < r@.len() ==> r@[k].1 <= cands@.len(),
{
    let mut r: Vec<(String, usize)> = Vec::new();
    let mut i: usize = 0;
    proof {
        assert(cands@.take(0) =~= Seq::<Cand>::empty());
        assert(tally_view(r@) =~= gate_tally(gate_list(refusals(cands@.take(0)))));
    }
    while i < cands.len()
        invariant
            i <= cands@.len(),
            tally_view(r@) == gate_tally(gate_list(refusals(cands@.take(i as int)))),
            forall|k: int| 0 <= k < r@.len() ==> r@[k].1 <= i,
        decreases cands.len() - i,
    {
        let ghost pre = refusals(cands@.take(i as int));
        let ghost gs = gate_list(pre);
        proof {
            assert(cands@.take(i + 1).drop_last() =~= cands@.take(i as int));
            assert(cands@.take(i + 1).last() == cands@[i as int]);
            lemma_seen(gs);
            lemma_tally_bound(gs, cands@[i as int].gate@);
            assert(pre.len() <= i) by {
                lemma_refusals_len(cands@.take(i as int));
            }
        }
        let g = cands[i].gate.as_str();
        if !g.is_empty() {
            let ghost gs2 = gs.push(g@);
            proof {
                assert(gate_list(refusals(cands@.take(i + 1))) =~= gs2);
                lemma_tally_push(gs, g@);
            }
            let at = find_gate(&r, g);
            if let Some(k) = at {
                let ghost old_r = r@;
                let n = r[k].1;
                proof {
                    assert(tally_view(old_r).len() == old_r.len());
                    assert(gate_tally(gs).len() == gates_seen(gs).len());
                    assert(tally_view(old_r)[k as int] == (old_r[k as int].0@, old_r[k as int].1 as nat));
                    assert(gate_tally(gs)[k as int] == (gates_seen(gs)[k as int], tally_of(
                        gs,
                        gates_seen(gs)[k as int],
                    )));
                    assert(gates_seen(gs)[k as int] == g@);
                    assert(gates_seen(gs).contains(g@));
                }
                r.set(k, (owned(g), n + 1));
                proof {
                    let seen = gates_seen(gs);
                    assert(gates_seen(gs2) == seen);
                    assert(seen[k as int] == g@);
                    assert forall|m: int| 0 <= m < seen.len() implies tally_view(r@)[m]
                        == gate_tally(gs2)[m] by {
                        assert(tally_view(old_r)[m] == gate_tally(gs)[m]);
                        if m != k {
                            assert(seen[m] != g@);
                            assert(tally_of(gs2, seen[m]) == tally_of(gs, seen[m]));
                        } else {
                            assert(tally_of(gs2, g@) == tally_of(gs, g@) + 1);
                        }
                    }
                    assert(tally_view(r@) =~= gate_tally(gs2));
                }
            } else {
                proof {
                    assert(!gates_seen(gs).contains(g@)) by {
                        if gates_seen(gs).contains(g@) {
                            let m = choose|m: int|
                                0 <= m < gates_seen(gs).len() && gates_seen(gs)[m] == g@;
                            assert(tally_view(r@).len() == r@.len());
                            assert(gate_tally(gs).len() == gates_seen(gs).len());
                            assert(tally_view(r@)[m] == gate_tally(gs)[m]);
                            assert(tally_view(r@)[m].0 == r@[m].0@);
                            assert(r@[m].0@ != g@);
                        }
                    }
                }
                let ghost old_r = r@;
                r.push((owned(g), 1));
                proof {
                    let seen2 = gates_seen(gs2);
                    assert(seen2 == gates_seen(gs).push(g@));
                    assert(tally_view(old_r).len() == old_r.len());
                    assert(gate_tally(gs).len() == gates_seen(gs).len());
                    assert(tally_view(r@).len() == r@.len());
                    assert(r@ == old_r.push((r@[old_r.len() as int].0, 1usize)));
                    assert forall|m: int| 0 <= m < seen2.len() implies tally_view(r@)[m]
                        == gate_tally(gs2)[m] by {
                        if m < gates_seen(gs).len() {
                            assert(tally_view(old_r)[m] == gate_tally(gs)[m]);
                            assert(tally_of(gs2, seen2[m]) == tally_of(gs, seen2[m]));
                        } else {
                            assert(tally_of(gs2, g@) == tally_of(gs, g@) + 1);
                        }
                    }
                    assert(tally_view(r@) =~= gate_tally(gs2));
                }
            }
        } else {
            proof {
                assert(refusals(cands@.take(i + 1)) =~= pre);
            }
        }
        i += 1;
    }
    proof {
        assert(cands@.take(cands@.len() as int) =~= cands@);
    }
    r
}

proof fn lemma_refusals_len(cands: Seq<Cand>)
    ensures
        refusals(cands).len() <= cands.len(),
    decreases cands.len(),
{
    if cands.len() > 0 {
        lemma_refusals_len(cands.drop_last());
    }
}


fn by_count_exec(t: &Vec<(String, usize)>, limit: usize) -> (r: Vec<(String, usize)>)
    requires
        forall|k: int| 0 <= k < t@.len() ==> t@[k].1 <= limit,
    ensures
        tally_view(r@) == by_count(tally_view(t@)),
        forall|k: int| 0 <= k < r@.len() ==> r@[k].1 <= limit,
{
    let mut out: Vec<(String, usize)> = Vec::new();
    let mut i: usize = 0;
    proof {
        assert(tally_view(t@).take(0) =~= Seq::<(Seq<char>, nat)>::empty());
    }
    while i < t.len()
        invariant
            i <= t@.len(),
            forall|k: int| 0 <= k < t@.len() ==> t@[k].1 <= limit,
            tally_view(out@) == by_count(tally_view(t@).take(i as int)),
            forall|k: int| 0 <= k < out@.len() ==> out@[k].1 <= limit,
        decreases t.len() - i,
    {
        let n = t[i].1;
        let x = (owned(t[i].0.as_str()), n);
        let ghost l = tally_view(out@);
        let ghost xv = (x.0@, n as nat);
        let mut p: usize = 0;
        while p < out.len() && !(out[p].1 < n)
            invariant
                p <= out@.len(),
                l == tally_view(out@),
                forall|m: int| 0 <= m < p ==> !#[trigger] below(l, n as nat)(m),
            decreases out.len() - p,
        {
            proof {
                assert(l[p as int] == (out@[p as int].0@, out@[p as int].1 as nat));
            }
            p += 1;
        }
        let ghost old_out = out@;
        if p < out.len() {
            proof {
                assert(l[p as int] == (out@[p as int].0@, out@[p as int].1 as nat));
                lemma_first_index_is(l.len() as int, below(l, n as nat), p as int);
            }
            out.insert(p, x);
            proof {
                assert(tally_view(out@) =~= l.insert(p as int, xv));
            }
        } else {
            proof {
                lemma_first_index_none(l.len() as int, below(l, n as nat));
            }
            out.push(x);
            proof {
                assert(tally_view(out@) =~= l.push(xv));
            }
        }
        proof {
            let tv = tally_view(t@);
            assert(tv.take(i + 1).drop_last() =~= tv.take(i as int));
            assert(tv.take(i + 1).last() == xv);
            assert forall|k: int| 0 <= k < out@.len() implies out@[k].1 <= limit by {
                if k < p {
                    assert(out@[k] == old_out[k]);
                } else if k > p {
                    assert(out@[k] == old_out[k - 1]);
                }
            }
        }
        i += 1;
    }
    proof {
        assert(tally_view(t@).take(t@.len() as int) =~= tally_view(t@));
    }
    out
}

fn refusal_row_exec(c: &Cand) -> (r: Vec<String>)
    requires
        fmt_ts_ok(c.signal_ts@),
    ensures
        views(r@) == refusal_row(*c),
{
    let mut market = owned("<a href=\"/markets/");
    push_esc(&mut market, c.slug.as_str());
    market.append("\">");
    push_esc(&mut market, c.slug.as_str());
    market.append("</a><span class=\"sub\">");
    push_esc(&mut market, c.outcome.as_str());
    market.append("</span>");
    let mut prob = owned(c.prob.as_str());
    prob.append("<span class=\"sub\">");
    let ts = fmt_ts(c.signal_ts.as_str());
    push_esc(&mut prob, ts.as_str());
    prob.append("</span>");
    let book = if c.has_book {
        let mut b = owned(c.bid.as_str());
        b.append(" / ");
        b.append(c.ask.as_str());
        if c.synthetic {
            b.append("<span class=\"sub\">assumed spread, not a real book</span>");
        }
        b
    } else {
        owned("<span class=\"muted\">\u{2014}</span>")
    };
    let side = if c.side.as_str().is_empty() {
        owned("<span class=\"muted\">none</span>")
    } else {
        let mut s = esc(c.side.as_str());
        s.append("<span class=\"sub\">");
        s.append(c.edge.as_str());
        s.append("</span>");
        s
    };
    let mut gate = owned("<b>");
    push_esc(&mut gate, c.gate.as_str());
    gate.append("</b>");
    let detail = esc(c.detail.as_str());
    let ghost want = refusal_row(*c);
    proof {
        reveal_strlit("");
        assert(market@ =~= want[0]);
        assert(prob@ =~= want[1]);
        assert(book@ =~= want[2]);
        assert(side@ =~= want[3]);
        assert(gate@ =~= want[4]);
        assert(detail@ =~= want[5]);
    }
    let out = vec![market, prob, book, side, gate, detail];
    proof {
        assert(views(out@) =~= want);
    }
    out
}

fn any_synthetic_exec(cands: &[Cand]) -> (r: bool)
    ensures
        r == any_synthetic(cands@),
{
    let mut i: usize = 0;
    while i < cands.len()
        invariant
            i <= cands@.len(),
            forall|j: int| 0 <= j < i ==> !cands@[j].synthetic,
        decreases cands.len() - i,
    {
        if cands[i].synthetic {
            return true;
        }
        i += 1;
    }
    false
}

/// "Why the rest were not traded". A policy that trades nothing has said
/// something precise, and the precision is in which rule fired: the strip
/// counts the refusals per rule, most frequent first, above one row per
/// refused candidate. Nothing when every candidate passed; an empty state
/// when there were no candidates at all.
pub fn gate_report(cands: &[Cand], respect_venue_epsilon: bool) -> (r: String)
    requires
        cands@.len() <= i64::MAX,
        forall|i: int|
            0 <= i < cands@.len() && cands@[i].gate@.len() > 0 ==> fmt_ts_ok(
                #[trigger] cands@[i].signal_ts@,
            ),
    ensures
        r@ == gate_report_html(cands@, respect_venue_epsilon),
{
    let mut body: Vec<Vec<String>> = Vec::new();
    let mut i: usize = 0;
    proof {
        assert(cands@.take(0) =~= Seq::<Cand>::empty());
    }
    while i < cands.len()
        invariant
            i <= cands@.len(),
            forall|j: int|
                0 <= j < cands@.len() && cands@[j].gate@.len() > 0 ==> fmt_ts_ok(
                    #[trigger] cands@[j].signal_ts@,
                ),
            body@.len() == refusals(cands@.take(i as int)).len(),
            forall|m: int|
                0 <= m < body@.len() ==> (#[trigger] body@[m]).deep_view() == refusal_row(
                    refusals(cands@.take(i as int))[m],
                ),
        decreases cands.len() - i,
    {
        let ghost pre = refusals(cands@.take(i as int));
        proof {
            assert(cands@.take(i + 1).drop_last() =~= cands@.take(i as int));
            assert(cands@.take(i + 1).last() == cands@[i as int]);
        }
        if !cands[i].gate.as_str().is_empty() {
            let cells = refusal_row_exec(&cands[i]);
            proof {
                assert(cells.deep_view() =~= views(cells@));
                assert(refusals(cands@.take(i + 1)) =~= pre.push(cands@[i as int]));
            }
            body.push(cells);
        } else {
            proof {
                assert(refusals(cands@.take(i + 1)) =~= pre);
            }
        }
        i += 1;
    }
    proof {
        assert(cands@.take(cands@.len() as int) =~= cands@);
    }
    let ghost rs = refusals(cands@);
    if body.len() == 0 {
        if cands.len() == 0 {
            let e = empty_state("There were no candidates at all", "<div>No selected strategy has an unresolved prediction on a selected market. Widen the selection above, or wait for the next run to log signals.</div>");
            return section("Why the rest were not traded", "", "", e.as_str());
        }
        proof {
            reveal_strlit("");
        }
        return String::new();
    }
    proof {
        lemma_refusals_len(cands@);
    }
    let tally = gate_tally_exec(cands);
    let sorted = by_count_exec(&tally, cands.len());
    let mut strip: Vec<(String, String, &str)> = Vec::new();
    let mut k: usize = 0;
    while k < sorted.len()
        invariant
            k <= sorted@.len(),
            cands@.len() <= i64::MAX,
            forall|m: int| 0 <= m < sorted@.len() ==> sorted@[m].1 <= cands@.len(),
            strip@.len() == k,
            forall|m: int|
                0 <= m < k ==> stat_line_cell((#[trigger] strip@[m]).0@, strip@[m].1@, strip@[m].2@)
                    == tally_cell(tally_view(sorted@)[m]),
        decreases sorted.len() - k,
    {
        let n = sorted[k].1;
        let v = fmt_int(n as i64);
        strip.push((v, owned(sorted[k].0.as_str()), ""));
        proof {
            reveal_strlit("");
        }
        k += 1;
    }
    let ghost cells = strip@.map_values(
        |t: (String, String, &str)| stat_line_cell(t.0@, t.1@, t.2@),
    );
    proof {
        assert(cells =~= by_count(gate_tally(gate_list(rs))).map_values(
            |e: (Seq<char>, nat)| tally_cell(e),
        ));
    }
    let head = [
        ("Market", ""),
        ("Our probability", "num"),
        ("Book (bid / ask)", "num"),
        ("Side and edge", ""),
        ("Stopped by", ""),
        ("The numbers", "wrap"),
    ];
    let hs = head.as_slice();
    let bs = body.as_slice();
    proof {
        assert(hs.deep_view() =~= gate_head());
        assert(bs.deep_view() =~~= rs.map_values(|c: Cand| refusal_row(c)));
    }
    let mut notes_v: Vec<String> = Vec::new();
    notes_v.push(owned("Gates are applied in the same order as the backtest engine (<span class=\"mono\">execution/engine/src/sim.rs</span>), so a candidate refused here would be refused there. The first rule to fire is the one reported."));
    if respect_venue_epsilon {
        notes_v.push(owned("This policy also declines to sell a barrier sitting within 0.2% of its running extreme. No signal set carries that distance yet, so the screen could not be applied to any row above — counted, not silently passed."));
    }
    if any_synthetic_exec(cands) {
        notes_v.push(owned("Rows marked <b>assumed spread</b> had no live order book. Their bid and ask were built by spreading the last logged midpoint apart, which is a guess about a price rather than an observation of one — treat any verdict on those rows as provisional."));
    }
    proof {
        assert(notes_v@.map_values(|s: String| s@) =~= gate_notes(cands@, respect_venue_epsilon));
    }
    let mut inner = stat_line(strip.as_slice());
    let t = table(hs, bs);
    inner.append(t.as_str());
    let nt = notes(notes_v.as_slice());
    inner.append(nt.as_str());
    let chip = badge(count(body.len(), "refusal").as_str(), "");
    section_foot(
        "Why the rest were not traded",
        "every candidate that did not make it, and the rule that stopped it",
        chip.as_str(),
        inner.as_str(),
        "<span class=\"mono\">predictions/predictions.csv</span><a href=\"/backtest\">How these policies did in the backtest →</a>",
    )
}


/// The counts of a tally, added up.
pub open spec fn count_sum(t: Seq<(Seq<char>, nat)>) -> nat
    decreases t.len(),
{
    if t.len() == 0 {
        0
    } else {
        count_sum(t.drop_last()) + t.last().1
    }
}

proof fn lemma_sum_insert(l: Seq<(Seq<char>, nat)>, p: int, x: (Seq<char>, nat))
    requires
        0 <= p <= l.len(),
    ensures
        count_sum(l.insert(p, x)) == count_sum(l) + x.1,
    decreases l.len(),
{
    if p == l.len() {
        assert(l.insert(p, x).drop_last() =~= l);
    } else {
        lemma_sum_insert(l.drop_last(), p, x);
        assert(l.insert(p, x).drop_last() =~= l.drop_last().insert(p, x));
        assert(l.insert(p, x).last() == l.last());
    }
}

proof fn lemma_sum_update(l: Seq<(Seq<char>, nat)>, k: int, v: (Seq<char>, nat))
    requires
        0 <= k < l.len(),
    ensures
        count_sum(l.update(k, v)) + l[k].1 == count_sum(l) + v.1,
    decreases l.len(),
{
    if k == l.len() - 1 {
        assert(l.update(k, v).drop_last() =~= l.drop_last());
    } else {
        lemma_sum_update(l.drop_last(), k, v);
        assert(l.update(k, v).drop_last() =~= l.drop_last().update(k, v));
    }
}

proof fn lemma_sum_tally(gs: Seq<Seq<char>>)
    ensures
        count_sum(gate_tally(gs)) == gs.len(),
    decreases gs.len(),
{
    if gs.len() == 0 {
        assert(gate_tally(gs) =~= Seq::<(Seq<char>, nat)>::empty());
    } else {
        let pre = gs.drop_last();
        let g = gs.last();
        assert(pre.push(g) =~= gs);
        lemma_sum_tally(pre);
        lemma_seen(pre);
        lemma_tally_push(pre, g);
        let seen = gates_seen(pre);
        if seen.contains(g) {
            let k = choose|k: int| 0 <= k < seen.len() && seen[k] == g;
            let upd = gate_tally(pre).update(k, (g, tally_of(pre, g) + 1));
            assert forall|m: int| 0 <= m < seen.len() implies upd[m] == gate_tally(gs)[m] by {
                if m != k {
                    assert(seen[m] != g);
                    assert(tally_of(gs, seen[m]) == tally_of(pre, seen[m]));
                } else {
                    assert(tally_of(gs, g) == tally_of(pre, g) + 1);
                }
            }
            assert(upd =~= gate_tally(gs));
            lemma_sum_update(gate_tally(pre), k, (g, tally_of(pre, g) + 1));
        } else {
            assert(tally_of(pre, g) == 0);
            assert forall|m: int| 0 <= m < seen.len() implies gate_tally(gs)[m] == gate_tally(pre)[m] by {
                assert(seen[m] != g);
                assert(tally_of(gs, seen[m]) == tally_of(pre, seen[m]));
            }
            assert(tally_of(gs, g) == 1);
            assert(gate_tally(gs) =~= gate_tally(pre).push((g, 1nat)));
            assert(gate_tally(gs).drop_last() =~= gate_tally(pre));
        }
    }
}

pub open spec fn count_desc(t: Seq<(Seq<char>, nat)>) -> bool {
    forall|a: int, b: int| 0 <= a < b < t.len() ==> t[a].1 >= t[b].1
}

proof fn lemma_by_count(t: Seq<(Seq<char>, nat)>)
    ensures
        count_desc(by_count(t)),
        count_sum(by_count(t)) == count_sum(t),
    decreases t.len(),
{
    if t.len() > 0 {
        lemma_by_count(t.drop_last());
        let l = by_count(t.drop_last());
        let x = t.last();
        lemma_first_index(l.len() as int, below(l, x.1));
        match first_index(l.len() as int, below(l, x.1)) {
            Some(p) => {
                lemma_sum_insert(l, p, x);
                let r = l.insert(p, x);
                assert forall|a: int, b: int| 0 <= a < b < r.len() implies r[a].1 >= r[b].1 by {
                    if a < p {
                        assert(!below(l, x.1)(a));
                        if b > p {
                            assert(r[b] == l[b - 1]);
                        }
                    } else if a == p {
                        assert(r[b] == l[b - 1]);
                        assert(below(l, x.1)(p));
                    } else {
                        assert(r[a] == l[a - 1]);
                        assert(r[b] == l[b - 1]);
                    }
                }
            },
            None => {
                lemma_sum_insert(l, l.len() as int, x);
                assert(l.insert(l.len() as int, x) =~= l.push(x));
                let r = l.push(x);
                assert forall|a: int, b: int| 0 <= a < b < r.len() implies r[a].1 >= r[b].1 by {
                    if b == l.len() {
                        assert(!below(l, x.1)(a));
                    }
                }
            },
        }
        assert(t.drop_last().push(x) =~= t);
    }
}

/// The strip over the refusals counts every refused candidate once, under
/// the rule that stopped it, and lists the rules most frequent first.
pub proof fn law_gate_strip_counts_every_refusal(cands: Seq<Cand>)
    ensures
        count_sum(by_count(gate_tally(gate_list(refusals(cands))))) == refusals(cands).len(),
        count_desc(by_count(gate_tally(gate_list(refusals(cands))))),
{
    let gs = gate_list(refusals(cands));
    lemma_sum_tally(gs);
    lemma_by_count(gate_tally(gs));
}


// ---------------------------------------------------------------------------
// Apply
// ---------------------------------------------------------------------------

/// One proposed ledger row. The figures are carried as the ledger prints
/// them: shares, price and collateral to four places, fee and cash delta
/// to five.
pub struct Action {
    pub kind: String,
    pub slug: String,
    pub condition_id: String,
    pub outcome: String,
    pub token_id: String,
    pub side: String,
    pub shares: String,
    pub price: String,
    pub fee: String,
    pub cash_delta: String,
    pub collateral: String,
    pub note: String,
}

/// Whether an action changes the book (not "no change", not "unmanaged").
pub open spec fn acts(a: Action) -> bool {
    a.kind@ != "no change"@ && a.kind@ != "unmanaged"@
}

/// The actions that change the book, in order.
pub open spec fn acting_of(actions: Seq<Action>) -> Seq<Action>
    decreases actions.len(),
{
    if actions.len() == 0 {
        Seq::empty()
    } else {
        acting_of(actions.drop_last()) + if acts(actions.last()) {
            seq![actions.last()]
        } else {
            Seq::empty()
        }
    }
}

/// One ledger row: the page's clock, the action, the policy file and the
/// plan id; commas in the note become semicolons.
pub open spec fn ledger_line(now: Seq<char>, a: Action, policy: Seq<char>, plan_id: Seq<char>) -> Seq<
    char,
> {
    now + ","@ + a.kind@ + ","@ + a.slug@ + ","@ + a.condition_id@ + ","@ + a.outcome@ + ","@
        + a.token_id@ + ","@ + a.side@ + ","@ + a.shares@ + ","@ + a.price@ + ","@ + a.fee@ + ","@
        + a.cash_delta@ + ","@ + a.collateral@ + ","@ + policy + ","@ + plan_id + ","@
        + replace_char(a.note@, ',', ';') + "\n"@
}

pub open spec fn ledger_lines(now: Seq<char>, acts: Seq<Action>, policy: Seq<char>, plan_id: Seq<char>) -> Seq<
    char,
>
    decreases acts.len(),
{
    if acts.len() == 0 {
        Seq::empty()
    } else {
        ledger_lines(now, acts.drop_last(), policy, plan_id) + ledger_line(
            now,
            acts.last(),
            policy,
            plan_id,
        )
    }
}

/// The rows to append, under the ledger's header.
pub open spec fn ledger_csv(now: Seq<char>, actions: Seq<Action>, policy: Seq<char>, plan_id: Seq<char>) -> Seq<
    char,
> {
    "applied_at,action,market_slug,condition_id,outcome,token_id,side,shares,price,fee,cash_delta,collateral_delta,policy,plan_id,note\n"@ + ledger_lines(now, acting_of(actions), policy, plan_id)
}

/// All but the first of `ls` (nothing when there is none).
pub open spec fn after_first(ls: Seq<Seq<char>>) -> Seq<Seq<char>> {
    if ls.len() == 0 {
        Seq::empty()
    } else {
        ls.skip(1)
    }
}

pub open spec fn with_newlines(ls: Seq<Seq<char>>) -> Seq<Seq<char>> {
    ls.map_values(|l: Seq<char>| l + "\n"@)
}

/// The shell command that appends the rows and commits.
pub open spec fn apply_command(csv: Seq<char>, plan_id: Seq<char>, policy: Seq<char>) -> Seq<char> {
    "cat >> portfolio/ledger.csv <<'EOF'\n"@ + concat(with_newlines(after_first(lines(csv)))) + "EOF\ngit commit portfolio/ledger.csv portfolio/positions.csv \\\n  -m \"paper book: apply plan "@ + plan_id + " under "@ + policy + "\""@
}

/// "Apply": the exact ledger rows the plan implies, stamped with the page's
/// clock, and the command that appends them. The page writes nothing.
pub open spec fn apply_html(
    actions: Seq<Action>,
    policy: Seq<char>,
    plan_id: Seq<char>,
    now: Seq<char>,
) -> Seq<char> {
    let acting = acting_of(actions);
    if acting.len() == 0 {
        section_html(
            "Apply"@,
            ""@,
            ""@,
            "<div class=\"empty\"><strong>"@ + escaped("Nothing to apply"@) + "</strong>"@
                + "<div>The plan proposes no changes, so there are no ledger rows to append. Nothing is written either way — this page only reads.</div>"@ + "</div>"@,
            Seq::empty(),
        )
    } else {
        let csv = ledger_csv(now, actions, policy, plan_id);
        section_html(
            "Apply"@,
            "the exact rows this plan implies, for the CEO to append"@,
            badge_html("nothing is written by this page"@, "warn"@),
            "<p class=\"finding\">Applying is something the CEO does in a commit, not something this page can do. The dashboard reads the repository over the network and has <b>no write path at all</b> — granting a web-facing service commit access to the firm's own state is Felix's decision, not a convenience. It is also the better shape: a plan that has to be applied by hand leaves a signed, auditable trail, and that trail is exactly what <span class=\"mono\">portfolio/ledger.csv</span> is for.</p><p class=\"finding\">Append these "@ + count_of(acting.len(), "row"@) + " to the ledger, then rebuild <span class=\"mono\">positions.csv</span> from it — the ledger is the authority and the positions file is only an index over it.</p><pre class=\"codeblock\">"@ + escaped(csv) + "</pre><p class=\"finding\">Or, from a checkout:</p><pre class=\"codeblock\">"@ + escaped(
                apply_command(csv, plan_id, policy),
            ) + "</pre>"@ + notes_html(seq!["<b><span class=\"mono\">applied_at</span> is this page's clock.</b> Set it to the moment you actually commit; the rows are otherwise exact."@, "<b><span class=\"mono\">cash_delta</span> on an entry is the fee alone.</b> Posting collateral does not spend cash, it commits it — cash minus the sum of open collateral is the free cash figure (portfolio/README.md)."@, "<b>Prices move.</b> These rows were priced against the book at the moment this page rendered; re-run the plan before committing if any time has passed. The plan id <span class=\"mono\">"@ + escaped(plan_id) + "</span> changes when they do."@]),
            "<div class=\"sec-foot\">"@ + "<span class=\"mono\">portfolio/ledger.csv</span><span>append-only, and the authority for every number on the Holdings tab</span>"@ + "</div>"@,
        )
    }
}

fn push_ledger_line(out: &mut String, now: &str, a: &Action, policy: &str, plan_id: &str)
    ensures
        final(out)@ == old(out)@ + ledger_line(now@, *a, policy@, plan_id@),
{
    let mut s = owned(now);
    s.append(",");
    s.append(a.kind.as_str());
    s.append(",");
    s.append(a.slug.as_str());
    s.append(",");
    s.append(a.condition_id.as_str());
    s.append(",");
    s.append(a.outcome.as_str());
    s.append(",");
    s.append(a.token_id.as_str());
    s.append(",");
    s.append(a.side.as_str());
    s.append(",");
    s.append(a.shares.as_str());
    s.append(",");
    s.append(a.price.as_str());
    s.append(",");
    s.append(a.fee.as_str());
    s.append(",");
    s.append(a.cash_delta.as_str());
    s.append(",");
    s.append(a.collateral.as_str());
    s.append(",");
    s.append(policy);
    s.append(",");
    s.append(plan_id);
    s.append(",");
    let note = chars_of(a.note.as_str());
    let ghost start = s@;
    let mut i: usize = 0;
    while i < note.len()
        invariant
            i <= note@.len(),
            note@ == a.note@,
            s@ == start + replace_char(note@.take(i as int), ',', ';'),
        decreases note.len() - i,
    {
        let c = note[i];
        if c == ',' {
            push_char(&mut s, ';');
        } else {
            push_char(&mut s, c);
        }
        proof {
            assert(replace_char(note@.take(i + 1), ',', ';') =~= replace_char(
                note@.take(i as int),
                ',',
                ';',
            ).push(if c == ',' {
                ';'
            } else {
                c
            }));
        }
        i += 1;
    }
    proof {
        assert(note@.take(note@.len() as int) =~= note@);
    }
    s.append("\n");
    proof {
        assert(s@ =~= ledger_line(now@, *a, policy@, plan_id@));
    }
    out.append(s.as_str());
}

fn apply_command_exec(csv: &str, plan_id: &str, policy: &str) -> (r: String)
    ensures
        r@ == apply_command(csv@, plan_id@, policy@),
{
    let cs = chars_of(csv);
    proof {
        assert(cs@.subrange(0, cs@.len() as int) =~= cs@);
    }
    let ls = lines_in(&cs, 0, cs.len());
    let ghost lv = wins(cs@, ls@);
    let mut body = String::new();
    let mut k: usize = 1;
    proof {
        if lv.len() > 0 {
            assert(lv.skip(1).take(0) =~= Seq::<Seq<char>>::empty());
        }
        assert(concat(with_newlines(Seq::<Seq<char>>::empty())) == Seq::<char>::empty()) by {
            assert(with_newlines(Seq::<Seq<char>>::empty()) =~= Seq::<Seq<char>>::empty());
        }
    }
    if ls.len() > 0 {
        while k < ls.len()
            invariant
                1 <= k <= ls@.len(),
                windows_ok(cs@, ls@),
                lv == wins(cs@, ls@),
                body@ == concat(with_newlines(lv.skip(1).take(k - 1))),
            decreases ls.len() - k,
        {
            let (a, b) = ls[k];
            proof {
                assert(ls@[k as int].0 <= ls@[k as int].1 <= cs@.len());
            }
            push_window(&mut body, &cs, a, b);
            body.append("\n");
            proof {
                let w = with_newlines(lv.skip(1));
                assert(w.take(k as int) =~= w.take(k - 1).push(w[k - 1]));
                assert(w[k - 1] == lv[k as int] + "\n"@);
                lemma_concat_take(w, k - 1);
                assert(lv.skip(1).take(k - 1) =~= lv.skip(1).take(k as int).take(k - 1));
                assert(with_newlines(lv.skip(1).take(k as int)) =~= w.take(k as int));
                assert(with_newlines(lv.skip(1).take(k - 1)) =~= w.take(k - 1));
            }
            k += 1;
        }
        proof {
            assert(lv.skip(1).take(k - 1) =~= lv.skip(1));
            assert(after_first(lv) == lv.skip(1));
        }
    } else {
        proof {
            assert(lv =~= Seq::<Seq<char>>::empty());
        }
    }
    let mut out = owned("cat >> portfolio/ledger.csv <<'EOF'\n");
    out.append(body.as_str());
    out.append("EOF\ngit commit portfolio/ledger.csv portfolio/positions.csv \\\n  -m \"paper book: apply plan ");
    out.append(plan_id);
    out.append(" under ");
    out.append(policy);
    out.append("\"");
    out
}

/// The Apply section for `actions` under `policy` with id `plan_id`, the
/// rows stamped at the instant `now_ms`.
pub fn apply_section(actions: &[Action], policy: &PlanPolicy, plan_id: &str, now_ms: i64) -> (r:
    String)
    ensures
        r@ == apply_html(actions@, policy.file@, plan_id@, iso_of_ms(now_ms as int)),
{
    let now = now_iso(now_ms);
    let mut rows = String::new();
    let mut n: usize = 0;
    let mut i: usize = 0;
    proof {
        assert(actions@.take(0) =~= Seq::<Action>::empty());
    }
    while i < actions.len()
        invariant
            i <= actions@.len(),
            n == acting_of(actions@.take(i as int)).len(),
            n <= i,
            rows@ == ledger_lines(now@, acting_of(actions@.take(i as int)), policy.file@, plan_id@),
        decreases actions.len() - i,
    {
        let a = &actions[i];
        let ghost pre = acting_of(actions@.take(i as int));
        proof {
            assert(actions@.take(i + 1).drop_last() =~= actions@.take(i as int));
            assert(actions@.take(i + 1).last() == *a);
        }
        if !str_eq(a.kind.as_str(), "no change") && !str_eq(a.kind.as_str(), "unmanaged") {
            push_ledger_line(&mut rows, now.as_str(), a, policy.file.as_str(), plan_id);
            n += 1;
            proof {
                let post = acting_of(actions@.take(i + 1));
                assert(post =~= pre.push(*a));
                assert(post.drop_last() =~= pre);
            }
        } else {
            proof {
                assert(acting_of(actions@.take(i + 1)) =~= pre);
            }
        }
        i += 1;
    }
    proof {
        assert(actions@.take(actions@.len() as int) =~= actions@);
    }
    if n == 0 {
        let e = empty_state("Nothing to apply", "<div>The plan proposes no changes, so there are no ledger rows to append. Nothing is written either way — this page only reads.</div>");
        return section("Apply", "", "", e.as_str());
    }
    let mut csv = owned("applied_at,action,market_slug,condition_id,outcome,token_id,side,shares,price,fee,cash_delta,collateral_delta,policy,plan_id,note\n");
    csv.append(rows.as_str());
    let cmd = apply_command_exec(csv.as_str(), plan_id, policy.file.as_str());
    let mut body = owned("<p class=\"finding\">Applying is something the CEO does in a commit, not something this page can do. The dashboard reads the repository over the network and has <b>no write path at all</b> — granting a web-facing service commit access to the firm's own state is Felix's decision, not a convenience. It is also the better shape: a plan that has to be applied by hand leaves a signed, auditable trail, and that trail is exactly what <span class=\"mono\">portfolio/ledger.csv</span> is for.</p><p class=\"finding\">Append these ");
    let c = count(n, "row");
    body.append(c.as_str());
    body.append(" to the ledger, then rebuild <span class=\"mono\">positions.csv</span> from it — the ledger is the authority and the positions file is only an index over it.</p><pre class=\"codeblock\">");
    push_esc(&mut body, csv.as_str());
    body.append("</pre><p class=\"finding\">Or, from a checkout:</p><pre class=\"codeblock\">");
    push_esc(&mut body, cmd.as_str());
    body.append("</pre>");
    let mut n3 = owned("<b>Prices move.</b> These rows were priced against the book at the moment this page rendered; re-run the plan before committing if any time has passed. The plan id <span class=\"mono\">");
    push_esc(&mut n3, plan_id);
    n3.append("</span> changes when they do.");
    let mut ns: Vec<String> = Vec::new();
    ns.push(owned("<b><span class=\"mono\">applied_at</span> is this page's clock.</b> Set it to the moment you actually commit; the rows are otherwise exact."));
    ns.push(owned("<b><span class=\"mono\">cash_delta</span> on an entry is the fee alone.</b> Posting collateral does not spend cash, it commits it — cash minus the sum of open collateral is the free cash figure (portfolio/README.md)."));
    ns.push(n3);
    proof {
        assert(ns@.map_values(|s: String| s@) =~= seq!["<b><span class=\"mono\">applied_at</span> is this page's clock.</b> Set it to the moment you actually commit; the rows are otherwise exact."@, "<b><span class=\"mono\">cash_delta</span> on an entry is the fee alone.</b> Posting collateral does not spend cash, it commits it — cash minus the sum of open collateral is the free cash figure (portfolio/README.md)."@, "<b>Prices move.</b> These rows were priced against the book at the moment this page rendered; re-run the plan before committing if any time has passed. The plan id <span class=\"mono\">"@ + escaped(plan_id@) + "</span> changes when they do."@]);
    }
    let nt = notes(ns.as_slice());
    body.append(nt.as_str());
    let chip = badge("nothing is written by this page", "warn");
    section_foot(
        "Apply",
        "the exact rows this plan implies, for the CEO to append",
        chip.as_str(),
        body.as_str(),
        "<span class=\"mono\">portfolio/ledger.csv</span><span>append-only, and the authority for every number on the Holdings tab</span>",
    )
}


// ---------------------------------------------------------------------------
// The diff
// ---------------------------------------------------------------------------

/// One line of the plan's diff as the table shows it. The figures come as
/// the table prints them, and only where the table prints one: `shares`
/// when the position holds any, `collateral` when it moves (by more than a
/// millionth), `fee` when one is charged. `at_book_end` says the fill price
/// was walked to 0 or 1.
pub struct DiffRow {
    pub kind: String,
    pub slug: String,
    pub outcome: String,
    pub family: String,
    pub variant: String,
    pub side: String,
    pub shares: Option<String>,
    pub price: String,
    pub collateral: Option<String>,
    pub fee: Option<String>,
    pub why: String,
    pub note: String,
    pub at_book_end: bool,
}

/// The rows the table shows: every action but the unmanaged ones.
pub open spec fn live_rows(rows: Seq<DiffRow>) -> Seq<DiffRow>
    decreases rows.len(),
{
    if rows.len() == 0 {
        Seq::empty()
    } else {
        live_rows(rows.drop_last()) + if rows.last().kind@ != "unmanaged"@ {
            seq![rows.last()]
        } else {
            Seq::empty()
        }
    }
}

/// How many of `rows` are of kind `kind`.
pub open spec fn kind_count(rows: Seq<DiffRow>, kind: Seq<char>) -> nat
    decreases rows.len(),
{
    if rows.len() == 0 {
        0
    } else {
        kind_count(rows.drop_last(), kind) + if rows.last().kind@ == kind {
            1nat
        } else {
            0nat
        }
    }
}

pub open spec fn dash_or(x: Option<String>) -> Seq<char> {
    match x {
        Some(s) => s@,
        None => "\u{2014}"@,
    }
}

pub open spec fn diff_cells(a: DiffRow, metas: Seq<VariantMeta>) -> Seq<Seq<char>> {
    seq![
        "<span class=\"plan-sym "@ + symbol_tone_of(a.kind@) + "\">"@ + symbol_of(a.kind@)
            + "</span>"@,
        "<b>"@ + escaped(a.kind@) + "</b>"@,
        "<a href=\"/markets/"@ + escaped(a.slug@) + "\">"@ + escaped(a.slug@)
            + "</a><span class=\"sub\">"@ + escaped(a.outcome@) + "</span>"@,
        strategy_links_of(a.family@, a.variant@, metas),
        escaped(a.side@),
        if a.kind@ != "no change"@ {
            dash_or(a.shares)
        } else {
            "\u{2014}"@
        },
        a.price@,
        dash_or(a.collateral),
        dash_or(a.fee),
        escaped(a.why@) + if a.note@.len() == 0 {
            Seq::empty()
        } else {
            "<span class=\"sub\">"@ + escaped(a.note@) + "</span>"@
        },
    ]
}

pub open spec fn diff_head() -> Seq<(Seq<char>, Seq<char>)> {
    seq![
        (""@, ""@),
        ("Action"@, ""@),
        ("Market"@, ""@),
        ("Strategy"@, ""@),
        ("Side"@, ""@),
        ("Shares"@, "num"@),
        ("Price"@, "num"@),
        ("Collateral"@, "num"@),
        ("Fee"@, "num"@),
        ("Why"@, "wrap"@),
    ]
}

/// A fill walked to the end of the book on an entry.
pub open spec fn walked(live: Seq<DiffRow>) -> bool {
    exists|i: int|
        0 <= i < live.len() && (live[i].kind@ == "open"@ || live[i].kind@ == "increase"@)
            && #[trigger] live[i].at_book_end
}

/// "The diff": one row per position the plan touches, and why. When the
/// plan changes nothing it says so, and why that is a result.
pub open spec fn actions_html(rows: Seq<DiffRow>, metas: Seq<VariantMeta>) -> Seq<char> {
    let live = live_rows(rows);
    let acting = (live.len() - kind_count(live, "no change"@)) as nat;
    if acting == 0 {
        let detail = if live.len() == 0 {
            "<div>The book is empty and this policy opens nothing against today's signals. That is a result, not a blank screen: the table below names the rule that stopped each candidate. It is also the backtest's headline finding — on our own live signals, seven of the eight policies take zero trades.</div>"@
        } else {
            "<div>Every one of the "@ + dec(live.len()) + " open positions is where this policy wants it, and no new candidate cleared the gates. The table below names the rule that stopped each one.</div>"@
        };
        section_html(
            "The diff"@,
            "nothing to apply"@,
            badge_html("no changes"@, ""@),
            "<div class=\"empty\"><strong>"@ + escaped("This plan proposes no trades"@) + "</strong>"@
                + detail + "</div>"@,
            Seq::empty(),
        )
    } else {
        let unmanaged = kind_count(rows, "unmanaged"@);
        section_html(
            "The diff"@,
            "one row per position the plan touches, and why"@,
            badge_html(count_of(acting, "change"@), ""@),
            table_of(diff_head(), live.map_values(|a: DiffRow| diff_cells(a, metas)), "data"@)
                + if walked(live) {
                notes_html(seq!["Rows priced at <b>0.0000</b> or <b>1.0000</b> have had the fill walked to the end of the book by slippage: this policy caps how much of the resting depth it will take at 100%, so the stake eats the whole book and the engine's linear penalty (<span class=\"mono\">apply_slippage</span>) moves the price the full width it has room for. It is the engine's arithmetic unchanged, and it is also a trade no counterparty would fill — read it as the policy failing a capacity test, not as a price."@])
            } else {
                Seq::empty()
            },
            "<div class=\"sec-foot\">"@ + (if unmanaged > 0 {
                "<span>"@ + count_of(unmanaged, "open position"@) + " not shown: outside this plan's market selection, so it leaves them alone</span>"@
            } else {
                "<span>+ open · ~ change · − close · = leave alone</span>"@
            }) + "</div>"@,
        )
    }
}

proof fn lemma_kind_count_bound(rows: Seq<DiffRow>, kind: Seq<char>)
    ensures
        kind_count(rows, kind) <= rows.len(),
    decreases rows.len(),
{
    if rows.len() > 0 {
        lemma_kind_count_bound(rows.drop_last(), kind);
    }
}

fn diff_cells_exec(a: &DiffRow, metas: &[VariantMeta]) -> (r: Vec<String>)
    ensures
        views(r@) == diff_cells(*a, metas@),
{
    let mut sym = owned("<span class=\"plan-sym ");
    sym.append(symbol_tone(a.kind.as_str()));
    sym.append("\">");
    sym.append(symbol(a.kind.as_str()));
    sym.append("</span>");
    let mut kind = owned("<b>");
    push_esc(&mut kind, a.kind.as_str());
    kind.append("</b>");
    let mut market = owned("<a href=\"/markets/");
    push_esc(&mut market, a.slug.as_str());
    market.append("\">");
    push_esc(&mut market, a.slug.as_str());
    market.append("</a><span class=\"sub\">");
    push_esc(&mut market, a.outcome.as_str());
    market.append("</span>");
    let strategy = strategy_links(a.family.as_str(), a.variant.as_str(), metas);
    let side = esc(a.side.as_str());
    let shares = match &a.shares {
        Some(s) => if !str_eq(a.kind.as_str(), "no change") {
            owned(s.as_str())
        } else {
            owned("\u{2014}")
        },
        None => owned("\u{2014}"),
    };
    let price = owned(a.price.as_str());
    let collateral = match &a.collateral {
        Some(s) => owned(s.as_str()),
        None => owned("\u{2014}"),
    };
    let fee = match &a.fee {
        Some(s) => owned(s.as_str()),
        None => owned("\u{2014}"),
    };
    let mut why = esc(a.why.as_str());
    if !a.note.as_str().is_empty() {
        why.append("<span class=\"sub\">");
        push_esc(&mut why, a.note.as_str());
        why.append("</span>");
    }
    let ghost want = diff_cells(*a, metas@);
    proof {
        reveal_strlit("");
        assert(sym@ =~= want[0]);
        assert(kind@ =~= want[1]);
        assert(market@ =~= want[2]);
        assert(strategy@ =~= want[3]);
        assert(side@ =~= want[4]);
        assert(shares@ =~= want[5]);
        assert(price@ =~= want[6]);
        assert(collateral@ =~= want[7]);
        assert(fee@ =~= want[8]);
        assert(why@ =~= want[9]);
    }
    let out = vec![sym, kind, market, strategy, side, shares, price, collateral, fee, why];
    proof {
        assert(views(out@) =~= want);
    }
    out
}

/// The diff table of a plan's actions.
pub fn actions_table(rows: &[DiffRow], metas: &[VariantMeta]) -> (r: String)
    ensures
        r@ == actions_html(rows@, metas@),
{
    let mut body: Vec<Vec<String>> = Vec::new();
    let mut unchanged: usize = 0;
    let mut unmanaged: usize = 0;
    let mut walk = false;
    let mut i: usize = 0;
    proof {
        assert(rows@.take(0) =~= Seq::<DiffRow>::empty());
    }
    while i < rows.len()
        invariant
            i <= rows@.len(),
            body@.len() == live_rows(rows@.take(i as int)).len(),
            forall|m: int|
                0 <= m < body@.len() ==> (#[trigger] body@[m]).deep_view() == diff_cells(
                    live_rows(rows@.take(i as int))[m],
                    metas@,
                ),
            unchanged == kind_count(live_rows(rows@.take(i as int)), "no change"@),
            unmanaged == kind_count(rows@.take(i as int), "unmanaged"@),
            unchanged <= i,
            unmanaged <= i,
            walk == walked(live_rows(rows@.take(i as int))),
        decreases rows.len() - i,
    {
        let a = &rows[i];
        let ghost pre = live_rows(rows@.take(i as int));
        proof {
            assert(rows@.take(i + 1).drop_last() =~= rows@.take(i as int));
            assert(rows@.take(i + 1).last() == *a);
            lemma_kind_count_bound(pre, "no change"@);
            lemma_live_len(rows@.take(i as int));
        }
        if str_eq(a.kind.as_str(), "unmanaged") {
            unmanaged += 1;
            proof {
                assert(live_rows(rows@.take(i + 1)) =~= pre);
            }
        } else {
            let cells = diff_cells_exec(a, metas);
            proof {
                assert(cells.deep_view() =~= views(cells@));
            }
            body.push(cells);
            proof {
                assert(live_rows(rows@.take(i + 1)) =~= pre.push(*a));
                assert(pre.push(*a).drop_last() =~= pre);
                assert(pre.push(*a).last() == *a);
            }
            if str_eq(a.kind.as_str(), "no change") {
                unchanged += 1;
            }
            let entry = str_eq(a.kind.as_str(), "open") || str_eq(a.kind.as_str(), "increase");
            if entry && a.at_book_end {
                walk = true;
            }
            proof {
                let p2 = pre.push(*a);
                if entry && a.at_book_end {
                    assert(p2[pre.len() as int] == *a);
                } else {
                    assert forall|k: int| 0 <= k < p2.len() && (p2[k].kind@ == "open"@ || p2[k].kind@ == "increase"@) && #[trigger] p2[k].at_book_end implies k < pre.len() && pre[k] == p2[k] by {
                        if k == pre.len() {
                            assert(p2[k] == *a);
                        }
                    }
                    if walked(p2) {
                        let k = choose|k: int| 0 <= k < p2.len() && (p2[k].kind@ == "open"@ || p2[k].kind@ == "increase"@) && #[trigger] p2[k].at_book_end;
                        assert(pre[k].at_book_end);
                    }
                    if walked(pre) {
                        let k = choose|k: int| 0 <= k < pre.len() && (pre[k].kind@ == "open"@ || pre[k].kind@ == "increase"@) && #[trigger] pre[k].at_book_end;
                        assert(p2[k] == pre[k]);
                    }
                }
            }
        }
        i += 1;
    }
    proof {
        assert(rows@.take(rows@.len() as int) =~= rows@);
        lemma_kind_count_bound(live_rows(rows@), "no change"@);
    }
    let live_n = body.len();
    let acting = live_n - unchanged;
    if acting == 0 {
        let detail = if live_n == 0 {
            owned("<div>The book is empty and this policy opens nothing against today's signals. That is a result, not a blank screen: the table below names the rule that stopped each candidate. It is also the backtest's headline finding — on our own live signals, seven of the eight policies take zero trades.</div>")
        } else {
            let mut d = owned("<div>Every one of the ");
            push_dec(&mut d, live_n as u64);
            d.append(" open positions is where this policy wants it, and no new candidate cleared the gates. The table below names the rule that stopped each one.</div>");
            d
        };
        let e = empty_state("This plan proposes no trades", detail.as_str());
        let chip = badge("no changes", "");
        return section("The diff", "nothing to apply", chip.as_str(), e.as_str());
    }
    let head = [
        ("", ""),
        ("Action", ""),
        ("Market", ""),
        ("Strategy", ""),
        ("Side", ""),
        ("Shares", "num"),
        ("Price", "num"),
        ("Collateral", "num"),
        ("Fee", "num"),
        ("Why", "wrap"),
    ];
    let hs = head.as_slice();
    let bs = body.as_slice();
    proof {
        assert(hs.deep_view() =~= diff_head());
        assert(bs.deep_view() =~~= live_rows(rows@).map_values(|a: DiffRow| diff_cells(a, metas@)));
    }
    let mut inner = table(hs, bs);
    if walk {
        let mut v: Vec<String> = Vec::new();
        v.push(owned("Rows priced at <b>0.0000</b> or <b>1.0000</b> have had the fill walked to the end of the book by slippage: this policy caps how much of the resting depth it will take at 100%, so the stake eats the whole book and the engine's linear penalty (<span class=\"mono\">apply_slippage</span>) moves the price the full width it has room for. It is the engine's arithmetic unchanged, and it is also a trade no counterparty would fill — read it as the policy failing a capacity test, not as a price."));
        proof {
            assert(v@.map_values(|s: String| s@) =~= seq!["Rows priced at <b>0.0000</b> or <b>1.0000</b> have had the fill walked to the end of the book by slippage: this policy caps how much of the resting depth it will take at 100%, so the stake eats the whole book and the engine's linear penalty (<span class=\"mono\">apply_slippage</span>) moves the price the full width it has room for. It is the engine's arithmetic unchanged, and it is also a trade no counterparty would fill — read it as the policy failing a capacity test, not as a price."@]);
        }
        let n = notes(v.as_slice());
        inner.append(n.as_str());
    }
    let foot = if unmanaged > 0 {
        let mut f = owned("<span>");
        let c = count(unmanaged, "open position");
        f.append(c.as_str());
        f.append(" not shown: outside this plan's market selection, so it leaves them alone</span>");
        f
    } else {
        owned("<span>+ open · ~ change · − close · = leave alone</span>")
    };
    let chip = badge(count(acting, "change").as_str(), "");
    section_foot(
        "The diff",
        "one row per position the plan touches, and why",
        chip.as_str(),
        inner.as_str(),
        foot.as_str(),
    )
}

proof fn lemma_live_len(rows: Seq<DiffRow>)
    ensures
        live_rows(rows).len() <= rows.len(),
    decreases rows.len(),
{
    if rows.len() > 0 {
        lemma_live_len(rows.drop_last());
    }
}

} // verus!
