//! The backtest pages' helpers: the plain-English policy and signal-set
//! descriptions read from execution/README.md, cell sub-lines, and the
//! page's addresses and tab bar (which carry the fee version as well as the
//! tab).
use vstd::prelude::*;

use crate::engine::{order_of, order_of_spec, policy_order};
use crate::number::{dec, push_dec};
use crate::render::{
    escaped, join, notes, notes_html, push_esc, section, section_foot, section_html, subbar,
};
use crate::shell::{json_str, json_str_of};
use crate::repo::{filter_map, lemma_filter_map_step};

use crate::text::{
    chars_of, find_char_in, lines, lines_in, owned, push_char, push_window, set_pred, skip_set,
    skip_set_back, split_once, starts_with, str_eq, str_starts_with, string_of, strip_prefix,
    strip_prefix_in, trim, trim_end_by, trim_start_by, trim_window, win, wins, windows_ok, at_in,
    first_index, lemma_first_index_is, lemma_first_index_none,
};

verus! {

/// The second line inside a table cell.
pub fn sub(text: &str) -> (r: String)
    ensures
        r@ == "<span class=\"sub\">"@ + escaped(text@) + "</span>"@,
{
    let mut out = owned("<span class=\"sub\">");
    push_esc(&mut out, text);
    out.append("</span>");
    out
}

// ---------------------------------------------------------------------------
// Descriptions from the README
// ---------------------------------------------------------------------------

/// A table row ``| `mirror` | Every signal, flat stake, no gates. |`` →
/// (mirror, its character); none for other lines or an empty character.
pub open spec fn policy_row(line: Seq<char>) -> Option<(Seq<char>, Seq<char>)> {
    match strip_prefix(trim(line), "| `"@) {
        Some(rest) => match split_once(rest, '`') {
            Some((name, tail)) => {
                let c = trim(
                    trim_end_by(
                        trim_start_by(tail, set_pred(seq![' ', '|'])),
                        set_pred(seq!['|', ' ']),
                    ),
                );
                if c.len() > 0 {
                    Some((name, c))
                } else {
                    None
                }
            },
            None => None,
        },
        None => None,
    }
}

pub open spec fn policy_row_fn() -> spec_fn(Seq<char>) -> Option<(Seq<char>, Seq<char>)> {
    |l: Seq<char>| policy_row(l)
}

pub open spec fn pair_views(v: Seq<(String, String)>) -> Seq<(Seq<char>, Seq<char>)> {
    v.map_values(|p: (String, String)| (p.0@, p.1@))
}

fn policy_row_exec(s: &[char], a: usize, b: usize) -> (r: Option<(String, String)>)
    requires
        a <= b <= s@.len(),
    ensures
        match r {
            Some(p) => policy_row(s@.subrange(a as int, b as int)) == Some((p.0@, p.1@)),
            None => policy_row(s@.subrange(a as int, b as int)) is None,
        },
{
    let (x, y) = trim_window(s, a, b);
    let pre = chars_of("| `");
    let st = match strip_prefix_in(s, x, y, &pre) {
        Some(st) => st,
        None => return None,
    };
    let k = match find_char_in(s, st, y, '`') {
        Some(k) => k,
        None => return None,
    };
    proof {
        let rest = s@.subrange(st as int, y as int);
        assert(rest.subrange(0, k - st) =~= s@.subrange(st as int, k as int));
        assert(rest.subrange(k - st + 1, rest.len() as int) =~= s@.subrange(k + 1, y as int));
    }
    let lead = [' ', '|'];
    let trail = ['|', ' '];
    proof {
        assert(lead@ =~= seq![' ', '|']);
        assert(trail@ =~= seq!['|', ' ']);
    }
    let c = skip_set(s, k + 1, y, &lead);
    let d = skip_set_back(s, c, y, &trail);
    let (u, v) = trim_window(s, c, d);
    if u < v {
        Some((string_of(s, st, k), string_of(s, u, v)))
    } else {
        None
    }
}

/// `| `mirror` | Every signal, flat stake, no gates. … |` → (mirror,
/// character), for every such row of the README, in order.
pub fn policy_characters(readme: &str) -> (r: Vec<(String, String)>)
    ensures
        pair_views(r@) == filter_map(lines(readme@), policy_row_fn()),
{
    let s = chars_of(readme);
    proof {
        assert(s@.subrange(0, s@.len() as int) =~= s@);
    }
    let ls = lines_in(&s, 0, s.len());
    let ghost v = wins(s@, ls@);
    let mut out: Vec<(String, String)> = Vec::new();
    let mut k: usize = 0;
    proof {
        assert(pair_views(out@) =~= filter_map(v.take(0), policy_row_fn()));
    }
    while k < ls.len()
        invariant
            k <= ls@.len(),
            windows_ok(s@, ls@),
            v == wins(s@, ls@),
            pair_views(out@) == filter_map(v.take(k as int), policy_row_fn()),
        decreases ls.len() - k,
    {
        let (a, b) = ls[k];
        proof {
            assert(ls@[k as int].0 <= ls@[k as int].1 <= s@.len());
            assert(v[k as int] == win(s@, ls@[k as int]));
            lemma_filter_map_step(v, policy_row_fn(), k as int);
        }
        match policy_row_exec(&s, a, b) {
            Some(p) => {
                proof {
                    assert(pair_views(out@.push(p)) =~= pair_views(out@).push((p.0@, p.1@)));
                }
                out.push(p);
            },
            None => {},
        }
        k += 1;
    }
    proof {
        assert(v.take(ls@.len() as int) =~= v);
    }
    out
}

/// One README line read into the signal-set list: a ``- `name` — what``
/// bullet opens an entry; an indented non-blank line continues the open
/// one; a blank line closes it.
pub open spec fn set_step(st: (Seq<(Seq<char>, Seq<char>)>, bool), line: Seq<char>) -> (
    Seq<(Seq<char>, Seq<char>)>,
    bool,
) {
    let (out, open) = st;
    let l = trim(line);
    match strip_prefix(line, "- `"@) {
        Some(rest) => match split_once(rest, '`') {
            Some((name, tail)) => {
                let what = trim(trim_start_by(tail, set_pred(seq![' ', '—', '-'])));
                if what.len() > 0 {
                    (out.push((name, what)), true)
                } else {
                    (out, false)
                }
            },
            None => (out, false),
        },
        None => if open && starts_with(line, "  "@) && l.len() > 0 {
            if out.len() > 0 {
                (out.drop_last().push((out.last().0, out.last().1 + " "@ + l)), open)
            } else {
                (out, open)
            }
        } else if l.len() == 0 {
            (out, false)
        } else {
            (out, open)
        },
    }
}

pub open spec fn set_fold(ls: Seq<Seq<char>>) -> (Seq<(Seq<char>, Seq<char>)>, bool)
    decreases ls.len(),
{
    if ls.len() == 0 {
        (Seq::empty(), false)
    } else {
        set_step(set_fold(ls.drop_last()), ls.last())
    }
}

/// ``- `orakel-live` — our own predictions ⋈ resolutions. …`` → (set, what
/// it is); wrapped bullets are folded back into one line.
pub fn set_characters(readme: &str) -> (r: Vec<(String, String)>)
    ensures
        pair_views(r@) == set_fold(lines(readme@)).0,
{
    let s = chars_of(readme);
    proof {
        assert(s@.subrange(0, s@.len() as int) =~= s@);
    }
    let ls = lines_in(&s, 0, s.len());
    let ghost v = wins(s@, ls@);
    let bullet = chars_of("- `");
    let indent = chars_of("  ");
    let mut out: Vec<(String, String)> = Vec::new();
    let mut open = false;
    let mut k: usize = 0;
    proof {
        assert(v.take(0) =~= Seq::<Seq<char>>::empty());
        assert(pair_views(out@) =~= Seq::<(Seq<char>, Seq<char>)>::empty());
    }
    while k < ls.len()
        invariant
            k <= ls@.len(),
            windows_ok(s@, ls@),
            v == wins(s@, ls@),
            bullet@ == "- `"@,
            indent@ == "  "@,
            (pair_views(out@), open) == set_fold(v.take(k as int)),
        decreases ls.len() - k,
    {
        let (a, b) = ls[k];
        let ghost line = v[k as int];
        proof {
            assert(ls@[k as int].0 <= ls@[k as int].1 <= s@.len());
            assert(line == win(s@, ls@[k as int]));
            assert(v.take(k + 1).drop_last() =~= v.take(k as int));
            assert(v.take(k + 1).last() == line);
        }
        let ghost before = pair_views(out@);
        let (x, y) = trim_window(&s, a, b);
        match strip_prefix_in(&s, a, b, &bullet) {
            Some(st) => {
                open = false;
                match find_char_in(&s, st, b, '`') {
                    Some(q) => {
                        proof {
                            let rest = s@.subrange(st as int, b as int);
                            assert(rest.subrange(0, q - st) =~= s@.subrange(st as int, q as int));
                            assert(rest.subrange(q - st + 1, rest.len() as int) =~= s@.subrange(
                                q + 1,
                                b as int,
                            ));
                        }
                        let set = [' ', '—', '-'];
                        proof {
                            assert(set@ =~= seq![' ', '—', '-']);
                        }
                        let c = skip_set(&s, q + 1, b, &set);
                        let (u, w) = trim_window(&s, c, b);
                        if u < w {
                            let p = (string_of(&s, st, q), string_of(&s, u, w));
                            proof {
                                assert(pair_views(out@.push(p)) =~= before.push((p.0@, p.1@)));
                            }
                            out.push(p);
                            open = true;
                        }
                    },
                    None => {},
                }
            },
            None => {
                if open && at_in(&s, a, b, a, &indent) && x < y {
                    if out.len() > 0 {
                        let mut last = out.pop().unwrap();
                        let ghost l1 = last.1@;
                        push_char(&mut last.1, ' ');
                        push_window(&mut last.1, &s, x, y);
                        proof {
                            reveal_strlit(" ");
                            assert(last.1@ =~= l1 + " "@ + s@.subrange(x as int, y as int));
                            assert(before.last() == (last.0@, l1));
                        }
                        out.push(last);
                        proof {
                            assert(pair_views(out@) =~= before.drop_last().push(
                                (last.0@, last.1@),
                            ));
                        }
                    }
                } else if x == y {
                    open = false;
                }
            },
        }
        k += 1;
    }
    proof {
        assert(v.take(ls@.len() as int) =~= v);
    }
    out
}

pub open spec fn key_at(list: Seq<(Seq<char>, Seq<char>)>, key: Seq<char>) -> spec_fn(int) -> bool {
    |i: int| list[i].0 == key
}

/// The value of the first pair whose key is `key`; empty when there is none.
pub open spec fn lookup_of(list: Seq<(Seq<char>, Seq<char>)>, key: Seq<char>) -> Seq<char> {
    match first_index(list.len() as int, key_at(list, key)) {
        Some(i) => list[i].1,
        None => Seq::empty(),
    }
}

pub fn lookup(list: &[(String, String)], key: &str) -> (r: String)
    ensures
        r@ == lookup_of(pair_views(list@), key@),
{
    let ghost lv = pair_views(list@);
    let ghost p = key_at(lv, key@);
    let mut i: usize = 0;
    while i < list.len()
        invariant
            i <= list@.len(),
            lv == pair_views(list@),
            p == key_at(lv, key@),
            forall|j: int| 0 <= j < i ==> !#[trigger] p(j),
        decreases list.len() - i,
    {
        proof {
            assert(lv[i as int] == (list@[i as int].0@, list@[i as int].1@));
        }
        if str_eq(list[i].0.as_str(), key) {
            proof {
                lemma_first_index_is(lv.len() as int, p, i as int);
            }
            return owned(list[i].1.as_str());
        }
        i += 1;
    }
    proof {
        lemma_first_index_none(lv.len() as int, p);
    }
    String::new()
}

// ---------------------------------------------------------------------------
// Addresses and tabs
// ---------------------------------------------------------------------------

/// The backtest page with `tab` shown: fee version 1 is asked for
/// explicitly, version 2 (the default) carries no parameter.
pub open spec fn backtest_query(tab: Seq<char>, version: u32) -> Seq<Seq<char>> {
    (if tab.len() > 0 {
        seq!["tab="@ + tab]
    } else {
        Seq::<Seq<char>>::empty()
    }) + (if version == 1 {
        seq!["fees=v1"@]
    } else {
        Seq::<Seq<char>>::empty()
    })
}

pub open spec fn backtest_href(tab: Seq<char>, version: u32) -> Seq<char> {
    let q = backtest_query(tab, version);
    if q.len() == 0 {
        "/backtest"@
    } else {
        "/backtest?"@ + join(q, "&"@)
    }
}

pub fn href(tab: &str, version: u32) -> (r: String)
    ensures
        r@ == backtest_href(tab@, version),
{
    proof {
        reveal_strlit("&");
    }
    let has_tab = !tab.is_empty();
    if !has_tab && version != 1 {
        proof {
            assert((Seq::<Seq<char>>::empty() + Seq::<Seq<char>>::empty()).len() == 0);
        }
        return owned("/backtest");
    }
    let mut out = owned("/backtest?");
    if has_tab {
        out.append("tab=");
        out.append(tab);
        if version == 1 {
            out.append("&fees=v1");
        }
    } else {
        out.append("fees=v1");
    }
    proof {
        let q = (if tab@.len() > 0 {
            seq!["tab="@ + tab@]
        } else {
            Seq::<Seq<char>>::empty()
        }) + (if version == 1 {
            seq!["fees=v1"@]
        } else {
            Seq::<Seq<char>>::empty()
        });
        reveal_strlit("&fees=v1");
        reveal_strlit("fees=v1");
        if has_tab && version == 1 {
            assert(q =~= seq!["tab="@ + tab@, "fees=v1"@]);
            assert(q.drop_last() =~= seq!["tab="@ + tab@]);
            assert(join(q.drop_last(), "&"@) == "tab="@ + tab@);
            assert(q.last() == "fees=v1"@);
            assert(join(q, "&"@) =~= "tab="@ + tab@ + "&"@ + "fees=v1"@);
            assert("&fees=v1"@ =~= "&"@ + "fees=v1"@);
        } else if has_tab {
            assert(q =~= seq!["tab="@ + tab@]);
        } else {
            assert(q =~= seq!["fees=v1"@]);
        }
        assert(out@ =~= backtest_href(tab@, version));
    }
    out
}

/// One entry in the backtest page's bar.
pub struct Tab {
    pub key: String,
    pub label: String,
    pub count: String,
}

pub open spec fn backtest_tab(t: Tab, active: Seq<char>, version: u32) -> Seq<char> {
    let n = if t.count@.len() == 0 {
        Seq::empty()
    } else {
        "<span class=\"tab-n\">"@ + escaped(t.count@) + "</span>"@
    };
    "<a href=\""@ + escaped(backtest_href(t.key@, version)) + "\""@ + (if t.key@ == active {
        " aria-current=\"page\""@
    } else {
        Seq::empty()
    }) + ">"@ + escaped(t.label@) + n + "</a>"@
}

pub open spec fn backtest_tabs(tabs: Seq<Tab>, active: Seq<char>, version: u32) -> Seq<char>
    decreases tabs.len(),
{
    if tabs.len() == 0 {
        Seq::empty()
    } else {
        backtest_tabs(tabs.drop_last(), active, version) + backtest_tab(tabs.last(), active, version)
    }
}

/// The bar: every tab's link keeps the fee version, so switching tabs never
/// changes which cost model is being read.
pub fn tabbar(tabs: &[Tab], active: &str, version: u32) -> (r: String)
    ensures
        r@ == subbar(backtest_tabs(tabs@, active@, version)),
{
    let mut links = String::new();
    let mut i: usize = 0;
    proof {
        assert(tabs@.take(0) =~= Seq::<Tab>::empty());
    }
    while i < tabs.len()
        invariant
            i <= tabs@.len(),
            links@ == backtest_tabs(tabs@.take(i as int), active@, version),
        decreases tabs.len() - i,
    {
        let t = &tabs[i];
        let ghost before = links@;
        let h = href(t.key.as_str(), version);
        links.append("<a href=\"");
        push_esc(&mut links, h.as_str());
        links.append("\"");
        if str_eq(t.key.as_str(), active) {
            links.append(" aria-current=\"page\"");
        }
        links.append(">");
        push_esc(&mut links, t.label.as_str());
        if !t.count.as_str().is_empty() {
            links.append("<span class=\"tab-n\">");
            push_esc(&mut links, t.count.as_str());
            links.append("</span>");
        }
        links.append("</a>");
        proof {
            assert(tabs@.take(i + 1).drop_last() =~= tabs@.take(i as int));
            assert(tabs@.take(i + 1).last() == tabs@[i as int]);
            assert(links@ =~= before + backtest_tab(tabs@[i as int], active@, version));
        }
        i += 1;
    }
    proof {
        assert(tabs@.take(tabs@.len() as int) =~= tabs@);
    }
    let mut out = owned(
        "<nav class=\"subbar\" aria-label=\"Sections of this page\"><div class=\"subbar-in\">",
    );
    out.append(links.as_str());
    out.append("</div></nav>");
    out
}

/// Switching tabs never changes which cost model is being read: on every
/// tab, the address ends in the fee-free parameter exactly when version 1
/// is shown.
pub proof fn law_tabs_keep_fee_version(tab: Seq<char>, version: u32)
    ensures
        (version == 1) == (backtest_query(tab, version).len() > 0 && backtest_query(
            tab,
            version,
        ).last() == "fees=v1"@),
{
    reveal_strlit("tab=");
    reveal_strlit("fees=v1");
    let q = backtest_query(tab, version);
    if version == 1 {
        assert(q.last() == "fees=v1"@);
    } else if tab.len() > 0 {
        assert(q =~= seq!["tab="@ + tab]);
        assert(q.last()[0] == 't');
        assert(("fees=v1"@)[0] == 'f');
    } else {
        assert(q =~= Seq::<Seq<char>>::empty());
    }
}

// ---------------------------------------------------------------------------
// The runs of one signal set, in canonical policy order
// ---------------------------------------------------------------------------

/// The policy at position `k` of the canonical order.
pub fn policy_at(k: usize) -> (r: &'static str)
    requires
        k < 8,
    ensures
        r@ == policy_order()[k as int],
{
    match k {
        0 => "mirror",
        1 => "gate",
        2 => "kelly",
        3 => "anchor",
        4 => "fade",
        5 => "patient",
        6 => "sniper",
        _ => "harvest",
    }
}

/// One row of the backtest matrix: a policy at one fee version replayed
/// over one signal set. The engine's float figures stay with the caller;
/// `has_ann` says whether an annualized return was reported at all.
pub struct Run {
    pub set: String,
    pub policy: String,
    pub version: u32,
    pub fee_model: String,
    pub n_signals: i64,
    pub n_trades: i64,
    pub has_ann: bool,
    pub underpowered: bool,
    pub date_start: String,
    pub date_end: String,
}

impl Run {
    /// The engine ranks a row only with at least 30 trades, a return, and no
    /// underpowered flag.
    pub open spec fn is_ranked(self) -> bool {
        !self.underpowered && self.n_trades >= 30 && self.has_ann
    }

    pub fn ranked(&self) -> (r: bool)
        ensures
            r == self.is_ranked(),
    {
        !self.underpowered && self.n_trades >= 30 && self.has_ann
    }
}

/// Whether run `i` belongs to `set` at `version` and sits at rank `k`.
pub open spec fn set_rank_pred(runs: Seq<Run>, set: Seq<char>, version: u32, k: nat) -> spec_fn(
    int,
) -> bool {
    |i: int| runs[i].set@ == set && runs[i].version == version && order_of_spec(runs[i].policy@) == k
}

/// The indices below `n` that satisfy `p`, in increasing order.
pub open spec fn picks(n: int, p: spec_fn(int) -> bool) -> Seq<usize>
    decreases n,
{
    if n <= 0 {
        Seq::empty()
    } else {
        picks(n - 1, p) + if p(n - 1) {
            seq![(n - 1) as usize]
        } else {
            Seq::empty()
        }
    }
}

/// The runs of ranks below `k`, rank by rank, each rank in file order.
pub open spec fn set_order(runs: Seq<Run>, set: Seq<char>, version: u32, k: nat) -> Seq<usize>
    decreases k,
{
    if k == 0 {
        Seq::empty()
    } else {
        set_order(runs, set, version, (k - 1) as nat) + picks(
            runs.len() as int,
            set_rank_pred(runs, set, version, (k - 1) as nat),
        )
    }
}

/// The runs of one set at one fee version (as indices into `runs`), in
/// canonical policy order; runs of the same rank keep their file order.
pub open spec fn set_runs_of(runs: Seq<Run>, set: Seq<char>, version: u32) -> Seq<usize> {
    set_order(runs, set, version, 9)
}

pub fn set_runs(runs: &[Run], set: &str, version: u32) -> (r: Vec<usize>)
    ensures
        r@ == set_runs_of(runs@, set@, version),
{
    let mut ranks: Vec<usize> = Vec::new();
    let mut i: usize = 0;
    while i < runs.len()
        invariant
            i <= runs@.len(),
            ranks@.len() == i,
            forall|j: int| 0 <= j < i ==> ranks@[j] == order_of_spec(runs@[j].policy@),
        decreases runs.len() - i,
    {
        let k = order_of(runs[i].policy.as_str());
        ranks.push(k);
        i += 1;
    }
    let mut out: Vec<usize> = Vec::new();
    let mut k: usize = 0;
    while k < 9
        invariant
            k <= 9,
            ranks@.len() == runs@.len(),
            forall|j: int| 0 <= j < runs@.len() ==> ranks@[j] == order_of_spec(runs@[j].policy@),
            out@ == set_order(runs@, set@, version, k as nat),
        decreases 9 - k,
    {
        let ghost base = out@;
        let ghost p = set_rank_pred(runs@, set@, version, k as nat);
        let mut j: usize = 0;
        while j < runs.len()
            invariant
                j <= runs@.len(),
                k < 9,
                ranks@.len() == runs@.len(),
                forall|m: int| 0 <= m < runs@.len() ==> ranks@[m] == order_of_spec(runs@[m].policy@),
                p == set_rank_pred(runs@, set@, version, k as nat),
                out@ == base + picks(j as int, p),
            decreases runs.len() - j,
        {
            let hit = ranks[j] == k && runs[j].version == version && str_eq(
                runs[j].set.as_str(),
                set,
            );
            if hit {
                out.push(j);
            }
            proof {
                if hit {
                    assert(out@ =~= base + picks(j + 1, p));
                } else {
                    assert(picks(j + 1, p) =~= picks(j as int, p));
                }
            }
            j += 1;
        }
        k += 1;
    }
    out
}

proof fn lemma_picks(n: int, p: spec_fn(int) -> bool)
    requires
        n <= usize::MAX + 1,
    ensures
        forall|x: int| 0 <= x < picks(n, p).len() ==> picks(n, p)[x] < n && p(picks(n, p)[x] as int),
        forall|a: int, b: int|
            0 <= a < b < picks(n, p).len() ==> picks(n, p)[a] < picks(n, p)[b],
        forall|i: int| 0 <= i < n && #[trigger] p(i) ==> picks(n, p).contains(i as usize),
    decreases n,
{
    if n > 0 {
        lemma_picks(n - 1, p);
        let prev = picks(n - 1, p);
        if p(n - 1) {
            let cur = picks(n, p);
            assert(cur =~= prev.push((n - 1) as usize));
            assert forall|i: int| 0 <= i < n && #[trigger] p(i) implies cur.contains(i as usize) by {
                if i < n - 1 {
                    let x = choose|x: int| 0 <= x < prev.len() && prev[x] == i as usize;
                    assert(cur[x] == i as usize);
                } else {
                    assert(cur[prev.len() as int] == i as usize);
                }
            }
        } else {
            assert(picks(n, p) =~= prev);
        }
    }
}

proof fn lemma_set_order(runs: Seq<Run>, set: Seq<char>, version: u32, k: nat)
    requires
        runs.len() <= usize::MAX,
    ensures
        forall|x: int|
            #![trigger set_order(runs, set, version, k)[x]]
            0 <= x < set_order(runs, set, version, k).len() ==> {
                let i = set_order(runs, set, version, k)[x] as int;
                &&& i < runs.len()
                &&& runs[i].set@ == set
                &&& runs[i].version == version
                &&& order_of_spec(runs[i].policy@) < k
            },
        forall|a: int, b: int|
            #![trigger set_order(runs, set, version, k)[a], set_order(runs, set, version, k)[b]]
            0 <= a < b < set_order(runs, set, version, k).len() ==> {
                let i = set_order(runs, set, version, k)[a] as int;
                let j = set_order(runs, set, version, k)[b] as int;
                ||| order_of_spec(runs[i].policy@) < order_of_spec(runs[j].policy@)
                ||| (order_of_spec(runs[i].policy@) == order_of_spec(runs[j].policy@) && i < j)
            },
        forall|i: int|
            0 <= i < runs.len() && runs[i].set@ == set && runs[i].version == version
                && order_of_spec(runs[i].policy@) < k ==> set_order(runs, set, version, k).contains(
                i as usize,
            ),
    decreases k,
{
    if k > 0 {
        let k1 = (k - 1) as nat;
        lemma_set_order(runs, set, version, k1);
        let pr = set_rank_pred(runs, set, version, k1);
        lemma_picks(runs.len() as int, pr);
        let a_ = set_order(runs, set, version, k1);
        let b_ = picks(runs.len() as int, pr);
        let all = set_order(runs, set, version, k);
        assert(all =~= a_ + b_);
        assert forall|x: int| #![trigger all[x]] 0 <= x < all.len() implies {
            let i = all[x] as int;
            &&& i < runs.len()
            &&& runs[i].set@ == set
            &&& runs[i].version == version
            &&& order_of_spec(runs[i].policy@) < k
        } by {
            if x >= a_.len() {
                assert(all[x] == b_[x - a_.len()]);
                assert(pr(b_[x - a_.len()] as int));
            }
        }
        assert forall|a: int, b: int| #![trigger all[a], all[b]] 0 <= a < b < all.len() implies {
            let i = all[a] as int;
            let j = all[b] as int;
            ||| order_of_spec(runs[i].policy@) < order_of_spec(runs[j].policy@)
            ||| (order_of_spec(runs[i].policy@) == order_of_spec(runs[j].policy@) && i < j)
        } by {
            if b >= a_.len() {
                assert(all[b] == b_[b - a_.len()]);
                assert(pr(b_[b - a_.len()] as int));
                if a >= a_.len() {
                    assert(all[a] == b_[a - a_.len()]);
                    assert(pr(b_[a - a_.len()] as int));
                }
            }
        }
        assert forall|i: int|
            0 <= i < runs.len() && runs[i].set@ == set && runs[i].version == version
                && order_of_spec(runs[i].policy@) < k implies all.contains(i as usize) by {
            if order_of_spec(runs[i].policy@) < k1 {
                let x = choose|x: int| 0 <= x < a_.len() && a_[x] == i as usize;
                assert(all[x] == i as usize);
            } else {
                assert(pr(i));
                let x = choose|x: int| 0 <= x < b_.len() && b_[x] == i as usize;
                assert(all[a_.len() + x] == i as usize);
            }
        }
    }
}

/// `set_runs` lists every run of the set at that fee version exactly once
/// and nothing else, in canonical policy order, and runs of the same policy
/// rank keep the order they were read in.
pub proof fn law_set_runs_canonical(runs: Seq<Run>, set: Seq<char>, version: u32)
    requires
        runs.len() <= usize::MAX,
    ensures
        forall|x: int|
            #![trigger set_runs_of(runs, set, version)[x]]
            0 <= x < set_runs_of(runs, set, version).len() ==> {
                let i = set_runs_of(runs, set, version)[x] as int;
                &&& i < runs.len()
                &&& runs[i].set@ == set
                &&& runs[i].version == version
            },
        forall|i: int|
            0 <= i < runs.len() && runs[i].set@ == set && runs[i].version == version
                ==> set_runs_of(runs, set, version).contains(i as usize),
        forall|a: int, b: int|
            #![trigger set_runs_of(runs, set, version)[a], set_runs_of(runs, set, version)[b]]
            0 <= a < b < set_runs_of(runs, set, version).len() ==> set_runs_of(runs, set, version)[a]
                != set_runs_of(runs, set, version)[b],
        forall|a: int, b: int|
            #![trigger set_runs_of(runs, set, version)[a], set_runs_of(runs, set, version)[b]]
            0 <= a < b < set_runs_of(runs, set, version).len() ==> {
                let i = set_runs_of(runs, set, version)[a] as int;
                let j = set_runs_of(runs, set, version)[b] as int;
                ||| order_of_spec(runs[i].policy@) < order_of_spec(runs[j].policy@)
                ||| (order_of_spec(runs[i].policy@) == order_of_spec(runs[j].policy@) && i < j)
            },
{
    lemma_set_order(runs, set, version, 9);
}

// ---------------------------------------------------------------------------
// The equity curves
// ---------------------------------------------------------------------------

/// Whether some run in `runs` belongs to policy `p`.
pub open spec fn has_policy(runs: Seq<Run>, p: Seq<char>) -> bool {
    exists|j: int| 0 <= j < runs.len() && #[trigger] runs[j].policy@ == p
}

fn any_policy(runs: &[Run], p: &str) -> (r: bool)
    ensures
        r == has_policy(runs@, p@),
{
    let mut j: usize = 0;
    while j < runs.len()
        invariant
            j <= runs@.len(),
            forall|m: int| 0 <= m < j ==> runs@[m].policy@ != p@,
        decreases runs.len() - j,
    {
        if str_eq(runs[j].policy.as_str(), p) {
            return true;
        }
        j += 1;
    }
    false
}

/// The legend entries of the first `k` policies in canonical order: one for
/// each policy that has a curve, at its canonical colour index.
pub open spec fn legend_of(traded: Seq<Run>, k: nat) -> Seq<char>
    decreases k,
{
    if k == 0 {
        Seq::empty()
    } else {
        let i = (k - 1) as nat;
        legend_of(traded, i) + if has_policy(traded, policy_order()[i as int]) {
            "<span><i class=\"c"@ + dec(k) + "\"></i>"@ + escaped(policy_order()[i as int])
                + "</span>"@
        } else {
            Seq::empty()
        }
    }
}

/// Where the page fetches one set's curves at one fee version.
pub open spec fn equity_url(set: Seq<char>, version: u32) -> Seq<char> {
    "/backtest/data/"@ + set + "/v"@ + dec(version as nat) + ".json"@
}

pub open spec fn equity_section_html(set: Seq<char>, traded: Seq<Run>, version: u32) -> Seq<char> {
    section_html(
        "What $1,000 would have become"@,
        "bankroll plus realized profit — an open position is not marked to market, because these signal sets carry no price for every day of every hold"@,
        Seq::empty(),
        "<div class=\"legend\">"@ + legend_of(traded, 8) + "</div>\n<div class=\"chart\" id=\"chart-eq\"></div>\n<script src=\"/charts.js\"></script>\n<script>\n(function () {\n  var box = document.getElementById(\"chart-eq\");\n  fetch("@ + json_str_of(equity_url(set, version)) + ")\n    .then(function (r) { return r.json(); })\n    .then(function (d) { box.innerHTML = \"\"; Chart.line(box, d, {yPrecision: 0}); })\n    .catch(function () { box.textContent = \"failed to load the equity curves\"; });\n})();\n</script>"@,
        "<div class=\"sec-foot\">"@ + ("<span class=\"mono\">execution/results/&lt;set&gt;/&lt;policy&gt;-v"@ + dec(version as nat) + ".json</span><span>drag to zoom, double-click to reset</span>"@) + "</div>"@,
    )
}

/// The equity chart of the policies that traded, each line at its policy's
/// canonical colour, so a set with fewer policies never recolours them.
pub fn equity_section(set: &str, traded: &[Run], version: u32) -> (r: String)
    ensures
        r@ == equity_section_html(set@, traded@, version),
{
    let mut legend = String::new();
    let mut k: usize = 0;
    proof {
        assert(legend@ =~= legend_of(traded@, 0));
    }
    while k < 8
        invariant
            k <= 8,
            legend@ == legend_of(traded@, k as nat),
        decreases 8 - k,
    {
        let p = policy_at(k);
        if any_policy(traded, p) {
            legend.append("<span><i class=\"c");
            push_dec(&mut legend, (k + 1) as u64);
            legend.append("\"></i>");
            push_esc(&mut legend, p);
            legend.append("</span>");
        }
        k += 1;
    }
    let mut url = owned("/backtest/data/");
    url.append(set);
    url.append("/v");
    push_dec(&mut url, version as u64);
    url.append(".json");
    let mut body = owned("<div class=\"legend\">");
    body.append(legend.as_str());
    body.append("</div>\n<div class=\"chart\" id=\"chart-eq\"></div>\n<script src=\"/charts.js\"></script>\n<script>\n(function () {\n  var box = document.getElementById(\"chart-eq\");\n  fetch(");
    let js = json_str(url.as_str());
    body.append(js.as_str());
    body.append(")\n    .then(function (r) { return r.json(); })\n    .then(function (d) { box.innerHTML = \"\"; Chart.line(box, d, {yPrecision: 0}); })\n    .catch(function () { box.textContent = \"failed to load the equity curves\"; });\n})();\n</script>");
    let mut foot = owned("<span class=\"mono\">execution/results/&lt;set&gt;/&lt;policy&gt;-v");
    push_dec(&mut foot, version as u64);
    foot.append(".json</span><span>drag to zoom, double-click to reset</span>");
    proof {
        reveal_strlit("");
    }
    section_foot("What $1,000 would have become", "bankroll plus realized profit — an open position is not marked to market, because these signal sets carry no price for every day of every hold", "", body.as_str(), foot.as_str())
}

// ---------------------------------------------------------------------------
// The method tab
// ---------------------------------------------------------------------------

/// Whether run `i` carries a costed fee model.
pub open spec fn costed(runs: Seq<Run>) -> spec_fn(int) -> bool {
    |i: int| !starts_with(runs[i].fee_model@, "none"@) && runs[i].fee_model@.len() > 0
}

/// The costed fee model the engine reported: the first row that charges a
/// fee, whichever version the results tabs are showing; empty when none does.
pub open spec fn costed_model(runs: Seq<Run>) -> Seq<char> {
    match first_index(runs.len() as int, costed(runs)) {
        Some(i) => runs[i].fee_model@,
        None => Seq::empty(),
    }
}

pub open spec fn method_html(model: Seq<char>) -> Seq<char> {
    "<p class=\"lede\">Everything on this page is a replay. A signal is a probability the firm published for one outcome at one moment; a policy is a named way of turning that probability into a trade; a signal set is a frozen collection of signals whose outcomes are now known. The engine walks each policy through each set, prices every fill against the book that was recorded (or an assumed spread where none was), charges the venue's fee, and settles at the outcome that actually happened. Nothing is ordered, and the firm holds no positions.</p>"@
        + section_html("The number that decides"@, "annual return on locked capital, and why it is not cents per trade"@, Seq::empty(), notes_html(seq!["<b>A binary outcome token trades between 0 and 1, and selling one costs collateral.</b> Selling YES at 15c means receiving 15c and posting the other 85c until the market settles — so the money a trade ties up, not the cents it earns, is what the return has to be measured against."@, "<b>The formula.</b> Net profit ÷ (capital locked × days held) × 365. Three cents of edge on a 15c wing locks 85c for a few days; the same three cents on a 97c favourite locks 97c to earn it. Cents per trade calls those the same business. This does not (DESIGN.md §3)."@, "<b>It is a rate, not a fund result.</b> Multiply by the capital-used column to see what a bankroll would actually have earned — and where capital used exceeds 100%, the stated $1,000 bankroll could not have funded the policy at all."@, "<b>Capital used is reported beside it, always.</b> A policy earning 40% a year on 3% of the bankroll is a rounding error on the firm, and a matrix that hides that is lying by omission."@]), Seq::empty())
        + section_html("What a fill costs"@, "the simulator is conservative on purpose"@, Seq::empty(), notes_html(seq!["<b>Never at the midpoint.</b> A buy lifts the ask and a sell hits the bid. Where only a midpoint was recorded, an assumed 3c spread is applied symmetrically and the trade is marked synthetic — flagged, never celebrated (DESIGN.md §4)."@, "<b>Size is capped by the depth that was visible</b> within 5c of the touch. Below the minimum stake the signal is unfundable: counted and reported, never quietly dropped."@, ("<b>The venue's taker fee is charged per fill.</b> Polymarket has taken one since 2026-01-05 — <span class=\"mono\">shares × rate × p × (1 − p)</span>, by market category. It peaks at p = 0.50, which is exactly the band these policies target. Charged on entry, and again on an exit taken in the market; settling at resolution is a redemption, not a match, and costs nothing. In the engine's own words: <span class=\"mono\">"@ + escaped(model) + "</span>."@), "<b>Two policy versions exist for exactly one reason.</b> <span class=\"mono\">v1</span> charged no fee, which was wrong; <span class=\"mono\">v2</span> is identical in every other respect and charges the real one. v1 rows are kept only so earlier reports stay attributable, and a policy is never edited in place — a change means a new version file."@]), Seq::empty())
        + section_html("What we refuse to conclude"@, "the rules the engine holds itself to, and this page with it"@, Seq::empty(), notes_html(seq!["<b>Nothing below 30 trades is ranked.</b> The engine will not call a policy a winner or a loser on a smaller sample, and neither will this page. An underpowered row is shown and labelled, never quietly promoted (DESIGN.md §7)."@, "<b>Every signal set is one regime.</b> Each result is reported with its date span, and a span is a caveat, not a footnote."@, "<b>A policy that never fired has not been beaten.</b> Taking no trades is a finding about the policy and the data together; it is not evidence that the policy is bad."@, "<b>No real money is involved and none ever will be.</b> This is a measurement instrument that tells us which of our beliefs survive a spread, before anything is at stake (CONSTITUTION.md §5)."@]), "<div class=\"sec-foot\">"@ + "<span class=\"mono\">execution/DESIGN.md · execution/results/summary.csv</span><span><a href=\"/backtest?doc=summary\">The engine's full write-up →</a> · <a href=\"/backtest?doc=design\">The design and its accounting rules →</a></span>"@ + "</div>"@)
}

fn costed_model_exec(runs: &[Run]) -> (r: String)
    ensures
        r@ == costed_model(runs@),
{
    let mut i: usize = 0;
    while i < runs.len()
        invariant
            i <= runs@.len(),
            forall|j: int| 0 <= j < i ==> !#[trigger] costed(runs@)(j),
        decreases runs.len() - i,
    {
        let m = runs[i].fee_model.as_str();
        if !str_starts_with(m, "none") && !m.is_empty() {
            proof {
                lemma_first_index_is(runs@.len() as int, costed(runs@), i as int);
            }
            return owned(m);
        }
        i += 1;
    }
    proof {
        lemma_first_index_none(runs@.len() as int, costed(runs@));
    }
    String::new()
}

fn four_strings(a: &str, b: &str, c: &str, d: &str) -> (r: Vec<String>)
    ensures
        r@.map_values(|s: String| s@) == seq![a@, b@, c@, d@],
{
    let mut v: Vec<String> = Vec::new();
    v.push(owned(a));
    v.push(owned(b));
    v.push(owned(c));
    v.push(owned(d));
    proof {
        assert(v@.map_values(|s: String| s@) =~= seq![a@, b@, c@, d@]);
    }
    v
}

/// The method tab: the deciding metric, what a fill costs (quoting the
/// engine's own costed fee model), and what the page refuses to conclude.
pub fn method(runs: &[Run]) -> (r: String)
    ensures
        r@ == method_html(costed_model(runs@)),
{
    let model = costed_model_exec(runs);
    let ghost m = model@;
    let a = four_strings("<b>A binary outcome token trades between 0 and 1, and selling one costs collateral.</b> Selling YES at 15c means receiving 15c and posting the other 85c until the market settles — so the money a trade ties up, not the cents it earns, is what the return has to be measured against.", "<b>The formula.</b> Net profit ÷ (capital locked × days held) × 365. Three cents of edge on a 15c wing locks 85c for a few days; the same three cents on a 97c favourite locks 97c to earn it. Cents per trade calls those the same business. This does not (DESIGN.md §3).", "<b>It is a rate, not a fund result.</b> Multiply by the capital-used column to see what a bankroll would actually have earned — and where capital used exceeds 100%, the stated $1,000 bankroll could not have funded the policy at all.", "<b>Capital used is reported beside it, always.</b> A policy earning 40% a year on 3% of the bankroll is a rounding error on the firm, and a matrix that hides that is lying by omission.");
    let metric = section("The number that decides", "annual return on locked capital, and why it is not cents per trade", "", notes(&a).as_str());
    let mut fee = owned("<b>The venue's taker fee is charged per fill.</b> Polymarket has taken one since 2026-01-05 — <span class=\"mono\">shares × rate × p × (1 − p)</span>, by market category. It peaks at p = 0.50, which is exactly the band these policies target. Charged on entry, and again on an exit taken in the market; settling at resolution is a redemption, not a match, and costs nothing. In the engine's own words: <span class=\"mono\">");
    push_esc(&mut fee, model.as_str());
    fee.append("</span>.");
    let b = four_strings("<b>Never at the midpoint.</b> A buy lifts the ask and a sell hits the bid. Where only a midpoint was recorded, an assumed 3c spread is applied symmetrically and the trade is marked synthetic — flagged, never celebrated (DESIGN.md §4).", "<b>Size is capped by the depth that was visible</b> within 5c of the touch. Below the minimum stake the signal is unfundable: counted and reported, never quietly dropped.", fee.as_str(), "<b>Two policy versions exist for exactly one reason.</b> <span class=\"mono\">v1</span> charged no fee, which was wrong; <span class=\"mono\">v2</span> is identical in every other respect and charges the real one. v1 rows are kept only so earlier reports stay attributable, and a policy is never edited in place — a change means a new version file.");
    let fills = section("What a fill costs", "the simulator is conservative on purpose", "", notes(&b).as_str());
    let c = four_strings("<b>Nothing below 30 trades is ranked.</b> The engine will not call a policy a winner or a loser on a smaller sample, and neither will this page. An underpowered row is shown and labelled, never quietly promoted (DESIGN.md §7).", "<b>Every signal set is one regime.</b> Each result is reported with its date span, and a span is a caveat, not a footnote.", "<b>A policy that never fired has not been beaten.</b> Taking no trades is a finding about the policy and the data together; it is not evidence that the policy is bad.", "<b>No real money is involved and none ever will be.</b> This is a measurement instrument that tells us which of our beliefs survive a spread, before anything is at stake (CONSTITUTION.md §5).");
    let limits = section_foot("What we refuse to conclude", "the rules the engine holds itself to, and this page with it", "", notes(&c).as_str(), "<span class=\"mono\">execution/DESIGN.md · execution/results/summary.csv</span><span><a href=\"/backtest?doc=summary\">The engine's full write-up →</a> · <a href=\"/backtest?doc=design\">The design and its accounting rules →</a></span>");
    let mut out = owned("<p class=\"lede\">Everything on this page is a replay. A signal is a probability the firm published for one outcome at one moment; a policy is a named way of turning that probability into a trade; a signal set is a frozen collection of signals whose outcomes are now known. The engine walks each policy through each set, prices every fill against the book that was recorded (or an assumed spread where none was), charges the venue's fee, and settles at the outcome that actually happened. Nothing is ordered, and the firm holds no positions.</p>");
    out.append(metric.as_str());
    out.append(fills.as_str());
    out.append(limits.as_str());
    proof {
        reveal_strlit("");
        assert(out@ =~= method_html(m));
    }
    out
}

} // verus!
