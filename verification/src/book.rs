//! The paper book's page plumbing: its selection in the URL (percent-encoded
//! query values, the page address with a tab swapped), the tab bar, the
//! labels of plan actions, and the dates the page stamps.
use vstd::prelude::*;

use vstd::relations::sorted_by;
use vstd::utf8::{decode_utf8, encode_utf8};

use crate::data::{days_between, days_between_fits, days_between_of, VariantMeta};
use crate::dates::{civil_date, civil_from_days};
use crate::number::{dec, push_dec};
use crate::render::{
    badge, badge_html, concat, count, count_of, escaped, fmt_int, fmt_int_of, icon, icon_svg, join,
    push_esc, push_str, section_foot, section_html, status_tone_of, subbar,
};
use crate::repo::{is_safe_segment, safe_segment};
use crate::snapshots::{lemma_days_fit, push_padded, zero_pad};
use crate::sort::views;
use crate::table::{cell_of, Table};
use crate::text::{
    char_at_byte, char_index_of_byte, char_is, chars_of, find_char, first_index, is_ws, kept,
    lemma_first_index, lemma_first_index_is, lemma_first_index_none, lemma_last_index, owned,
    push_char, split_char, split_in, split_once, str_eq, string_of, trim, trim_end, trim_start,
    trim_window, win, wins, windows_ok, ws_pred, find_char_in,
};
use crate::sort::{
    lemma_lex_antisym, lemma_lex_total, lemma_lex_trans, lex_le, lex_le_exec, lex_lt, sort_strings,
    str_le,
};

verus! {

// ---------------------------------------------------------------------------
// Selection in the URL
// ---------------------------------------------------------------------------

/// The non-empty trimmed pieces of a comma-separated value.
pub open spec fn list_pieces(parts: Seq<Seq<char>>) -> Seq<Seq<char>>
    decreases parts.len(),
{
    if parts.len() == 0 {
        Seq::empty()
    } else if trim(parts.last()).len() > 0 {
        list_pieces(parts.drop_last()).push(trim(parts.last()))
    } else {
        list_pieces(parts.drop_last())
    }
}

/// `a, b,,c` → `a`, `b`, `c`.
pub fn split_list(v: &str) -> (r: Vec<String>)
    ensures
        views(r@) == list_pieces(split_char(v@, ',')),
{
    let s = chars_of(v);
    proof {
        assert(s@.subrange(0, s@.len() as int) =~= s@);
    }
    let parts = split_in(&s, 0, s.len(), ',');
    let ghost pv = wins(s@, parts@);
    let mut out: Vec<String> = Vec::new();
    let mut i: usize = 0;
    proof {
        assert(pv.take(0) =~= Seq::<Seq<char>>::empty());
        assert(views(out@) =~= Seq::<Seq<char>>::empty());
    }
    while i < parts.len()
        invariant
            i <= parts@.len(),
            windows_ok(s@, parts@),
            pv == wins(s@, parts@),
            views(out@) == list_pieces(pv.take(i as int)),
        decreases parts.len() - i,
    {
        let (x, y) = parts[i];
        proof {
            assert(parts@[i as int].0 <= parts@[i as int].1 <= s@.len());
            assert(pv[i as int] == win(s@, parts@[i as int]));
            assert(pv.take(i + 1).drop_last() =~= pv.take(i as int));
            assert(pv.take(i + 1).last() == pv[i as int]);
        }
        let (a, b) = trim_window(&s, x, y);
        if a < b {
            let t = string_of(&s, a, b);
            proof {
                assert(views(out@.push(t)) =~= views(out@).push(t@));
            }
            out.push(t);
        }
        i += 1;
    }
    proof {
        assert(pv.take(parts@.len() as int) =~= pv);
    }
    out
}

/// A `family/variant` key whose two halves are both safe path segments.
pub open spec fn is_variant_key(s: Seq<char>) -> bool {
    match split_once(s, '/') {
        Some((f, v)) => is_safe_segment(f) && is_safe_segment(v),
        None => false,
    }
}

pub fn valid_variant_key(s: &str) -> (r: bool)
    ensures
        r == is_variant_key(s@),
{
    let c = chars_of(s);
    let n = c.len();
    proof {
        assert(c@.subrange(0, n as int) =~= c@);
    }
    match find_char_in(&c, 0, n, '/') {
        Some(k) => {
            let f = string_of(&c, 0, k);
            let v = string_of(&c, k + 1, n);
            safe_segment(f.as_str()) && safe_segment(v.as_str())
        },
        None => false,
    }
}

/// The items of `s` that `ok` accepts, in order.
pub open spec fn keep(s: Seq<Seq<char>>, ok: spec_fn(Seq<char>) -> bool) -> Seq<Seq<char>>
    decreases s.len(),
{
    if s.len() == 0 {
        Seq::empty()
    } else if ok(s.last()) {
        keep(s.drop_last(), ok).push(s.last())
    } else {
        keep(s.drop_last(), ok)
    }
}

pub open spec fn variant_key_pred() -> spec_fn(Seq<char>) -> bool {
    |x: Seq<char>| is_variant_key(x)
}

pub open spec fn segment_pred() -> spec_fn(Seq<char>) -> bool {
    |x: Seq<char>| is_safe_segment(x)
}

/// What one query pair adds to a selection `(tab, strategies, markets,
/// policy)`: values are trimmed and blank ones ignored; `s` and `m` take
/// repeated and comma-joined values, keeping only valid keys and slugs; `p`
/// takes a safe file stem; later `tab` and `p` win.
pub open spec fn sel_step(
    acc: (Seq<char>, Seq<Seq<char>>, Seq<Seq<char>>, Seq<char>),
    k: Seq<char>,
    v: Seq<char>,
) -> (Seq<char>, Seq<Seq<char>>, Seq<Seq<char>>, Seq<char>) {
    let t = trim(v);
    if t.len() == 0 {
        acc
    } else if k == "tab"@ {
        (t, acc.1, acc.2, acc.3)
    } else if k == "s"@ {
        (acc.0, acc.1 + keep(list_pieces(split_char(t, ',')), variant_key_pred()), acc.2, acc.3)
    } else if k == "m"@ {
        (acc.0, acc.1, acc.2 + keep(list_pieces(split_char(t, ',')), segment_pred()), acc.3)
    } else if k == "p"@ && is_safe_segment(t) {
        (acc.0, acc.1, acc.2, t)
    } else {
        acc
    }
}

pub open spec fn sel_fold(ps: Seq<(Seq<char>, Seq<char>)>) -> (
    Seq<char>,
    Seq<Seq<char>>,
    Seq<Seq<char>>,
    Seq<char>,
)
    decreases ps.len(),
{
    if ps.len() == 0 {
        (Seq::empty(), Seq::empty(), Seq::empty(), Seq::empty())
    } else {
        sel_step(sel_fold(ps.drop_last()), ps.last().0, ps.last().1)
    }
}

/// Ascending with no repeats.
pub open spec fn strictly_sorted(s: Seq<Seq<char>>) -> bool {
    forall|a: int, b: int| 0 <= a < b < s.len() ==> lex_lt(#[trigger] s[a], #[trigger] s[b])
}

/// `s` holds exactly the distinct items of `raw`, ascending.
pub open spec fn sorted_set_of(s: Seq<Seq<char>>, raw: Seq<Seq<char>>) -> bool {
    &&& strictly_sorted(s)
    &&& forall|x: Seq<char>| s.contains(x) <==> raw.contains(x)
}

/// Sorted strings with repeats removed.
fn dedup_sorted(v: Vec<String>) -> (r: Vec<String>)
    requires
        sorted_by(views(v@), str_le()),
    ensures
        sorted_set_of(views(r@), views(v@)),
{
    let ghost vv = views(v@);
    let mut out: Vec<String> = Vec::new();
    let mut i: usize = 0;
    while i < v.len()
        invariant
            i <= v@.len(),
            vv == views(v@),
            sorted_by(vv, str_le()),
            strictly_sorted(views(out@)),
            forall|x: Seq<char>| views(out@).contains(x) <==> vv.take(i as int).contains(x),
            i > 0 ==> out@.len() > 0 && views(out@).last() == vv[i - 1],
            i == 0 ==> out@.len() == 0,
        decreases v.len() - i,
    {
        let ghost ov = views(out@);
        let x = &v[i];
        let fresh = if out.len() == 0 {
            true
        } else {
            !str_eq(out[out.len() - 1].as_str(), x.as_str())
        };
        proof {
            assert(vv[i as int] == x@);
            assert(vv.take(i + 1) =~= vv.take(i as int).push(x@));
        }
        if fresh {
            let ghost before = out@;
            out.push(owned(x.as_str()));
            proof {
                assert(views(out@) =~= ov.push(x@));
                if i > 0 {
                    let last = ov.last();
                    assert(str_le()(vv[i - 1], vv[i as int]));
                    assert(lex_lt(last, x@));
                    assert forall|a: int, b: int| 0 <= a < b < views(out@).len() implies lex_lt(
                        #[trigger] views(out@)[a],
                        #[trigger] views(out@)[b],
                    ) by {
                        if b == ov.len() {
                            if a < ov.len() - 1 {
                                assert(lex_lt(ov[a], last));
                                lemma_lex_trans(ov[a], last, x@);
                                if ov[a] == x@ {
                                    lemma_lex_antisym(last, x@);
                                }
                            }
                        } else {
                            assert(views(out@)[a] == ov[a]);
                            assert(views(out@)[b] == ov[b]);
                        }
                    }
                }
                assert forall|y: Seq<char>| views(out@).contains(y) <==> vv.take(i + 1).contains(
                    y,
                ) by {
                    if views(out@).contains(y) && y != x@ {
                        let j = choose|j: int| 0 <= j < views(out@).len() && #[trigger] views(out@)[j] == y;
                        assert(ov[j] == y);
                        assert(ov.contains(y));
                        assert(vv.take(i as int).contains(y));
                        let j2 = choose|j2: int| 0 <= j2 < i && #[trigger] vv.take(i as int)[j2] == y;
                        assert(vv.take(i + 1)[j2] == y);
                    }
                    if vv.take(i + 1).contains(y) && y != x@ {
                        let j = choose|j: int| 0 <= j < i + 1 && #[trigger] vv.take(i + 1)[j] == y;
                        assert(vv.take(i as int)[j] == y);
                        assert(vv.take(i as int).contains(y));
                        assert(ov.contains(y));
                        let k = choose|k: int| 0 <= k < ov.len() && #[trigger] ov[k] == y;
                        assert(views(out@)[k] == y);
                    }
                    if y == x@ {
                        assert(views(out@)[ov.len() as int] == y);
                        assert(vv.take(i + 1)[i as int] == y);
                    }
                }
            }
        } else {
            proof {
                assert forall|y: Seq<char>| views(out@).contains(y) <==> vv.take(i + 1).contains(
                    y,
                ) by {
                    if vv.take(i + 1).contains(y) && y != x@ {
                        let j = choose|j: int| 0 <= j < i + 1 && #[trigger] vv.take(i + 1)[j] == y;
                        assert(vv.take(i as int)[j] == y);
                    }
                    if y == x@ {
                        assert(views(out@)[ov.len() - 1] == y);
                    }
                }
            }
        }
        i += 1;
    }
    proof {
        assert(vv.take(v@.len() as int) =~= vv);
    }
    out
}

/// `raw` sorted, with repeats removed.
pub fn sorted_unique(raw: Vec<String>) -> (r: Vec<String>)
    ensures
        sorted_set_of(views(r@), views(raw@)),
{
    let ghost rv = views(raw@);
    let s = sort_strings(raw);
    let r = dedup_sorted(s);
    proof {
        broadcast use vstd::seq_lib::group_to_multiset_ensures;
        assert forall|x: Seq<char>| views(r@).contains(x) <==> rv.contains(x) by {
            assert(views(s@).contains(x) <==> views(s@).to_multiset().count(x) > 0);
            assert(rv.contains(x) <==> rv.to_multiset().count(x) > 0);
        }
    }
    r
}

/// Appends the pieces of `v` that `ok` accepts.
fn push_kept(out: &mut Vec<String>, v: &str, variant_keys: bool)
    ensures
        views(final(out)@) == views(old(out)@) + keep(
            list_pieces(split_char(v@, ',')),
            if variant_keys {
                variant_key_pred()
            } else {
                segment_pred()
            },
        ),
{
    let ghost ok = if variant_keys {
        variant_key_pred()
    } else {
        segment_pred()
    };
    let ghost start = views(out@);
    let pieces = split_list(v);
    let ghost pv = views(pieces@);
    let mut i: usize = 0;
    while i < pieces.len()
        invariant
            i <= pieces@.len(),
            pv == views(pieces@),
            ok == (if variant_keys {
                variant_key_pred()
            } else {
                segment_pred()
            }),
            views(out@) == start + keep(pv.take(i as int), ok),
        decreases pieces.len() - i,
    {
        let p = pieces[i].as_str();
        proof {
            assert(pv.take(i + 1).drop_last() =~= pv.take(i as int));
            assert(pv.take(i + 1).last() == p@);
        }
        let good = if variant_keys {
            valid_variant_key(p)
        } else {
            safe_segment(p)
        };
        if good {
            let ghost before = views(out@);
            out.push(owned(p));
            proof {
                assert(views(out@) =~= before.push(p@));
            }
        }
        i += 1;
    }
    proof {
        assert(pv.take(pieces@.len() as int) =~= pv);
    }
}

pub open spec fn pair_texts(ps: Seq<(String, String)>) -> Seq<(Seq<char>, Seq<char>)> {
    ps.map_values(|p: (String, String)| (p.0@, p.1@))
}

/// The selection a page's decoded query pairs describe, in order: the tab,
/// the valid `family/variant` keys and the safe market slugs (sorted, without
/// repeats), and the policy stem.
pub fn parse_sel(pairs: &Vec<(String, String)>) -> (r: Sel)
    ensures
        r.tab@ == sel_fold(pair_texts(pairs@)).0,
        sorted_set_of(views(r.strategies@), sel_fold(pair_texts(pairs@)).1),
        sorted_set_of(views(r.markets@), sel_fold(pair_texts(pairs@)).2),
        r.policy@ == sel_fold(pair_texts(pairs@)).3,
{
    let ghost ps = pair_texts(pairs@);
    let mut tab = String::new();
    let mut strategies: Vec<String> = Vec::new();
    let mut markets: Vec<String> = Vec::new();
    let mut policy = String::new();
    let mut i: usize = 0;
    while i < pairs.len()
        invariant
            i <= pairs@.len(),
            ps == pair_texts(pairs@),
            sel_fold(ps.take(i as int)) == (tab@, views(strategies@), views(markets@), policy@),
        decreases pairs.len() - i,
    {
        let k = pairs[i].0.as_str();
        let cs = chars_of(pairs[i].1.as_str());
        proof {
            assert(ps.take(i + 1).drop_last() =~= ps.take(i as int));
            assert(ps.take(i + 1).last() == ps[i as int]);
            assert(ps[i as int] == (pairs@[i as int].0@, pairs@[i as int].1@));
            assert(cs@.subrange(0, cs@.len() as int) =~= cs@);
        }
        let (a, b) = trim_window(&cs, 0, cs.len());
        let t = string_of(&cs, a, b);
        if a < b {
            if str_eq(k, "tab") {
                tab = t;
            } else if str_eq(k, "s") {
                push_kept(&mut strategies, t.as_str(), true);
            } else if str_eq(k, "m") {
                push_kept(&mut markets, t.as_str(), false);
            } else if str_eq(k, "p") && safe_segment(t.as_str()) {
                policy = t;
            }
        }
        i += 1;
    }
    proof {
        assert(ps.take(pairs@.len() as int) =~= ps);
    }
    Sel {
        tab,
        strategies: sorted_unique(strategies),
        markets: sorted_unique(markets),
        policy,
    }
}

/// The bytes that survive percent-encoding: ASCII letters, digits, `-`,
/// `_`, `.` and `~`.
pub open spec fn unreserved(b: u8) -> bool {
    (65 <= b <= 90) || (97 <= b <= 122) || (48 <= b <= 57) || b == 45 || b == 95 || b == 46
        || b == 126
}

pub open spec fn hex_upper(d: int) -> char {
    seq!['0', '1', '2', '3', '4', '5', '6', '7', '8', '9', 'A', 'B', 'C', 'D', 'E', 'F'][d]
}

pub open spec fn enc_byte(b: u8) -> Seq<char> {
    if unreserved(b) {
        seq![b as char]
    } else {
        seq!['%', hex_upper(b as int / 16), hex_upper(b as int % 16)]
    }
}

pub open spec fn enc_bytes(bs: Seq<u8>) -> Seq<char>
    decreases bs.len(),
{
    if bs.len() == 0 {
        Seq::empty()
    } else {
        enc_bytes(bs.drop_last()) + enc_byte(bs.last())
    }
}

/// Percent-encode one query value: every UTF-8 byte outside the unreserved
/// set becomes `%XX`, so a `family/variant` key round-trips through the URL.
pub fn enc(s: &str) -> (r: String)
    ensures
        r@ == enc_bytes(encode_utf8(s@)),
{
    let bytes = s.as_bytes();
    let digits = ['0', '1', '2', '3', '4', '5', '6', '7', '8', '9', 'A', 'B', 'C', 'D', 'E', 'F'];
    let mut out = String::new();
    let mut i: usize = 0;
    proof {
        assert(bytes@.take(0) =~= Seq::<u8>::empty());
    }
    while i < bytes.len()
        invariant
            i <= bytes@.len(),
            bytes@ == encode_utf8(s@),
            digits@ == seq!['0', '1', '2', '3', '4', '5', '6', '7', '8', '9', 'A', 'B', 'C', 'D', 'E', 'F'],
            out@ == enc_bytes(bytes@.take(i as int)),
        decreases bytes.len() - i,
    {
        let b = bytes[i];
        let ghost before = out@;
        let keep = (65 <= b && b <= 90) || (97 <= b && b <= 122) || (48 <= b && b <= 57) || b == 45
            || b == 95 || b == 46 || b == 126;
        if keep {
            push_char(&mut out, b as char);
        } else {
            push_char(&mut out, '%');
            push_char(&mut out, digits[(b / 16) as usize]);
            push_char(&mut out, digits[(b % 16) as usize]);
        }
        proof {
            assert(bytes@.take(i + 1).drop_last() =~= bytes@.take(i as int));
            assert(bytes@.take(i + 1).last() == b);
            assert(out@ =~= before + enc_byte(b));
        }
        i += 1;
    }
    proof {
        assert(bytes@.take(bytes@.len() as int) =~= bytes@);
    }
    out
}

/// What the paper book shows: a tab, the `family/variant` keys and market
/// slugs it is restricted to, and the policy file stem.
pub struct Sel {
    pub tab: String,
    pub strategies: Vec<String>,
    pub markets: Vec<String>,
    pub policy: String,
}

pub open spec fn prefixed(p: Seq<char>, vs: Seq<Seq<char>>) -> Seq<Seq<char>> {
    vs.map_values(|v: Seq<char>| p + enc_bytes(encode_utf8(v)))
}

/// The query parameters of the page with `tab` shown and the selection kept.
pub open spec fn sel_query(sel: Sel, tab: Seq<char>) -> Seq<Seq<char>> {
    (if tab.len() > 0 {
        seq!["tab="@ + enc_bytes(encode_utf8(tab))]
    } else {
        Seq::empty()
    }) + prefixed("s="@, views(sel.strategies@)) + prefixed("m="@, views(sel.markets@)) + (
    if sel.policy@.len() > 0 {
        seq!["p="@ + enc_bytes(encode_utf8(sel.policy@))]
    } else {
        Seq::empty()
    })
}

/// This page's address with `tab` swapped and everything else preserved.
pub open spec fn book_href(sel: Sel, tab: Seq<char>) -> Seq<char> {
    let q = sel_query(sel, tab);
    if q.len() == 0 {
        "/execution"@
    } else {
        "/execution?"@ + join(q, "&"@)
    }
}

/// `p` followed by the encoded `v`.
fn param(p: &str, v: &str) -> (r: String)
    ensures
        r@ == p@ + enc_bytes(encode_utf8(v@)),
{
    let mut out = owned(p);
    let e = enc(v);
    out.append(e.as_str());
    out
}

/// Appends `prefix` + the encoded value, for each value.
fn push_params(q: &mut Vec<String>, prefix: &str, vals: &Vec<String>)
    ensures
        views(final(q)@) == views(old(q)@) + prefixed(prefix@, views(vals@)),
{
    let ghost q0 = views(q@);
    let ghost vv = views(vals@);
    let mut i: usize = 0;
    proof {
        assert(prefixed(prefix@, vv.take(0)) =~= Seq::<Seq<char>>::empty());
        assert(views(q@) =~= q0 + prefixed(prefix@, vv.take(0)));
    }
    while i < vals.len()
        invariant
            i <= vals@.len(),
            vv == views(vals@),
            views(q@) == q0 + prefixed(prefix@, vv.take(i as int)),
        decreases vals.len() - i,
    {
        let x = param(prefix, vals[i].as_str());
        let ghost before = views(q@);
        q.push(x);
        proof {
            assert(vv[i as int] == vals@[i as int]@);
            assert(prefixed(prefix@, vv.take(i + 1)) =~= prefixed(prefix@, vv.take(i as int)).push(
                x@,
            ));
            assert(views(q@) =~= before.push(x@));
            assert(views(q@) =~= q0 + prefixed(prefix@, vv.take(i + 1)));
        }
        i += 1;
    }
    proof {
        assert(vv.take(vals@.len() as int) =~= vv);
    }
}

/// `base` followed by the parts joined with `&`.
fn push_joined(out: &mut String, q: &Vec<String>)
    requires
        q@.len() > 0,
    ensures
        final(out)@ == old(out)@ + join(views(q@), "&"@),
{
    let ghost head = out@;
    let ghost qv = views(q@);
    out.append(q[0].as_str());
    proof {
        assert(qv.take(1).drop_last() =~= Seq::<Seq<char>>::empty());
        assert(join(qv.take(1), "&"@) == qv[0]);
    }
    let mut k: usize = 1;
    while k < q.len()
        invariant
            1 <= k <= q@.len(),
            qv == views(q@),
            out@ == head + join(qv.take(k as int), "&"@),
        decreases q.len() - k,
    {
        out.append("&");
        out.append(q[k].as_str());
        proof {
            assert(qv.take(k + 1).drop_last() =~= qv.take(k as int));
            assert(qv.take(k + 1).last() == qv[k as int]);
        }
        k += 1;
    }
    proof {
        assert(qv.take(q@.len() as int) =~= qv);
    }
}

/// Switching tabs must never silently change what you are looking at.
pub fn href(sel: &Sel, tab: &str) -> (r: String)
    ensures
        r@ == book_href(*sel, tab@),
{
    let mut q: Vec<String> = Vec::new();
    if !tab.is_empty() {
        q.push(param("tab=", tab));
    }
    proof {
        assert(views(q@) =~= (if tab@.len() > 0 {
            seq!["tab="@ + enc_bytes(encode_utf8(tab@))]
        } else {
            Seq::<Seq<char>>::empty()
        }));
    }
    push_params(&mut q, "s=", &sel.strategies);
    push_params(&mut q, "m=", &sel.markets);
    let ghost q2 = views(q@);
    if !sel.policy.as_str().is_empty() {
        let x = param("p=", sel.policy.as_str());
        q.push(x);
        proof {
            assert(views(q@) =~= q2.push(x@));
        }
    }
    proof {
        assert(views(q@) =~= sel_query(*sel, tab@));
    }
    if q.len() == 0 {
        return owned("/execution");
    }
    let mut out = owned("/execution?");
    push_joined(&mut out, &q);
    out
}

/// One tab of the paper book's bar.
pub open spec fn book_tab(sel: Sel, key: Seq<char>, label: Seq<char>, count: Seq<char>) -> Seq<char> {
    let n = if count.len() == 0 {
        Seq::empty()
    } else {
        "<span class=\"tab-n\">"@ + escaped(count) + "</span>"@
    };
    "<a href=\""@ + escaped(book_href(sel, key)) + "\""@ + (if key == sel.tab@ {
        " aria-current=\"page\""@
    } else {
        Seq::empty()
    }) + ">"@ + escaped(label) + n + "</a>"@
}

fn push_book_tab(out: &mut String, sel: &Sel, key: &str, label: &str, count: &str)
    ensures
        final(out)@ == old(out)@ + book_tab(*sel, key@, label@, count@),
{
    let h = href(sel, key);
    let mut s = owned("<a href=\"");
    push_esc(&mut s, h.as_str());
    s.append("\"");
    if str_eq(key, sel.tab.as_str()) {
        s.append(" aria-current=\"page\"");
    }
    s.append(">");
    push_esc(&mut s, label);
    let ghost mid = s@;
    if !count.is_empty() {
        s.append("<span class=\"tab-n\">");
        push_esc(&mut s, count);
        s.append("</span>");
    }
    s.append("</a>");
    proof {
        if count@.len() == 0 {
            assert(s@ =~= mid + "</a>"@);
        }
        assert(s@ =~= book_tab(*sel, key@, label@, count@));
    }
    out.append(s.as_str());
}

/// The paper book's two tabs: holdings (with the open position count) and
/// the plan.
pub fn tabbar(sel: &Sel, open_positions: usize) -> (r: String)
    requires
        open_positions <= i64::MAX,
    ensures
        r@ == subbar(book_tab(*sel, Seq::empty(), "Holdings"@, fmt_int_of(open_positions as int))
            + book_tab(*sel, "plan"@, "Plan"@, Seq::empty())),
{
    let n = fmt_int(open_positions as i64);
    let mut links = String::new();
    push_book_tab(&mut links, sel, "", "Holdings", n.as_str());
    push_book_tab(&mut links, sel, "plan", "Plan", "");
    let mut out = owned(
        "<nav class=\"subbar\" aria-label=\"Sections of this page\"><div class=\"subbar-in\">",
    );
    out.append(links.as_str());
    out.append("</div></nav>");
    proof {
        reveal_strlit("");
        assert(""@ =~= Seq::<char>::empty());
        assert(links@ =~= book_tab(*sel, Seq::empty(), "Holdings"@, fmt_int_of(open_positions as int))
            + book_tab(*sel, "plan"@, "Plan"@, Seq::empty()));
    }
    out
}

// ---------------------------------------------------------------------------
// Labels
// ---------------------------------------------------------------------------

pub open spec fn paper_banner_html() -> Seq<char> {
    "<div class=\"banner\">"@ + icon_svg("alert"@)
        + " <div><strong>Paper book.</strong> No wallet, no order, no venue — the firm places no trades at all (CONSTITUTION.md §5). Every figure below is what we <em>would</em> hold if we had acted on our own signals, priced against real quotes.</div></div>"@
}

/// The paper label at the top of both tabs.
pub fn paper_banner() -> (r: String)
    ensures
        r@ == paper_banner_html(),
{
    let mut out = owned("<div class=\"banner\">");
    let ic = icon("alert");
    push_str(&mut out, &ic);
    out.append(
        " <div><strong>Paper book.</strong> No wallet, no order, no venue — the firm places no trades at all (CONSTITUTION.md §5). Every figure below is what we <em>would</em> hold if we had acted on our own signals, priced against real quotes.</div></div>",
    );
    out
}

/// Just the word, as a neutral badge.
pub fn side_badge(side: &str) -> (r: String)
    ensures
        r@ == badge_html(side@, Seq::empty()),
{
    proof {
        reveal_strlit("");
        assert(""@ =~= Seq::<char>::empty());
    }
    badge(side, "")
}

/// The mark of a plan action: `+` open, `~` resize, `−` close, `=` none.
pub open spec fn symbol_of(kind: Seq<char>) -> Seq<char> {
    if kind == "open"@ {
        "+"@
    } else if kind == "increase"@ || kind == "reduce"@ {
        "~"@
    } else if kind == "close"@ {
        "−"@
    } else {
        "="@
    }
}

pub fn symbol(kind: &str) -> (r: &'static str)
    ensures
        r@ == symbol_of(kind@),
{
    if str_eq(kind, "open") {
        "+"
    } else if str_eq(kind, "increase") || str_eq(kind, "reduce") {
        "~"
    } else if str_eq(kind, "close") {
        "−"
    } else {
        "="
    }
}

pub open spec fn symbol_tone_of(kind: Seq<char>) -> Seq<char> {
    if kind == "open"@ {
        "s-ok"@
    } else if kind == "increase"@ || kind == "reduce"@ {
        "s-warn"@
    } else if kind == "close"@ {
        "s-bad"@
    } else {
        "muted"@
    }
}

pub fn symbol_tone(kind: &str) -> (r: &'static str)
    ensures
        r@ == symbol_tone_of(kind@),
{
    if str_eq(kind, "open") {
        "s-ok"
    } else if str_eq(kind, "increase") || str_eq(kind, "reduce") {
        "s-warn"
    } else if str_eq(kind, "close") {
        "s-bad"
    } else {
        "muted"
    }
}

/// The order plan actions are listed in: open, increase, reduce, close, no
/// change, anything else.
pub open spec fn rank_of(kind: Seq<char>) -> u8 {
    if kind == "open"@ {
        0
    } else if kind == "increase"@ {
        1
    } else if kind == "reduce"@ {
        2
    } else if kind == "close"@ {
        3
    } else if kind == "no change"@ {
        4
    } else {
        5
    }
}

pub fn rank(kind: &str) -> (r: u8)
    ensures
        r == rank_of(kind@),
{
    if str_eq(kind, "open") {
        0
    } else if str_eq(kind, "increase") {
        1
    } else if str_eq(kind, "reduce") {
        2
    } else if str_eq(kind, "close") {
        3
    } else if str_eq(kind, "no change") {
        4
    } else {
        5
    }
}

pub open spec fn meta_is(metas: Seq<VariantMeta>, family: Seq<char>, variant: Seq<char>) -> spec_fn(
    int,
) -> bool {
    |i: int| metas[i].family@ == family && metas[i].variant@ == variant
}

/// Links to a position's family and variant, the variant's summary as its
/// tooltip; a dash when there is no family.
pub open spec fn strategy_links_of(
    family: Seq<char>,
    variant: Seq<char>,
    metas: Seq<VariantMeta>,
) -> Seq<char> {
    if family.len() == 0 {
        "<span class=\"muted\">—</span>"@
    } else if variant.len() == 0 {
        "<a href=\"/strategies/"@ + escaped(family) + "\">"@ + escaped(family) + "</a>"@
    } else {
        let title = match first_index(metas.len() as int, meta_is(metas, family, variant)) {
            Some(i) => " title=\""@ + escaped(metas[i].summary@) + "\""@,
            None => Seq::empty(),
        };
        "<a href=\"/strategies/"@ + escaped(family) + "\">"@ + escaped(family)
            + "</a><span class=\"muted\">/</span><a href=\"/strategies/"@ + escaped(family) + "/"@
            + escaped(variant) + "\""@ + title + ">"@ + escaped(variant) + "</a>"@
    }
}

pub fn strategy_links(family: &str, variant: &str, metas: &[VariantMeta]) -> (r: String)
    ensures
        r@ == strategy_links_of(family@, variant@, metas@),
{
    if family.is_empty() {
        return owned("<span class=\"muted\">—</span>");
    }
    if variant.is_empty() {
        let mut out = owned("<a href=\"/strategies/");
        push_esc(&mut out, family);
        out.append("\">");
        push_esc(&mut out, family);
        out.append("</a>");
        return out;
    }
    let ghost p = meta_is(metas@, family@, variant@);
    let mut i: usize = 0;
    while i < metas.len()
        invariant
            i <= metas@.len(),
            p == meta_is(metas@, family@, variant@),
            forall|j: int| 0 <= j < i ==> !#[trigger] p(j),
        ensures
            i <= metas@.len(),
            p == meta_is(metas@, family@, variant@),
            forall|j: int| 0 <= j < i ==> !#[trigger] p(j),
            i < metas@.len() ==> p(i as int),
        decreases metas.len() - i,
    {
        if str_eq(metas[i].family.as_str(), family) && str_eq(metas[i].variant.as_str(), variant) {
            break;
        }
        i += 1;
    }
    let mut title = String::new();
    if i < metas.len() {
        proof {
            lemma_first_index_is(metas@.len() as int, p, i as int);
        }
        title.append(" title=\"");
        push_esc(&mut title, metas[i].summary.as_str());
        title.append("\"");
    } else {
        proof {
            lemma_first_index_none(metas@.len() as int, p);
        }
    }
    let mut out = owned("<a href=\"/strategies/");
    push_esc(&mut out, family);
    out.append("\">");
    push_esc(&mut out, family);
    out.append("</a><span class=\"muted\">/</span><a href=\"/strategies/");
    push_esc(&mut out, family);
    out.append("/");
    push_esc(&mut out, variant);
    out.append("\"");
    out.append(title.as_str());
    out.append(">");
    push_esc(&mut out, variant);
    out.append("</a>");
    proof {
        assert(out@ =~= strategy_links_of(family@, variant@, metas@));
    }
    out
}

// ---------------------------------------------------------------------------
// Book tables
// ---------------------------------------------------------------------------

pub open spec fn slug_cells(t: Table) -> Seq<Seq<char>> {
    t.rows@.map_values(|r: Vec<String>| cell_of(views(t.head@), views(r@), "market_slug"@))
}

/// How many different markets the predictions cover.
pub fn distinct_markets(p: &Table) -> (r: usize)
    ensures
        r == slug_cells(*p).to_set().len(),
{
    let ghost cells = slug_cells(*p);
    let mut seen: Vec<String> = Vec::new();
    let mut i: usize = 0;
    proof {
        assert(views(seen@).to_set() =~= cells.take(0).to_set());
    }
    while i < p.rows.len()
        invariant
            i <= p.rows@.len(),
            cells == slug_cells(*p),
            views(seen@).no_duplicates(),
            views(seen@).to_set() == cells.take(i as int).to_set(),
        decreases p.rows.len() - i,
    {
        let c = p.cell(p.rows[i].as_slice(), "market_slug");
        proof {
            assert(cells[i as int] == c@);
        }
        let ghost sv = views(seen@);
        let mut k: usize = 0;
        while k < seen.len()
            invariant
                k <= seen@.len(),
                sv == views(seen@),
                forall|j: int| 0 <= j < k ==> sv[j] != c@,
            ensures
                k <= seen@.len(),
                sv == views(seen@),
                forall|j: int| 0 <= j < k ==> sv[j] != c@,
                k < seen@.len() ==> seen@[k as int]@ == c@,
            decreases seen.len() - k,
        {
            if str_eq(seen[k].as_str(), c) {
                break;
            }
            k += 1;
        }
        proof {
            if k < seen@.len() {
                assert(sv[k as int] == seen@[k as int]@);
            }
        }
        proof {
            assert(cells.take(i + 1) =~= cells.take(i as int).push(c@));
            cells.take(i as int).lemma_push_to_set_commute(c@);
        }
        if k == seen.len() {
            let o = owned(c);
            seen.push(o);
            proof {
                assert(views(seen@) =~= sv.push(c@));
                sv.lemma_push_to_set_commute(c@);
                assert(views(seen@).no_duplicates());
            }
        } else {
            proof {
                assert(sv[k as int] == c@);
                assert(sv.contains(c@));
                assert(sv.to_set().contains(c@));
                assert(sv.to_set().insert(c@) =~= sv.to_set());
            }
        }
        i += 1;
    }
    proof {
        assert(cells.take(p.rows@.len() as int) =~= cells);
        views(seen@).unique_seq_to_set();
    }
    seen.len()
}

pub open spec fn pred_matches(t: Table, r: Vec<String>, slug: Seq<char>, outcome: Seq<char>) -> bool {
    cell_of(views(t.head@), views(r@), "market_slug"@) == slug && cell_of(
        views(t.head@),
        views(r@),
        "outcome"@,
    ) == outcome
}

pub open spec fn pred_time(t: Table, r: Vec<String>) -> Seq<char> {
    cell_of(views(t.head@), views(r@), "timestamp"@)
}

/// Among the first `n` rows, the index of the prediction for the market
/// outcome with the greatest timestamp; the last such row on a tie.
pub open spec fn latest_in(t: Table, n: int, slug: Seq<char>, outcome: Seq<char>) -> Option<int>
    decreases n,
{
    if n <= 0 {
        None
    } else {
        let prev = latest_in(t, n - 1, slug, outcome);
        let r = t.rows@[n - 1];
        if pred_matches(t, r, slug, outcome) {
            match prev {
                Some(j) => if lex_le(pred_time(t, t.rows@[j]), pred_time(t, r)) {
                    Some(n - 1)
                } else {
                    Some(j)
                },
                None => Some(n - 1),
            }
        } else {
            prev
        }
    }
}

/// What `latest_pred` finds is the latest: a row for the market outcome
/// whose timestamp no other such row exceeds; nothing only when there is no
/// row for it.
pub proof fn law_latest_is_latest(t: Table, n: int, slug: Seq<char>, outcome: Seq<char>)
    requires
        0 <= n <= t.rows@.len(),
    ensures
        match latest_in(t, n, slug, outcome) {
            Some(i) => 0 <= i < n && pred_matches(t, t.rows@[i], slug, outcome) && forall|j: int|
                0 <= j < n && pred_matches(t, #[trigger] t.rows@[j], slug, outcome) ==> lex_le(
                    pred_time(t, t.rows@[j]),
                    pred_time(t, t.rows@[i]),
                ),
            None => forall|j: int|
                0 <= j < n ==> !pred_matches(t, #[trigger] t.rows@[j], slug, outcome),
        },
    decreases n,
{
    if n > 0 {
        law_latest_is_latest(t, n - 1, slug, outcome);
        let r = t.rows@[n - 1];
        if pred_matches(t, r, slug, outcome) {
            match latest_in(t, n - 1, slug, outcome) {
                Some(b) => {
                    lemma_lex_total(pred_time(t, t.rows@[b]), pred_time(t, r));
                    if lex_le(pred_time(t, t.rows@[b]), pred_time(t, r)) {
                        assert forall|j: int|
                            0 <= j < n && pred_matches(t, #[trigger] t.rows@[j], slug, outcome)
                                implies lex_le(pred_time(t, t.rows@[j]), pred_time(t, r)) by {
                            if j < n - 1 {
                                lemma_lex_trans(
                                    pred_time(t, t.rows@[j]),
                                    pred_time(t, t.rows@[b]),
                                    pred_time(t, r),
                                );
                            } else {
                                crate::sort::lemma_lex_refl(pred_time(t, r));
                            }
                        }
                    }
                },
                None => {
                    crate::sort::lemma_lex_refl(pred_time(t, r));
                },
            }
        }
    }
}

/// The most recent prediction row for one market outcome.
pub fn latest_pred<'a>(pr: &'a Table, slug: &str, outcome: &str) -> (r: Option<&'a Vec<String>>)
    ensures
        match r {
            Some(row) => latest_in(*pr, pr.rows@.len() as int, slug@, outcome@) matches Some(i)
                && 0 <= i < pr.rows@.len() && *row == pr.rows@[i],
            None => latest_in(*pr, pr.rows@.len() as int, slug@, outcome@) is None,
        },
{
    let mut best: Option<usize> = None;
    let mut i: usize = 0;
    while i < pr.rows.len()
        invariant
            i <= pr.rows@.len(),
            match best {
                Some(j) => latest_in(*pr, i as int, slug@, outcome@) == Some(j as int) && j < i,
                None => latest_in(*pr, i as int, slug@, outcome@) is None,
            },
        decreases pr.rows.len() - i,
    {
        let row = pr.rows[i].as_slice();
        let m = str_eq(pr.cell(row, "market_slug"), slug) && str_eq(pr.cell(row, "outcome"), outcome);
        if m {
            match best {
                Some(j) => {
                    let a = chars_of(pr.cell(pr.rows[j].as_slice(), "timestamp"));
                    let b = chars_of(pr.cell(row, "timestamp"));
                    if lex_le_exec(&a, &b) {
                        best = Some(i);
                    }
                },
                None => {
                    best = Some(i);
                },
            }
        }
        i += 1;
    }
    match best {
        Some(j) => Some(&pr.rows[j]),
        None => None,
    }
}

// ---------------------------------------------------------------------------
// Dates the page stamps
// ---------------------------------------------------------------------------

/// `t.div_euclid(86_400_000)` and `t.rem_euclid(86_400_000)`.
fn split_day(t: i64) -> (r: (i64, i64))
    ensures
        r.0 == (t as int) / 86_400_000,
        r.1 == (t as int) % 86_400_000,
{
    let q = if t >= 0 {
        t / 86_400_000
    } else {
        -((-(t + 1)) / 86_400_000) - 1
    };
    proof {
        if t < 0 {
            let u = -(t + 1);
            assert(q == (t as int) / 86_400_000) by (nonlinear_arith)
                requires
                    u >= 0,
                    t == -u - 1,
                    q == -(u / 86_400_000) - 1,
            ;
        }
    }
    let r = if t >= 0 {
        t % 86_400_000
    } else {
        let u = -(t + 1);
        86_399_999 - u % 86_400_000
    };
    proof {
        if t < 0 {
            let u = -(t + 1);
            assert(r == (t as int) % 86_400_000) by (nonlinear_arith)
                requires
                    u >= 0,
                    t == -u - 1,
                    r == 86_399_999 - u % 86_400_000,
            ;
        }
    }
    (q, r)
}

/// A year the way `{:04}` prints it: four digits at least, the sign counted
/// in the width.
pub open spec fn year_str(y: int) -> Seq<char> {
    if y >= 0 {
        zero_pad(dec(y as nat), 4)
    } else {
        "-"@ + zero_pad(dec((-y) as nat), 3)
    }
}

/// `YYYY-MM-DD` of the day that holds the instant `ms` (UTC).
pub open spec fn day_of_ms(ms: int) -> Seq<char> {
    let (y, m, d) = civil_date(ms / 86_400_000);
    year_str(y) + "-"@ + zero_pad(dec(m as nat), 2) + "-"@ + zero_pad(dec(d as nat), 2)
}

fn push_day(out: &mut String, ms: i64)
    ensures
        final(out)@ == old(out)@ + day_of_ms(ms as int),
{
    let (days, _) = split_day(ms);
    proof {
        assert(-1_000_000_000_000 <= days as int <= 1_000_000_000_000) by (nonlinear_arith)
            requires
                days == (ms as int) / 86_400_000,
                i64::MIN <= ms <= i64::MAX,
        ;
        lemma_days_fit(days as int);
        crate::dates::lemma_cfd_ranges(days as int);
    }
    let (y, mo, d) = civil_from_days(days);
    if y >= 0 {
        push_padded(out, y as u64, 4);
    } else {
        out.append("-");
        push_padded(out, (-y) as u64, 3);
    }
    out.append("-");
    push_padded(out, mo as u64, 2);
    out.append("-");
    push_padded(out, d as u64, 2);
    proof {
        assert(final(out)@ =~= old(out)@ + day_of_ms(ms as int));
    }
}

/// Today's date (UTC) at the instant `now_ms`.
pub fn today_utc(now_ms: i64) -> (r: String)
    ensures
        r@ == day_of_ms(now_ms as int),
{
    let mut out = String::new();
    push_day(&mut out, now_ms);
    proof {
        assert(out@ =~= day_of_ms(now_ms as int));
    }
    out
}

/// `YYYY-MM-DDTHH:MM:SSZ` of the instant `ms` (UTC).
pub open spec fn iso_of_ms(ms: int) -> Seq<char> {
    let secs = (ms % 86_400_000) / 1000;
    day_of_ms(ms) + "T"@ + zero_pad(dec((secs / 3600) as nat), 2) + ":"@ + zero_pad(
        dec(((secs % 3600) / 60) as nat),
        2,
    ) + ":"@ + zero_pad(dec((secs % 60) as nat), 2) + "Z"@
}

/// The instant `now_ms` as the `applied_at` stamp of the ledger rows.
pub fn now_iso(now_ms: i64) -> (r: String)
    ensures
        r@ == iso_of_ms(now_ms as int),
{
    let mut out = String::new();
    push_day(&mut out, now_ms);
    let (_, rem) = split_day(now_ms);
    let secs = rem / 1000;
    out.append("T");
    push_padded(&mut out, (secs / 3600) as u64, 2);
    out.append(":");
    push_padded(&mut out, ((secs % 3600) / 60) as u64, 2);
    out.append(":");
    push_padded(&mut out, (secs % 60) as u64, 2);
    out.append("Z");
    proof {
        assert(out@ =~= iso_of_ms(now_ms as int));
    }
    out
}

/// The first ten bytes of `s`, or all of it when it has no character
/// boundary there.
pub open spec fn first_ten(s: Seq<char>) -> Seq<char> {
    match char_at_byte(s, 10) {
        Some(k) => s.take(k),
        None => s,
    }
}

/// Whole days a position opened at `opened_at` has been held on `today`
/// (0 when it opened today, or when either date does not read).
pub open spec fn days_held_of(opened_at: Seq<char>, today: Seq<char>) -> int {
    match days_between_of(first_ten(opened_at), today) {
        Some(v) => if v > 0 {
            v
        } else {
            0
        },
        None => 0,
    }
}

pub fn days_held(opened_at: &str, today: &str) -> (r: i64)
    requires
        days_between_fits(first_ten(opened_at@), today@),
    ensures
        r == days_held_of(opened_at@, today@),
{
    let s = chars_of(opened_at);
    let n = s.len();
    proof {
        assert(s@.subrange(0, n as int) =~= s@);
    }
    let from = match char_index_of_byte(&s, 0, n, 10) {
        Some(k) => {
            proof {
                assert(s@.take(k as int) =~= s@.subrange(0, k as int));
            }
            string_of(&s, 0, k)
        },
        None => owned(opened_at),
    };
    match days_between(from.as_str(), today) {
        Some(v) => if v > 0 {
            v
        } else {
            0
        },
        None => 0,
    }
}

/// A character a percent-encoded value may hold: an unreserved character, or
/// `%` and the hex digits of an escape.
pub open spec fn url_value_char(c: char) -> bool {
    ('A' <= c <= 'Z') || ('a' <= c <= 'z') || ('0' <= c <= '9') || c == '-' || c == '_' || c == '.'
        || c == '~' || c == '%'
}

/// An encoded value never holds a character with a meaning of its own in a
/// query (`&`, `=`, `?`, `#`, `/`, `+`, a space): a `family/variant` key
/// stays one value.
pub proof fn law_enc_is_one_value(bs: Seq<u8>)
    ensures
        forall|i: int| 0 <= i < enc_bytes(bs).len() ==> url_value_char(#[trigger] enc_bytes(bs)[i]),
    decreases bs.len(),
{
    if bs.len() > 0 {
        law_enc_is_one_value(bs.drop_last());
        let a = enc_bytes(bs.drop_last());
        let b = enc_byte(bs.last());
        let x = bs.last();
        assert forall|i: int| 0 <= i < b.len() implies url_value_char(#[trigger] b[i]) by {
            if unreserved(x) {
                assert(b[i] == (x as char));
            } else {
                assert(x as int / 16 < 16 && x as int % 16 < 16);
            }
        }
        assert forall|i: int| 0 <= i < (a + b).len() implies url_value_char(#[trigger] (a + b)[i]) by {
            if i < a.len() {
                assert((a + b)[i] == a[i]);
            } else {
                assert((a + b)[i] == b[i - a.len()]);
            }
        }
    }
}

/// The value of a hex digit (either case); 0 for anything else.
pub open spec fn hex_val(c: char) -> int {
    if '0' <= c <= '9' {
        c as int - '0' as int
    } else if 'A' <= c <= 'F' {
        c as int - 'A' as int + 10
    } else if 'a' <= c <= 'f' {
        c as int - 'a' as int + 10
    } else {
        0
    }
}

/// Percent-decoding: `%XX` is the byte `XX`, any other character is its own
/// byte.
pub open spec fn pct_decode(cs: Seq<char>) -> Seq<u8>
    decreases cs.len(),
{
    if cs.len() == 0 {
        Seq::empty()
    } else if cs[0] == '%' && cs.len() >= 3 {
        seq![(hex_val(cs[1]) * 16 + hex_val(cs[2])) as u8] + pct_decode(cs.skip(3))
    } else {
        seq![cs[0] as u8] + pct_decode(cs.skip(1))
    }
}

proof fn lemma_hex_digit(d: int)
    requires
        0 <= d < 16,
    ensures
        hex_val(hex_upper(d)) == d,
{
    let t = seq!['0', '1', '2', '3', '4', '5', '6', '7', '8', '9', 'A', 'B', 'C', 'D', 'E', 'F'];
    assert(hex_upper(d) == t[d]);
}

proof fn lemma_enc_bytes_append(a: Seq<u8>, b: Seq<u8>)
    ensures
        enc_bytes(a + b) == enc_bytes(a) + enc_bytes(b),
    decreases b.len(),
{
    if b.len() == 0 {
        assert(a + b =~= a);
        assert(enc_bytes(a) + enc_bytes(b) =~= enc_bytes(a));
    } else {
        lemma_enc_bytes_append(a, b.drop_last());
        assert((a + b).drop_last() =~= a + b.drop_last());
        assert((a + b).last() == b.last());
    }
}

proof fn lemma_decode_enc_byte(x: u8, rest: Seq<char>)
    ensures
        pct_decode(enc_byte(x) + rest) == seq![x] + pct_decode(rest),
{
    let e = enc_byte(x) + rest;
    if unreserved(x) {
        assert(e[0] == x as char);
        assert(e.skip(1) =~= rest);
        assert((x as char) as u8 == x);
    } else {
        lemma_hex_digit(x as int / 16);
        lemma_hex_digit(x as int % 16);
        assert(e[0] == '%');
        assert(e.skip(3) =~= rest);
        assert(x as int == (x as int / 16) * 16 + x as int % 16);
    }
}

/// Percent-decoding undoes `enc_bytes`.
proof fn lemma_decode_enc(bs: Seq<u8>)
    ensures
        pct_decode(enc_bytes(bs)) == bs,
    decreases bs.len(),
{
    if bs.len() > 0 {
        let first = seq![bs[0]];
        let rest = bs.skip(1);
        assert(bs =~= first + rest);
        lemma_enc_bytes_append(first, rest);
        assert(first.drop_last() =~= Seq::<u8>::empty());
        assert(first.last() == bs[0]);
        assert(enc_bytes(Seq::<u8>::empty()) == Seq::<char>::empty());
        assert(enc_bytes(first) == enc_bytes(first.drop_last()) + enc_byte(first.last()));
        assert(enc_bytes(first) =~= enc_byte(bs[0]));
        lemma_decode_enc_byte(bs[0], enc_bytes(rest));
        lemma_decode_enc(rest);
    }
}

/// A value round-trips through the address: decoding the percent escapes
/// of `enc`'s output and reading the bytes as UTF-8 gives the value back.
pub proof fn law_enc_round_trips(s: Seq<char>)
    ensures
        decode_utf8(pct_decode(enc_bytes(encode_utf8(s)))) == s,
{
    lemma_decode_enc(encode_utf8(s));
    vstd::utf8::encode_utf8_decode_utf8(s);
}

/// The query parameters other than the tab.
pub open spec fn selection_params(sel: Sel, tab: Seq<char>) -> Seq<Seq<char>> {
    if tab.len() > 0 {
        sel_query(sel, tab).skip(1)
    } else {
        sel_query(sel, tab)
    }
}

/// Switching tabs never changes what is being looked at: apart from the
/// tab itself, the address of every tab carries the same parameters.
pub proof fn law_tabs_keep_selection(sel: Sel, t1: Seq<char>, t2: Seq<char>)
    ensures
        selection_params(sel, t1) == selection_params(sel, t2),
{
}

// ---------------------------------------------------------------------------
// Reading a selection back from its address
// ---------------------------------------------------------------------------

/// The query pairs, before encoding, that the address of `sel` with `tab`
/// shown carries, in order.
pub open spec fn sel_pairs(sel: Sel, tab: Seq<char>) -> Seq<(Seq<char>, Seq<char>)> {
    (if tab.len() > 0 {
        seq![("tab"@, tab)]
    } else {
        Seq::empty()
    }) + views(sel.strategies@).map_values(|s: Seq<char>| ("s"@, s)) + views(
        sel.markets@,
    ).map_values(|m: Seq<char>| ("m"@, m)) + (if sel.policy@.len() > 0 {
        seq![("p"@, sel.policy@)]
    } else {
        Seq::empty()
    })
}

pub open spec fn encoded_pair(p: (Seq<char>, Seq<char>)) -> Seq<char> {
    p.0 + "="@ + enc_bytes(encode_utf8(p.1))
}

/// A selection as the page itself produces one: a trimmed tab, distinct
/// valid strategy keys and safe market slugs in ascending order, and a safe
/// policy stem or none.
pub open spec fn normal_sel(sel: Sel, tab: Seq<char>) -> bool {
    &&& trim(tab) == tab
    &&& strictly_sorted(views(sel.strategies@))
    &&& forall|i: int|
        0 <= i < sel.strategies@.len() ==> is_variant_key(#[trigger] sel.strategies@[i]@)
    &&& strictly_sorted(views(sel.markets@))
    &&& forall|i: int| 0 <= i < sel.markets@.len() ==> is_safe_segment(#[trigger] sel.markets@[i]@)
    &&& (sel.policy@.len() == 0 || is_safe_segment(sel.policy@))
}

/// One value that needs no trimming and holds no comma.
pub open spec fn plain_value(s: Seq<char>) -> bool {
    &&& s.len() > 0
    &&& forall|j: int| 0 <= j < s.len() ==> !is_ws(#[trigger] s[j]) && s[j] != ','
}

proof fn lemma_segment_plain(s: Seq<char>)
    requires
        is_safe_segment(s),
    ensures
        plain_value(s),
{
}

proof fn lemma_key_plain(s: Seq<char>)
    requires
        is_variant_key(s),
    ensures
        plain_value(s),
{
    lemma_first_index(s.len() as int, char_is(s, '/'));
    let i = find_char(s, '/')->0;
    let f = s.subrange(0, i);
    let v = s.subrange(i + 1, s.len() as int);
    assert forall|j: int| 0 <= j < s.len() implies !is_ws(#[trigger] s[j]) && s[j] != ',' by {
        if j < i {
            assert(f[j] == s[j]);
        } else if j > i {
            assert(v[j - i - 1] == s[j]);
        }
    }
}

proof fn lemma_plain_trim(s: Seq<char>)
    requires
        plain_value(s),
    ensures
        trim(s) == s,
{
    lemma_first_index_is(s.len() as int, kept(s, ws_pred()), 0);
    assert(trim_start(s) =~= s);
    lemma_last_index(s.len() as int, kept(s, ws_pred()));
    assert(kept(s, ws_pred())(s.len() - 1));
    assert(trim_end(s) =~= s);
}

proof fn lemma_plain_one_piece(s: Seq<char>)
    requires
        plain_value(s),
    ensures
        list_pieces(split_char(s, ',')) == seq![s],
{
    lemma_first_index(s.len() as int, char_is(s, ','));
    assert(split_char(s, ',') == seq![s]);
    lemma_plain_trim(s);
    let one = seq![s];
    assert(one.drop_last() =~= Seq::<Seq<char>>::empty());
    assert(one.last() == s);
    assert(list_pieces(Seq::<Seq<char>>::empty()) == Seq::<Seq<char>>::empty());
    assert(list_pieces(one) == list_pieces(one.drop_last()).push(s));
    assert(list_pieces(one) =~= Seq::<Seq<char>>::empty().push(s));
}

proof fn lemma_fold_push(ps: Seq<(Seq<char>, Seq<char>)>, p: (Seq<char>, Seq<char>))
    ensures
        sel_fold(ps.push(p)) == sel_step(sel_fold(ps), p.0, p.1),
{
    assert(ps.push(p).drop_last() =~= ps);
}

proof fn lemma_fold_values(
    pre: Seq<(Seq<char>, Seq<char>)>,
    key: Seq<char>,
    vs: Seq<Seq<char>>,
    variant_keys: bool,
)
    requires
        key == (if variant_keys {
            "s"@
        } else {
            "m"@
        }),
        forall|i: int|
            0 <= i < vs.len() ==> if variant_keys {
                is_variant_key(#[trigger] vs[i])
            } else {
                is_safe_segment(vs[i])
            },
    ensures
        ({
            let a = sel_fold(pre);
            let b = sel_fold(pre + vs.map_values(|v: Seq<char>| (key, v)));
            &&& b.0 == a.0
            &&& b.3 == a.3
            &&& variant_keys ==> b.1 == a.1 + vs && b.2 == a.2
            &&& !variant_keys ==> b.2 == a.2 + vs && b.1 == a.1
        }),
    decreases vs.len(),
{
    reveal_strlit("s");
    reveal_strlit("m");
    reveal_strlit("tab");
    assert("s"@.len() == 1 && "s"@[0] == 's');
    assert("m"@.len() == 1 && "m"@[0] == 'm');
    assert("tab"@.len() == 3);
    if vs.len() == 0 {
        assert(pre + vs.map_values(|v: Seq<char>| (key, v)) =~= pre);
        assert(sel_fold(pre).1 + vs =~= sel_fold(pre).1);
        assert(sel_fold(pre).2 + vs =~= sel_fold(pre).2);
    } else {
        let init = vs.drop_last();
        let x = vs.last();
        lemma_fold_values(pre, key, init, variant_keys);
        let ps = pre + init.map_values(|v: Seq<char>| (key, v));
        assert(pre + vs.map_values(|v: Seq<char>| (key, v)) =~= ps.push((key, x)));
        lemma_fold_push(ps, (key, x));
        if variant_keys {
            lemma_key_plain(x);
        } else {
            lemma_segment_plain(x);
        }
        lemma_plain_trim(x);
        lemma_plain_one_piece(x);
        let ok = if variant_keys {
            variant_key_pred()
        } else {
            segment_pred()
        };
        assert(vs[vs.len() - 1] == x);
        assert(ok(x));
        let one = seq![x];
        assert(one.drop_last() =~= Seq::<Seq<char>>::empty());
        assert(one.last() == x);
        assert(keep(Seq::<Seq<char>>::empty(), ok) == Seq::<Seq<char>>::empty());
        assert(keep(one, ok) == keep(one.drop_last(), ok).push(x));
        assert(keep(one, ok) =~= Seq::<Seq<char>>::empty().push(x));
        let a = sel_fold(pre);
        let m = sel_fold(ps);
        assert(trim(x) == x);
        assert(x.len() > 0);
        if variant_keys {
            assert(key == "s"@);
            assert(key != "tab"@);
            assert(sel_step(m, key, x) == (m.0, m.1 + seq![x], m.2, m.3));
            assert(m.1 + seq![x] =~= a.1 + vs);
        } else {
            assert(key == "m"@);
            assert(key != "tab"@ && key != "s"@);
            assert(sel_step(m, key, x) == (m.0, m.1, m.2 + seq![x], m.3));
            assert(m.2 + seq![x] =~= a.2 + vs);
        }
    }
}

/// Two ascending lists without repeats that hold the same items are equal.
proof fn lemma_sorted_set_unique(a: Seq<Seq<char>>, b: Seq<Seq<char>>)
    requires
        strictly_sorted(a),
        strictly_sorted(b),
        forall|x: Seq<char>| a.contains(x) <==> b.contains(x),
    ensures
        a == b,
    decreases a.len() + b.len(),
{
    if a.len() == 0 || b.len() == 0 {
        if a.len() > 0 {
            assert(a.contains(a[0]));
        }
        if b.len() > 0 {
            assert(b.contains(b[0]));
        }
        assert(a =~= b);
    } else {
        let x = a.last();
        let y = b.last();
        assert(a.contains(x));
        assert(b.contains(y));
        let i = choose|i: int| 0 <= i < b.len() && b[i] == x;
        let j = choose|j: int| 0 <= j < a.len() && a[j] == y;
        if i < b.len() - 1 {
            assert(lex_lt(b[i], b[b.len() - 1]));
        }
        if j < a.len() - 1 {
            assert(lex_lt(a[j], a[a.len() - 1]));
        }
        if x != y {
            assert(lex_le(x, y));
            assert(lex_le(y, x));
            lemma_lex_antisym(x, y);
        }
        let a2 = a.drop_last();
        let b2 = b.drop_last();
        assert forall|z: Seq<char>| a2.contains(z) <==> b2.contains(z) by {
            if a2.contains(z) {
                let k = choose|k: int| 0 <= k < a2.len() && a2[k] == z;
                assert(lex_lt(a[k], a[a.len() - 1]));
                assert(a.contains(z));
                let k2 = choose|k2: int| 0 <= k2 < b.len() && b[k2] == z;
                assert(k2 != b.len() - 1);
                assert(b2[k2] == z);
            }
            if b2.contains(z) {
                let k = choose|k: int| 0 <= k < b2.len() && b2[k] == z;
                assert(lex_lt(b[k], b[b.len() - 1]));
                assert(b.contains(z));
                let k2 = choose|k2: int| 0 <= k2 < a.len() && a[k2] == z;
                assert(k2 != a.len() - 1);
                assert(a2[k2] == z);
            }
        }
        assert forall|p: int, q: int| 0 <= p < q < a2.len() implies lex_lt(#[trigger] a2[p], #[trigger] a2[q]) by {
            assert(a2[p] == a[p] && a2[q] == a[q]);
        }
        assert forall|p: int, q: int| 0 <= p < q < b2.len() implies lex_lt(#[trigger] b2[p], #[trigger] b2[q]) by {
            assert(b2[p] == b[p] && b2[q] == b[q]);
        }
        lemma_sorted_set_unique(a2, b2);
        assert(a =~= a2.push(x));
        assert(b =~= b2.push(y));
    }
}

/// The address of `sel` is its pairs, encoded, in order.
proof fn lemma_query_is_pairs(sel: Sel, tab: Seq<char>)
    ensures
        sel_query(sel, tab) == sel_pairs(sel, tab).map_values(
            |p: (Seq<char>, Seq<char>)| encoded_pair(p),
        ),
{
    reveal_strlit("=");
    reveal_strlit("tab=");
    reveal_strlit("s=");
    reveal_strlit("m=");
    reveal_strlit("p=");
    reveal_strlit("tab");
    reveal_strlit("s");
    reveal_strlit("m");
    reveal_strlit("p");
    assert("s"@ + "="@ =~= "s="@);
    assert("m"@ + "="@ =~= "m="@);
    assert("tab"@ + "="@ =~= "tab="@);
    assert("p"@ + "="@ =~= "p="@);
    let st = views(sel.strategies@);
    let mk = views(sel.markets@);
    let head: Seq<(Seq<char>, Seq<char>)> = if tab.len() > 0 {
        seq![("tab"@, tab)]
    } else {
        Seq::empty()
    };
    let tail: Seq<(Seq<char>, Seq<char>)> = if sel.policy@.len() > 0 {
        seq![("p"@, sel.policy@)]
    } else {
        Seq::empty()
    };
    let sp = st.map_values(|s: Seq<char>| ("s"@, s));
    let mp = mk.map_values(|m: Seq<char>| ("m"@, m));
    assert(sel_pairs(sel, tab) == head + sp + mp + tail);
    let enc_all = |p: (Seq<char>, Seq<char>)| encoded_pair(p);
    assert((head + sp + mp + tail).map_values(enc_all) =~= head.map_values(enc_all) + sp.map_values(
        enc_all,
    ) + mp.map_values(enc_all) + tail.map_values(enc_all));
    assert(sp.map_values(enc_all) =~= prefixed("s="@, st));
    assert(mp.map_values(enc_all) =~= prefixed("m="@, mk));
    if tab.len() > 0 {
        assert(head.map_values(enc_all) =~= seq!["tab="@ + enc_bytes(encode_utf8(tab))]);
    } else {
        assert(head.map_values(enc_all) =~= Seq::<Seq<char>>::empty());
    }
    if sel.policy@.len() > 0 {
        assert(tail.map_values(enc_all) =~= seq!["p="@ + enc_bytes(encode_utf8(sel.policy@))]);
    } else {
        assert(tail.map_values(enc_all) =~= Seq::<Seq<char>>::empty());
    }
}

/// Reading the pairs of a selection the page produced gives it back.
proof fn lemma_pairs_read_back(sel: Sel, tab: Seq<char>)
    requires
        normal_sel(sel, tab),
    ensures
        sel_fold(sel_pairs(sel, tab)) == (tab, views(sel.strategies@), views(sel.markets@), sel.policy@),
{
    reveal_strlit("tab");
    reveal_strlit("s");
    reveal_strlit("m");
    reveal_strlit("p");
    assert("tab"@.len() == 3 && "p"@.len() == 1);
    assert("s"@.len() == 1 && "s"@[0] == 's');
    assert("m"@.len() == 1 && "m"@[0] == 'm');
    assert("p"@[0] == 'p');
    let st = views(sel.strategies@);
    let mk = views(sel.markets@);
    let head: Seq<(Seq<char>, Seq<char>)> = if tab.len() > 0 {
        seq![("tab"@, tab)]
    } else {
        Seq::empty()
    };
    let tail: Seq<(Seq<char>, Seq<char>)> = if sel.policy@.len() > 0 {
        seq![("p"@, sel.policy@)]
    } else {
        Seq::empty()
    };
    let sp = st.map_values(|s: Seq<char>| ("s"@, s));
    let mp = mk.map_values(|m: Seq<char>| ("m"@, m));
    assert(sel_pairs(sel, tab) == head + sp + mp + tail);
    let e0 = Seq::<Seq<char>>::empty();
    if tab.len() > 0 {
        lemma_fold_push(Seq::empty(), ("tab"@, tab));
        assert(Seq::<(Seq<char>, Seq<char>)>::empty().push(("tab"@, tab)) =~= head);
        assert(sel_fold(head) == (tab, e0, e0, Seq::<char>::empty()));
    } else {
        assert(head =~= Seq::<(Seq<char>, Seq<char>)>::empty());
        assert(sel_fold(head) == (tab, e0, e0, Seq::<char>::empty()));
    }
    assert forall|i: int| 0 <= i < st.len() implies is_variant_key(#[trigger] st[i]) by {
        assert(st[i] == sel.strategies@[i]@);
    }
    assert forall|i: int| 0 <= i < mk.len() implies is_safe_segment(#[trigger] mk[i]) by {
        assert(mk[i] == sel.markets@[i]@);
    }
    lemma_fold_values(head, "s"@, st, true);
    lemma_fold_values(head + sp, "m"@, mk, false);
    assert(e0 + st =~= st);
    assert(e0 + mk =~= mk);
    assert(sel_fold(head + sp + mp) == (tab, st, mk, Seq::<char>::empty()));
    if sel.policy@.len() > 0 {
        lemma_segment_plain(sel.policy@);
        lemma_plain_trim(sel.policy@);
        lemma_fold_push(head + sp + mp, ("p"@, sel.policy@));
        assert((head + sp + mp).push(("p"@, sel.policy@)) =~= head + sp + mp + tail);
    } else {
        assert(head + sp + mp + tail =~= head + sp + mp);
    }
}

/// The whole selection lives in the address: the address of a selection the
/// page produced, with any trimmed tab shown, is these pairs encoded in
/// order, and reading the pairs back gives that tab and exactly the same
/// strategies, markets and policy (the ascending, repeat-free lists that
/// `parse_sel` returns can only be the selection's own).
pub proof fn law_address_keeps_selection(sel: Sel, tab: Seq<char>)
    requires
        normal_sel(sel, tab),
    ensures
        sel_query(sel, tab) == sel_pairs(sel, tab).map_values(
            |p: (Seq<char>, Seq<char>)| encoded_pair(p),
        ),
        sel_fold(sel_pairs(sel, tab)) == (tab, views(sel.strategies@), views(sel.markets@), sel.policy@),
        forall|s: Seq<Seq<char>>|
            sorted_set_of(s, views(sel.strategies@)) ==> s == views(sel.strategies@),
        forall|m: Seq<Seq<char>>| sorted_set_of(m, views(sel.markets@)) ==> m == views(sel.markets@),
{
    lemma_query_is_pairs(sel, tab);
    lemma_pairs_read_back(sel, tab);
    assert forall|s: Seq<Seq<char>>| sorted_set_of(s, views(sel.strategies@)) implies s == views(
        sel.strategies@,
    ) by {
        lemma_sorted_set_unique(s, views(sel.strategies@));
    }
    assert forall|m: Seq<Seq<char>>| sorted_set_of(m, views(sel.markets@)) implies m == views(
        sel.markets@,
    ) by {
        lemma_sorted_set_unique(m, views(sel.markets@));
    }
}

/// The execution policy a plan uses when the address names none.
pub const DEFAULT_POLICY: &'static str = "fade-v2";

pub open spec fn on_if(b: bool, word: Seq<char>) -> Seq<char> {
    if b {
        word
    } else {
        Seq::empty()
    }
}

/// A strategy's checkbox: its key, status and own summary.
pub open spec fn strategy_option(m: VariantMeta, chosen: Seq<Seq<char>>) -> Seq<char> {
    let key = m.family@ + "/"@ + m.variant@;
    "<label><input type=\"checkbox\" name=\"s\" value=\""@ + escaped(key) + "\""@ + on_if(
        chosen.contains(key),
        " checked"@,
    ) + "><span><b>"@ + escaped(key) + "</b> "@ + badge_html(m.status@, status_tone_of(m.status@))
        + "<span class=\"pick-sub\">"@ + escaped(m.summary@) + "</span></span></label>"@
}

/// Every strategy that can still act, or was chosen anyway: a retired one
/// produces no new signals, so it is offered only when already chosen.
pub open spec fn strategy_options(ms: Seq<VariantMeta>, chosen: Seq<Seq<char>>) -> Seq<char>
    decreases ms.len(),
{
    if ms.len() == 0 {
        Seq::empty()
    } else {
        let m = ms.last();
        let prev = strategy_options(ms.drop_last(), chosen);
        if m.status@ == "retired"@ && !chosen.contains(m.family@ + "/"@ + m.variant@) {
            prev
        } else {
            prev + strategy_option(m, chosen)
        }
    }
}

pub open spec fn market_option(slug: Seq<char>, chosen: Seq<Seq<char>>) -> Seq<char> {
    "<label><input type=\"checkbox\" name=\"m\" value=\""@ + escaped(slug) + "\""@ + on_if(
        chosen.contains(slug),
        " checked"@,
    ) + "><span>"@ + escaped(slug) + "</span></label>"@
}

pub open spec fn policy_option(file: Seq<char>, character: Seq<char>, chosen: Seq<char>) -> Seq<char> {
    "<option value=\""@ + escaped(file) + "\""@ + on_if(file == chosen, " selected"@) + ">"@
        + escaped(file) + " \u{2014} "@ + escaped(
        if character.len() == 0 {
            "no description"@
        } else {
            character
        },
    ) + "</option>"@
}

pub open spec fn or_else(x: Seq<char>, fallback: Seq<char>) -> Seq<char> {
    if x.len() == 0 {
        fallback
    } else {
        x
    }
}

/// The plan form: strategies, markets and the policy, all three carried in
/// the address. `policies` are `(file stem, character line)` pairs.
pub open spec fn selection_form_html(
    sel: Sel,
    metas: Seq<VariantMeta>,
    defaults: Seq<Seq<char>>,
    chosen_strategies: Seq<Seq<char>>,
    available: Seq<Seq<char>>,
    chosen_markets: Seq<Seq<char>>,
    policies: Seq<(String, String)>,
    policy_name: Seq<char>,
) -> Seq<char> {
    let strat = or_else(
        strategy_options(metas, chosen_strategies),
        "<p class=\"pick-empty\">No strategy has a manifest to select.</p>"@,
    );
    let mkt = or_else(
        concat(available.map_values(|m: Seq<char>| market_option(m, chosen_markets))),
        "<p class=\"pick-empty\">The selected strategies have no unresolved predictions, so there is nothing to pick.</p>"@,
    );
    let opts = concat(
        policies.map_values(
            |pc: (String, String)| policy_option(pc.0@, pc.1@, policy_name),
        ),
    );
    let market_summary = if sel.markets@.len() == 0 {
        "all "@ + count_of(available.len(), "market"@) + " with a live prediction"@
    } else {
        dec(chosen_markets.len()) + " of "@ + dec(available.len()) + " chosen"@
    };
    let body = "<form class=\"pick\" method=\"get\" action=\"/execution\">\n<input type=\"hidden\" name=\"tab\" value=\"plan\">\n<div class=\"pick-group\">\n  <div class=\"pick-label\">Strategies <span class=\"pick-hint\">whose signals this plan may act on. Default: everything on trial or live.</span></div>\n  <div class=\"pick-opts\">"@ + strat
        + "</div>\n</div>\n<details class=\"pick-group\""@ + on_if(sel.markets@.len() > 0, " open"@)
        + ">\n  <summary><span class=\"pick-label\">Markets <span class=\"pick-hint\">"@ + escaped(
        market_summary,
    ) + "</span></span></summary>\n  <div class=\"pick-opts pick-opts-narrow\">"@ + mkt
        + "</div>\n</details>\n<div class=\"pick-group\">\n  <div class=\"pick-label\">Execution policy <span class=\"pick-hint\">the rules that turn a probability into a position. A <span class=\"mono\">-v1</span> policy charges no fee and will say so.</span></div>\n  <select name=\"p\" aria-label=\"Execution policy\">"@
        + opts
        + "</select>\n</div>\n<div class=\"pick-actions\">\n  <button type=\"submit\" class=\"btn\">Plan</button>\n  <a class=\"link\" href=\"/execution?tab=plan\">Reset to defaults</a>\n  <a class=\"link\" href=\""@
        + escaped(book_href(sel, ""@)) + "\">Back to holdings</a>\n</div>\n</form>"@;
    let foot = "<span>defaults: "@ + (if defaults.len() == 0 {
        "no strategy is on trial or live"@
    } else {
        join(defaults, ", "@)
    }) + " \u{b7} every market they have a live prediction on \u{b7} <span class=\"mono\">"@
        + "fade-v2"@ + "</span></span>"@;
    section_html(
        "What to plan"@,
        "strategies, markets and the policy \u{2014} all three live in the address, so this plan is a link"@,
        ""@,
        body,
        "<div class=\"sec-foot\">"@ + foot + "</div>"@,
    )
}

fn contains_str(v: &[String], x: &str) -> (r: bool)
    ensures
        r == views(v@).contains(x@),
{
    let mut i: usize = 0;
    while i < v.len()
        invariant
            i <= v@.len(),
            forall|j: int| 0 <= j < i ==> #[trigger] v@[j]@ != x@,
        decreases v.len() - i,
    {
        if str_eq(v[i].as_str(), x) {
            proof {
                assert(views(v@)[i as int] == x@);
            }
            return true;
        }
        i += 1;
    }
    proof {
        if views(v@).contains(x@) {
            let j = choose|j: int| 0 <= j < views(v@).len() && #[trigger] views(v@)[j] == x@;
            assert(v@[j]@ == x@);
        }
    }
    false
}

fn strategy_options_exec(metas: &[VariantMeta], chosen: &[String]) -> (r: String)
    ensures
        r@ == strategy_options(metas@, views(chosen@)),
{
    let mut out = String::new();
    let mut i: usize = 0;
    while i < metas.len()
        invariant
            i <= metas@.len(),
            out@ == strategy_options(metas@.take(i as int), views(chosen@)),
        decreases metas.len() - i,
    {
        let m = &metas[i];
        proof {
            assert(metas@.take(i + 1).drop_last() =~= metas@.take(i as int));
            assert(metas@.take(i + 1).last() == *m);
        }
        let key = m.key();
        let on = contains_str(chosen, key.as_str());
        if !(str_eq(m.status.as_str(), "retired") && !on) {
            let mut o = owned("<label><input type=\"checkbox\" name=\"s\" value=\"");
            push_esc(&mut o, key.as_str());
            o.append("\"");
            if on {
                o.append(" checked");
            }
            o.append("><span><b>");
            push_esc(&mut o, key.as_str());
            o.append("</b> ");
            let b = crate::render::status_badge(m.status.as_str());
            o.append(b.as_str());
            o.append("<span class=\"pick-sub\">");
            push_esc(&mut o, m.summary.as_str());
            o.append("</span></span></label>");
            proof {
                assert(o@ =~= strategy_option(*m, views(chosen@)));
            }
            out.append(o.as_str());
        }
        i += 1;
    }
    proof {
        assert(metas@.take(metas@.len() as int) =~= metas@);
    }
    out
}

fn market_options_exec(available: &[String], chosen: &[String]) -> (r: String)
    ensures
        r@ == concat(
            views(available@).map_values(|m: Seq<char>| market_option(m, views(chosen@))),
        ),
{
    let ghost ms = views(available@).map_values(|m: Seq<char>| market_option(m, views(chosen@)));
    let mut out = String::new();
    let mut i: usize = 0;
    while i < available.len()
        invariant
            i <= available@.len(),
            ms == views(available@).map_values(|m: Seq<char>| market_option(m, views(chosen@))),
            out@ == concat(ms.take(i as int)),
        decreases available.len() - i,
    {
        let slug = available[i].as_str();
        let mut o = owned("<label><input type=\"checkbox\" name=\"m\" value=\"");
        push_esc(&mut o, slug);
        o.append("\"");
        if contains_str(chosen, slug) {
            o.append(" checked");
        }
        o.append("><span>");
        push_esc(&mut o, slug);
        o.append("</span></label>");
        proof {
            assert(ms[i as int] == market_option(slug@, views(chosen@)));
            assert(o@ =~= ms[i as int]);
            assert(ms.take(i + 1).drop_last() =~= ms.take(i as int));
        }
        out.append(o.as_str());
        i += 1;
    }
    proof {
        assert(ms.take(available@.len() as int) =~= ms);
    }
    out
}

fn policy_options_exec(policies: &[(String, String)], chosen: &str) -> (r: String)
    ensures
        r@ == concat(
            policies@.map_values(|pc: (String, String)| policy_option(pc.0@, pc.1@, chosen@)),
        ),
{
    let ghost os = policies@.map_values(|pc: (String, String)| policy_option(pc.0@, pc.1@, chosen@));
    let mut out = String::new();
    let mut i: usize = 0;
    while i < policies.len()
        invariant
            i <= policies@.len(),
            os == policies@.map_values(
                |pc: (String, String)| policy_option(pc.0@, pc.1@, chosen@),
            ),
            out@ == concat(os.take(i as int)),
        decreases policies.len() - i,
    {
        let file = policies[i].0.as_str();
        let ch = policies[i].1.as_str();
        let mut o = owned("<option value=\"");
        push_esc(&mut o, file);
        o.append("\"");
        if str_eq(file, chosen) {
            o.append(" selected");
        }
        o.append(">");
        push_esc(&mut o, file);
        o.append(" \u{2014} ");
        if ch.is_empty() {
            push_esc(&mut o, "no description");
        } else {
            push_esc(&mut o, ch);
        }
        o.append("</option>");
        proof {
            assert(o@ =~= os[i as int]);
            assert(os.take(i + 1).drop_last() =~= os.take(i as int));
        }
        out.append(o.as_str());
        i += 1;
    }
    proof {
        assert(os.take(policies@.len() as int) =~= os);
    }
    out
}

/// The plan form (see `selection_form_html`).
pub fn selection_form(
    sel: &Sel,
    metas: &[VariantMeta],
    default_strategies: &[String],
    chosen_strategies: &[String],
    available_markets: &[String],
    chosen_markets: &[String],
    policies: &[(String, String)],
    policy_name: &str,
) -> (r: String)
    ensures
        r@ == selection_form_html(
            *sel,
            metas@,
            views(default_strategies@),
            views(chosen_strategies@),
            views(available_markets@),
            views(chosen_markets@),
            policies@,
            policy_name@,
        ),
{
    let mut strat = strategy_options_exec(metas, chosen_strategies);
    if strat.as_str().is_empty() {
        strat = owned("<p class=\"pick-empty\">No strategy has a manifest to select.</p>");
    }
    let mut mkt = market_options_exec(available_markets, chosen_markets);
    if mkt.as_str().is_empty() {
        mkt = owned(
            "<p class=\"pick-empty\">The selected strategies have no unresolved predictions, so there is nothing to pick.</p>",
        );
    }
    let opts = policy_options_exec(policies, policy_name);
    let markets_open = sel.markets.len() > 0;
    let market_summary = if sel.markets.len() == 0 {
        let mut m = owned("all ");
        let c = count(available_markets.len(), "market");
        m.append(c.as_str());
        m.append(" with a live prediction");
        m
    } else {
        let mut m = String::new();
        push_dec(&mut m, chosen_markets.len() as u64);
        m.append(" of ");
        push_dec(&mut m, available_markets.len() as u64);
        m.append(" chosen");
        proof {
            assert(m@ =~= dec(chosen_markets@.len() as nat) + " of "@ + dec(
                available_markets@.len() as nat,
            ) + " chosen"@);
        }
        m
    };
    let mut body = owned("<form class=\"pick\" method=\"get\" action=\"/execution\">\n<input type=\"hidden\" name=\"tab\" value=\"plan\">\n<div class=\"pick-group\">\n  <div class=\"pick-label\">Strategies <span class=\"pick-hint\">whose signals this plan may act on. Default: everything on trial or live.</span></div>\n  <div class=\"pick-opts\">");
    body.append(strat.as_str());
    body.append("</div>\n</div>\n<details class=\"pick-group\"");
    if markets_open {
        body.append(" open");
    }
    body.append(">\n  <summary><span class=\"pick-label\">Markets <span class=\"pick-hint\">");
    push_esc(&mut body, market_summary.as_str());
    body.append("</span></span></summary>\n  <div class=\"pick-opts pick-opts-narrow\">");
    body.append(mkt.as_str());
    body.append(
        "</div>\n</details>\n<div class=\"pick-group\">\n  <div class=\"pick-label\">Execution policy <span class=\"pick-hint\">the rules that turn a probability into a position. A <span class=\"mono\">-v1</span> policy charges no fee and will say so.</span></div>\n  <select name=\"p\" aria-label=\"Execution policy\">",
    );
    body.append(opts.as_str());
    body.append(
        "</select>\n</div>\n<div class=\"pick-actions\">\n  <button type=\"submit\" class=\"btn\">Plan</button>\n  <a class=\"link\" href=\"/execution?tab=plan\">Reset to defaults</a>\n  <a class=\"link\" href=\"",
    );
    let back = href(sel, "");
    push_esc(&mut body, back.as_str());
    body.append("\">Back to holdings</a>\n</div>\n</form>");
    let mut foot = owned("<span>defaults: ");
    if default_strategies.len() == 0 {
        foot.append("no strategy is on trial or live");
    } else {
        let mut ds: Vec<String> = Vec::new();
        let mut i: usize = 0;
        while i < default_strategies.len()
            invariant
                i <= default_strategies@.len(),
                views(ds@) == views(default_strategies@).take(i as int),
            decreases default_strategies.len() - i,
        {
            let ghost before = ds@;
            ds.push(owned(default_strategies[i].as_str()));
            proof {
                assert(views(ds@) =~= views(before).push(default_strategies@[i as int]@));
                assert(views(default_strategies@).take(i + 1) =~= views(default_strategies@).take(
                    i as int,
                ).push(default_strategies@[i as int]@));
            }
            i += 1;
        }
        proof {
            assert(views(default_strategies@).take(default_strategies@.len() as int) =~= views(
                default_strategies@,
            ));
        }
        crate::render::push_join(&mut foot, &ds, ", ");
    }
    foot.append(" \u{b7} every market they have a live prediction on \u{b7} <span class=\"mono\">");
    foot.append(DEFAULT_POLICY);
    foot.append("</span></span>");
    proof {
        assert(DEFAULT_POLICY@ == "fade-v2"@);
    }
    let r = section_foot(
        "What to plan",
        "strategies, markets and the policy \u{2014} all three live in the address, so this plan is a link",
        "",
        body.as_str(),
        foot.as_str(),
    );
    proof {
        let want = selection_form_html(
            *sel,
            metas@,
            views(default_strategies@),
            views(chosen_strategies@),
            views(available_markets@),
            views(chosen_markets@),
            policies@,
            policy_name@,
        );
        assert(r@ =~= want);
    }
    r
}

} // verus!
