//! The strategy pages' text helpers: Markdown flattened to plain prose, the
//! plain-English lede lifted out of a FAMILY.md, clipping, and the detail
//! pages' tabs (including where an old `?doc=` link now points).
use vstd::prelude::*;

use crate::number::{dec, int_str, push_dec, push_int};
use crate::config::{array_items, arr_at, bool_of, path_value, path_views, str_at, table_get, tbool, text_of, tstr, TomlTable};
use crate::data::VariantMeta;
use crate::render::{
    badge, badge_html, chip_row, chips, concat, row, row_html, icon, icon_svg, item, item_html, items, markdown, lemma_concat_all, markdown_body, markdown_body_src, markdown_html, stat_line, table, count, count_of, empty_state, esc, escaped, fmt_int, fmt_int_of,
    fmt_ts, fmt_ts_of, fmt_ts_ok, lemma_concat_take, section, table_of, table_scroll,
    push_esc, section_foot, section_html, stat_line_cell, status_badge, status_tone_of, tone_class,
    subbar, tab_link, tabbar as render_tabbar,
};
use crate::repo::{dir_prefix, files_in, filter_map, in_dir_fn, is_safe_segment, safe_segment};
use vstd::relations::sorted_by;
use crate::runs::cellv;
use crate::sort::{lex_le, str_le, str_le_exec, views};
use crate::table::{grid, Table};
use crate::text::{
    at_in, char_is, chars_of, ends_with, ends_with_in, last_index, lemma_last_index_is, lemma_last_index_none, contains_seq, find_char, find_char_in, find_in, find_seq, first_index,
    is_alnum, lemma_first_index_is, lemma_first_index_none, lines, lines_in, owned, push_char,
    push_window, set_pred, skip_set, skip_ws, skip_ws_back, starts_with, str_eq, string_of,
    strip_prefix, strip_prefix_in, strip_suffix, strip_suffix_in, trim, trim_end, trim_start,
    replace_first, str_starts_with,
    trim_start_by, trim_window, win, wins, windows_ok, alnum, remove_char,
};

verus! {

// ---------------------------------------------------------------------------
// Markdown → plain prose
// ---------------------------------------------------------------------------

/// `s.replace(p, "")` for a non-empty pattern: occurrences removed left to
/// right, without overlap.
pub open spec fn remove_all(s: Seq<char>, p: Seq<char>) -> Seq<char>
    decreases s.len(),
{
    match find_seq(s, p) {
        Some(i) => if p.len() > 0 && 0 <= i && i + p.len() <= s.len() {
            s.take(i) + remove_all(s.skip(i + p.len()), p)
        } else {
            s
        },
        None => s,
    }
}

/// `[text](href)` → `text`, link by link; an unfinished link is kept as it
/// stands, and so is everything after it.
pub open spec fn strip_links_of(s: Seq<char>) -> Seq<char>
    decreases s.len(),
{
    match find_char(s, '[') {
        Some(o) => match find_seq(s.skip(o), "]("@) {
            Some(c) => match find_char(s.skip(o + c), ')') {
                Some(e) => if 0 <= o && 0 <= c && 0 <= e && o + c + e + 1 <= s.len() {
                    s.take(o) + s.subrange(o + 1, o + c) + strip_links_of(s.skip(o + c + e + 1))
                } else {
                    s
                },
                None => s,
            },
            None => s,
        },
        None => s,
    }
}

/// Markdown emphasis, code marks and link syntax removed.
pub open spec fn plain_text_of(s: Seq<char>) -> Seq<char> {
    strip_links_of(remove_char(remove_char(remove_char(remove_all(s, "**"@), '`'), '*'), '_'))
}

/// `s` without any `c`.
fn without_char(s: &[char], c: char) -> (r: Vec<char>)
    ensures
        r@ == remove_char(s@, c),
{
    let mut out: Vec<char> = Vec::new();
    let mut i: usize = 0;
    proof {
        assert(s@.take(0) =~= Seq::<char>::empty());
    }
    while i < s.len()
        invariant
            i <= s@.len(),
            out@ == remove_char(s@.take(i as int), c),
        decreases s.len() - i,
    {
        proof {
            assert(s@.take(i + 1).drop_last() =~= s@.take(i as int));
            assert(s@.take(i + 1).last() == s@[i as int]);
        }
        if s[i] != c {
            out.push(s[i]);
        }
        i += 1;
    }
    proof {
        assert(s@.take(s@.len() as int) =~= s@);
    }
    out
}

/// `s` without the two-character pattern `p`.
fn without_seq(s: &[char], p: &[char]) -> (r: Vec<char>)
    requires
        p@.len() > 0,
    ensures
        r@ == remove_all(s@, p@),
{
    let n = s.len();
    let mut out: Vec<char> = Vec::new();
    let mut pos: usize = 0;
    proof {
        assert(s@.skip(0) =~= s@);
    }
    loop
        invariant
            pos <= n == s@.len(),
            p@.len() > 0,
            remove_all(s@, p@) == out@ + remove_all(s@.skip(pos as int), p@),
        decreases n - pos,
    {
        let ghost rest = s@.skip(pos as int);
        proof {
            assert(s@.subrange(pos as int, n as int) =~= rest);
        }
        match find_in(s, pos, n, p) {
            Some(i) => {
                proof {
                    assert(rest.take(i - pos) =~= s@.subrange(pos as int, i as int));
                    assert(rest.skip(i - pos + p@.len()) =~= s@.skip(i + p@.len()));
                }
                let ghost before = out@;
                push_all(&mut out, s, pos, i);
                proof {
                    assert(out@ + remove_all(s@.skip(i + p@.len()), p@) =~= before + (rest.take(
                        i - pos,
                    ) + remove_all(rest.skip(i - pos + p@.len()), p@)));
                }
                pos = i + p.len();
            },
            None => {
                let ghost before = out@;
                push_all(&mut out, s, pos, n);
                proof {
                    assert(out@ =~= before + rest);
                }
                return out;
            },
        }
    }
}

/// Appends `s[lo..hi]`.
fn push_all(out: &mut Vec<char>, s: &[char], lo: usize, hi: usize)
    requires
        lo <= hi <= s@.len(),
    ensures
        final(out)@ == old(out)@ + s@.subrange(lo as int, hi as int),
{
    let mut i = lo;
    while i < hi
        invariant
            lo <= i <= hi <= s@.len(),
            out@ == old(out)@ + s@.subrange(lo as int, i as int),
        decreases hi - i,
    {
        out.push(s[i]);
        proof {
            assert(s@.subrange(lo as int, i + 1) =~= s@.subrange(lo as int, i as int).push(
                s@[i as int],
            ));
        }
        i += 1;
    }
}

/// `[text](href)` → `text`.
pub fn strip_links(src: &str) -> (r: String)
    ensures
        r@ == strip_links_of(src@),
{
    let s = chars_of(src);
    let n = s.len();
    let close_mark = [']', '('];
    proof {
        reveal_strlit("](");
        assert(close_mark@ =~= "]("@);
        assert(s@.skip(0) =~= s@);
    }
    let mut out = String::new();
    let mut pos: usize = 0;
    loop
        invariant
            pos <= n == s@.len(),
            close_mark@ == "]("@,
            close_mark@ == seq![']', '('],
            strip_links_of(src@) == out@ + strip_links_of(s@.skip(pos as int)),
            s@ == src@,
        decreases n - pos,
    {
        let ghost rest = s@.skip(pos as int);
        proof {
            assert(s@.subrange(pos as int, n as int) =~= rest);
        }
        let open = match find_char_in(&s, pos, n, '[') {
            Some(o) => o,
            None => {
                let ghost before = out@;
                push_window(&mut out, &s, pos, n);
                return out;
            },
        };
        proof {
            assert(rest.skip(open - pos) =~= s@.subrange(open as int, n as int));
        }
        let close = match find_in(&s, open, n, &close_mark) {
            Some(c) => c,
            None => {
                push_window(&mut out, &s, pos, n);
                return out;
            },
        };
        proof {
            assert(rest.skip(open - pos + (close - open)) =~= s@.subrange(close as int, n as int));
        }
        let end = match find_char_in(&s, close, n, ')') {
            Some(e) => e,
            None => {
                push_window(&mut out, &s, pos, n);
                return out;
            },
        };
        proof {
            crate::text::lemma_first_index(
                s@.subrange(pos as int, n as int).len() as int,
                char_is(s@.subrange(pos as int, n as int), '['),
            );
            assert(s@[open as int] == '[');
            let w2 = s@.subrange(open as int, n as int);
            crate::text::lemma_first_index(
                w2.len() + 1 - close_mark@.len(),
                crate::text::at_pred(w2, close_mark@),
            );
            assert(crate::text::at(w2, close - open, close_mark@));
            assert(w2.subrange(close - open, close - open + 2)[0] == close_mark@[0]);
            assert(s@[close as int] == ']');
            assert(close != open);
        }
        let ghost before = out@;
        push_window(&mut out, &s, pos, open);
        push_window(&mut out, &s, open + 1, close);
        proof {
            let o = open - pos;
            let c = close - open;
            let e = end - close;
            assert(rest.take(o) =~= s@.subrange(pos as int, open as int));
            assert(rest.subrange(o + 1, o + c) =~= s@.subrange(open + 1, close as int));
            assert(rest.skip(o + c + e + 1) =~= s@.skip(end + 1));
            assert(out@ =~= before + rest.take(o) + rest.subrange(o + 1, o + c));
        }
        pos = end + 1;
    }
}

/// Markdown syntax stripped, for text displayed as plain prose.
pub fn plain_text(src: &str) -> (r: String)
    ensures
        r@ == plain_text_of(src@),
{
    let s = chars_of(src);
    let stars = ['*', '*'];
    proof {
        reveal_strlit("**");
        assert(stars@ =~= "**"@);
    }
    let a = without_seq(&s, &stars);
    let b = without_char(&a, '`');
    let c = without_char(&b, '*');
    let d = without_char(&c, '_');
    proof {
        assert(d@.subrange(0, d@.len() as int) =~= d@);
    }
    let flat = string_of(&d, 0, d.len());
    strip_links(flat.as_str())
}

// ---------------------------------------------------------------------------
// The plain-English lede of a FAMILY.md
// ---------------------------------------------------------------------------

pub open spec fn plain_mark() -> Seq<char> {
    "**In plain English:**"@
}

/// One line of a FAMILY.md read into (lede so far, rest so far, inside the
/// lede's blockquote). The blockquote starts at a `>` line holding the
/// `**In plain English:**` mark; its lines, without the `>`s and the mark,
/// are joined into the lede; it ends at the first line that is not quoted,
/// and a blank line there is dropped. Every other line goes to the rest.
pub open spec fn pe_step(st: (Seq<char>, Seq<char>, bool), line: Seq<char>) -> (
    Seq<char>,
    Seq<char>,
    bool,
) {
    let t = trim_start(line);
    let quoted = t.len() > 0 && t[0] == '>';
    let taking = st.2 || (quoted && contains_seq(t, plain_mark()));
    if taking && quoted {
        let body = trim(trim_start_by(t, set_pred(seq!['>'])));
        let body2 = trim(
            match strip_prefix(body, plain_mark()) {
                Some(b) => b,
                None => body,
            },
        );
        let lede = if body2.len() > 0 {
            (if st.0.len() > 0 {
                st.0 + " "@
            } else {
                st.0
            }) + body2
        } else {
            st.0
        };
        (lede, st.1, true)
    } else if taking && trim(line).len() == 0 {
        (st.0, st.1, false)
    } else {
        (st.0, st.1 + line + "\n"@, false)
    }
}

pub open spec fn pe_fold(ls: Seq<Seq<char>>) -> (Seq<char>, Seq<char>, bool)
    decreases ls.len(),
{
    if ls.len() == 0 {
        (Seq::empty(), Seq::empty(), false)
    } else {
        pe_step(pe_fold(ls.drop_last()), ls.last())
    }
}

/// A FAMILY.md split into (its plain-English lede as plain prose, the rest of
/// the document).
pub open spec fn plain_english_of(src: Seq<char>) -> (Seq<char>, Seq<char>) {
    let st = pe_fold(lines(src));
    (plain_text_of(st.0), st.1)
}

/// One line's step of `plain_english`.
fn pe_line(
    s: &[char],
    a: usize,
    b: usize,
    mark: &[char],
    lede: &mut String,
    rest: &mut String,
    taking: bool,
) -> (r: bool)
    requires
        a <= b <= s@.len(),
        mark@ == plain_mark(),
    ensures
        (final(lede)@, final(rest)@, r) == pe_step(
            (old(lede)@, old(rest)@, taking),
            s@.subrange(a as int, b as int),
        ),
{
    let ghost line = s@.subrange(a as int, b as int);
    let ta = skip_ws(s, a, b);
    let quoted = ta < b && s[ta] == '>';
    proof {
        let t = trim_start(line);
        assert(t == s@.subrange(ta as int, b as int));
        if ta < b {
            assert(t[0] == s@[ta as int]);
        }
    }
    let taking = taking || (quoted && find_in(s, ta, b, mark).is_some());
    if taking && quoted {
        let gt = ['>'];
        let ba = skip_set(s, ta, b, &gt);
        proof {
            assert(gt@ =~= seq!['>']);
        }
        let (x, y) = trim_window(s, ba, b);
        let z = match strip_prefix_in(s, x, y, mark) {
            Some(z) => z,
            None => x,
        };
        let (u, v) = trim_window(s, z, y);
        if u < v {
            if !lede.as_str().is_empty() {
                push_char(lede, ' ');
                proof {
                    reveal_strlit(" ");
                    assert(old(lede)@.push(' ') =~= old(lede)@ + " "@);
                }
            }
            push_window(lede, s, u, v);
        }
        true
    } else {
        let (x, y) = trim_window(s, a, b);
        if taking && x == y {
            false
        } else {
            push_window(rest, s, a, b);
            push_char(rest, '\n');
            proof {
                reveal_strlit("\n");
                assert(rest@ =~= old(rest)@ + line + "\n"@);
            }
            false
        }
    }
}

/// Split a FAMILY.md into (plain-English lede, the rest of the document):
/// the lede is lifted out of the document rather than printed twice.
pub fn plain_english(src: &str) -> (r: (String, String))
    ensures
        r.0@ == plain_english_of(src@).0,
        r.1@ == plain_english_of(src@).1,
{
    let s = chars_of(src);
    proof {
        assert(s@.subrange(0, s@.len() as int) =~= s@);
    }
    let ls = lines_in(&s, 0, s.len());
    let ghost v = wins(s@, ls@);
    let mark = chars_of("**In plain English:**");
    let mut lede = String::new();
    let mut rest = String::new();
    let mut taking = false;
    let mut k: usize = 0;
    proof {
        assert(v.take(0) =~= Seq::<Seq<char>>::empty());
        assert(lede@ =~= Seq::<char>::empty());
        assert(rest@ =~= Seq::<char>::empty());
    }
    while k < ls.len()
        invariant
            k <= ls@.len(),
            windows_ok(s@, ls@),
            v == wins(s@, ls@),
            mark@ == plain_mark(),
            (lede@, rest@, taking) == pe_fold(v.take(k as int)),
        decreases ls.len() - k,
    {
        let (a, b) = ls[k];
        proof {
            assert(ls@[k as int].0 <= ls@[k as int].1 <= s@.len());
            assert(v[k as int] == win(s@, ls@[k as int]));
            assert(v.take(k + 1).drop_last() =~= v.take(k as int));
            assert(v.take(k + 1).last() == v[k as int]);
        }
        taking = pe_line(&s, a, b, &mark, &mut lede, &mut rest, taking);
        k += 1;
    }
    proof {
        assert(v.take(ls@.len() as int) =~= v);
    }
    (plain_text(lede.as_str()), rest)
}

/// The first `max` characters of `src`; when that cuts the text, the cut is
/// trimmed and marked with `…`.
pub open spec fn clip_of(s: Seq<char>, max: nat) -> Seq<char> {
    if s.len() > max {
        trim_end(s.take(max as int)) + "…"@
    } else {
        s
    }
}

pub fn clip(src: &str, max: usize) -> (r: String)
    ensures
        r@ == clip_of(src@, max as nat),
{
    let s = chars_of(src);
    if s.len() > max {
        let b = skip_ws_back(&s, 0, max);
        proof {
            assert(s@.subrange(0, max as int) =~= s@.take(max as int));
        }
        let mut out = string_of(&s, 0, b);
        out.append("…");
        out
    } else {
        owned(src)
    }
}

/// The plain-English description with its typographic prominence, or the
/// given markup when there is none.
pub open spec fn lede_of(text: Seq<char>, missing_html: Seq<char>) -> Seq<char> {
    if trim(text).len() == 0 {
        "<p class=\"lede lede-missing\">"@ + missing_html + "</p>"@
    } else {
        "<p class=\"lede\">"@ + escaped(trim(text)) + "</p>"@
    }
}

pub fn lede(text: &str, missing_html: &str) -> (r: String)
    ensures
        r@ == lede_of(text@, missing_html@),
{
    let s = chars_of(text);
    proof {
        assert(s@.subrange(0, s@.len() as int) =~= s@);
    }
    let (a, b) = trim_window(&s, 0, s.len());
    if a == b {
        let mut out = owned("<p class=\"lede lede-missing\">");
        out.append(missing_html);
        out.append("</p>");
        out
    } else {
        let mut out = owned("<p class=\"lede\">");
        let t = string_of(&s, a, b);
        push_esc(&mut out, t.as_str());
        out.append("</p>");
        out
    }
}

// ---------------------------------------------------------------------------
// Tabs
// ---------------------------------------------------------------------------

/// A tab that has something to show. `key` is the `?tab=` value; "" is the
/// default tab and carries no query parameter.
pub struct Tab {
    pub key: &'static str,
    pub label: &'static str,
    /// Shown small beside the label; "" for none.
    pub count: String,
}

pub fn tab(key: &'static str, label: &'static str) -> (t: Tab)
    ensures
        t.key == key,
        t.label == label,
        t.count@ == Seq::<char>::empty(),
{
    Tab { key, label, count: String::new() }
}

pub fn tab_n(key: &'static str, label: &'static str, n: usize) -> (t: Tab)
    ensures
        t.key == key,
        t.label == label,
        t.count@ == dec(n as nat),
{
    let mut count = String::new();
    push_dec(&mut count, n as u64);
    proof {
        assert(Seq::<char>::empty() + dec(n as nat) =~= dec(n as nat));
    }
    Tab { key, label, count }
}

pub open spec fn tab_keyed(tabs: Seq<Tab>, key: Seq<char>) -> spec_fn(int) -> bool {
    |i: int| tabs[i].key@ == key
}

/// The first tab whose key is `key`.
pub open spec fn tab_index(tabs: Seq<Tab>, key: Seq<char>) -> Option<int> {
    first_index(tabs.len() as int, tab_keyed(tabs, key))
}

fn find_tab(tabs: &[Tab], key: &str) -> (r: Option<usize>)
    ensures
        match r {
            Some(i) => tab_index(tabs@, key@) == Some(i as int) && i < tabs@.len(),
            None => tab_index(tabs@, key@) is None,
        },
{
    let ghost p = tab_keyed(tabs@, key@);
    let mut i: usize = 0;
    while i < tabs.len()
        invariant
            i <= tabs@.len(),
            p == tab_keyed(tabs@, key@),
            forall|j: int| 0 <= j < i ==> !#[trigger] p(j),
        decreases tabs.len() - i,
    {
        if str_eq(tabs[i].key, key) {
            proof {
                lemma_first_index_is(tabs@.len() as int, p, i as int);
            }
            return Some(i);
        }
        i += 1;
    }
    proof {
        lemma_first_index_none(tabs@.len() as int, p);
    }
    None
}

/// The tab actually shown: the requested one when it exists, else the
/// default. An unknown `?tab=` therefore lands on the page, never on an error.
pub fn active_tab<'a>(tabs: &'a [Tab], want: &Option<String>) -> (r: &'a str)
    ensures
        ({
            let w = match want {
                Some(s) => s@,
                None => Seq::<char>::empty(),
            };
            r@ == match tab_index(tabs@, w) {
                Some(i) => tabs@[i].key@,
                None => Seq::<char>::empty(),
            }
        }),
{
    proof {
        reveal_strlit("");
    }
    let w: &str = match want {
        Some(s) => s.as_str(),
        None => "",
    };
    proof {
        assert(w@ == match want {
            Some(s) => s@,
            None => Seq::<char>::empty(),
        });
    }
    match find_tab(tabs, w) {
        Some(i) => tabs[i].key,
        None => "",
    }
}

/// A tab's label, for the breadcrumb: "" for the default tab, which the
/// breadcrumb does not name.
pub fn tab_label<'a>(tabs: &'a [Tab], key: &str) -> (r: &'a str)
    ensures
        r@ == if key@.len() == 0 {
            Seq::<char>::empty()
        } else {
            match tab_index(tabs@, key@) {
                Some(i) => tabs@[i].label@,
                None => Seq::<char>::empty(),
            }
        },
{
    proof {
        reveal_strlit("");
    }
    if str_eq(key, "") {
        return "";
    }
    proof {
        if key@.len() == 0 {
            assert(key@ =~= ""@);
        }
    }
    match find_tab(tabs, key) {
        Some(i) => tabs[i].label,
        None => "",
    }
}

pub open spec fn tab_links(base: Seq<char>, tabs: Seq<Tab>, active: Seq<char>) -> Seq<Seq<char>> {
    tabs.map_values(|t: Tab| tab_link(base, t.key@, t.label@, t.count@, active))
}

/// The page's tab bar.
pub fn tabbar(base: &str, tabs: &[Tab], active: &str) -> (r: String)
    ensures
        r@ == subbar(concat(tab_links(base@, tabs@, active@))),
{
    let mut entries: Vec<(&str, &str, String)> = Vec::new();
    let mut i: usize = 0;
    while i < tabs.len()
        invariant
            i <= tabs@.len(),
            entries@.len() == i,
            forall|j: int|
                0 <= j < i ==> (#[trigger] entries@[j]).0 == tabs@[j].key && entries@[j].1
                    == tabs@[j].label && entries@[j].2@ == tabs@[j].count@,
        decreases tabs.len() - i,
    {
        entries.push((tabs[i].key, tabs[i].label, owned(tabs[i].count.as_str())));
        i += 1;
    }
    let r = render_tabbar(base, &entries, active);
    proof {
        assert(entries@.map_values(
            |t: (&str, &str, String)| tab_link(base@, t.0@, t.1@, t.2@, active@),
        ) =~= tab_links(base@, tabs@, active@));
    }
    r
}

// ---------------------------------------------------------------------------
// Old document links
// ---------------------------------------------------------------------------

/// A file name → an HTML id: `.md` dropped, every character that is not an
/// ASCII letter or digit turned into `-`.
pub open spec fn anchor_of(name: Seq<char>) -> Seq<char> {
    let stem = match strip_suffix(name, ".md"@) {
        Some(s) => s,
        None => name,
    };
    stem.map_values(|c: char| if is_alnum(c) { c } else { '-' })
}

pub fn anchor(name: &str) -> (r: String)
    ensures
        r@ == anchor_of(name@),
        forall|i: int| 0 <= i < r@.len() ==> is_alnum(#[trigger] r@[i]) || r@[i] == '-',
{
    let s = chars_of(name);
    let n = s.len();
    proof {
        assert(s@.subrange(0, n as int) =~= s@);
    }
    let md = chars_of(".md");
    let e = match strip_suffix_in(&s, 0, n, &md) {
        Some(b) => b,
        None => n,
    };
    let ghost stem = s@.subrange(0, e as int);
    let mut out = String::new();
    let mut i: usize = 0;
    while i < e
        invariant
            i <= e <= n == s@.len(),
            stem == s@.subrange(0, e as int),
            out@ == stem.take(i as int).map_values(|c: char| if is_alnum(c) { c } else { '-' }),
        decreases e - i,
    {
        let c = s[i];
        let d = if alnum(c) {
            c
        } else {
            '-'
        };
        push_char(&mut out, d);
        proof {
            assert(stem.take(i + 1).map_values(|c: char| if is_alnum(c) { c } else { '-' })
                =~= stem.take(i as int).map_values(|c: char| if is_alnum(c) { c } else { '-' }).push(d));
        }
        i += 1;
    }
    proof {
        assert(stem.take(e as int) =~= stem);
    }
    out
}

/// Which tab now holds the document an old `?doc=<rel>` link pointed at, and
/// the anchor within it.
pub open spec fn doc_target_of(rel: Seq<char>) -> (Seq<char>, Seq<char>) {
    if rel == "STRATEGY.md"@ {
        ("how-it-works"@, Seq::empty())
    } else if starts_with(rel, "memory/"@) {
        ("logs"@, Seq::empty())
    } else {
        match strip_prefix(rel, "results/"@) {
            Some(name) => ("results"@, anchor_of(name)),
            None => (Seq::empty(), Seq::empty()),
        }
    }
}

pub fn doc_target(rel: &str) -> (r: (String, String))
    ensures
        r.0@ == doc_target_of(rel@).0,
        r.1@ == doc_target_of(rel@).1,
{
    if str_eq(rel, "STRATEGY.md") {
        return (owned("how-it-works"), String::new());
    }
    let s = chars_of(rel);
    let n = s.len();
    proof {
        assert(s@.subrange(0, n as int) =~= s@);
    }
    let mem = chars_of("memory/");
    if at_in(&s, 0, n, 0, &mem) {
        return (owned("logs"), String::new());
    }
    let res = chars_of("results/");
    match strip_prefix_in(&s, 0, n, &res) {
        Some(a) => {
            let name = string_of(&s, a, n);
            (owned("results"), anchor(name.as_str()))
        },
        None => (String::new(), String::new()),
    }
}


// ---------------------------------------------------------------------------
// /strategies: every family, with its strategies
// ---------------------------------------------------------------------------

/// The manifests of one family, in order.
pub open spec fn mine_of(metas: Seq<VariantMeta>, family: Seq<char>) -> Seq<VariantMeta>
    decreases metas.len(),
{
    if metas.len() == 0 {
        Seq::empty()
    } else {
        mine_of(metas.drop_last(), family) + if metas.last().family@ == family {
            seq![metas.last()]
        } else {
            Seq::empty()
        }
    }
}

pub open spec fn is_running(status: Seq<char>) -> bool {
    status == "trial"@ || status == "live"@
}

pub open spec fn running_at(ms: Seq<VariantMeta>) -> spec_fn(int) -> bool {
    |i: int| is_running(ms[i].status@)
}

/// The index of the newest of the first `n` manifests by creation date; of
/// equally new ones, the last.
pub open spec fn newest(ms: Seq<VariantMeta>, n: int) -> int
    decreases n,
{
    if n <= 1 {
        0
    } else {
        let k = newest(ms, n - 1);
        if lex_le(ms[k].created@, ms[n - 1].created@) {
            n - 1
        } else {
            k
        }
    }
}

/// The family's line: the summary of its trialling or live strategy, else
/// of its newest one; empty for a family with none.
pub open spec fn family_line(ms: Seq<VariantMeta>) -> Seq<char> {
    match first_index(ms.len() as int, running_at(ms)) {
        Some(i) => ms[i].summary@,
        None => if ms.len() == 0 {
            Seq::empty()
        } else {
            ms[newest(ms, ms.len() as int)].summary@
        },
    }
}

/// How many of `ms` have status `st`.
pub open spec fn status_count(ms: Seq<VariantMeta>, st: Seq<char>) -> nat
    decreases ms.len(),
{
    if ms.len() == 0 {
        0
    } else {
        status_count(ms.drop_last(), st) + if ms.last().status@ == st {
            1nat
        } else {
            0nat
        }
    }
}

/// How many rows have `v1` under `c1` (and `v2` under `c2`, when `both`).
pub open spec fn rows_matching(
    t: Table,
    rows: Seq<Seq<Seq<char>>>,
    c1: Seq<char>,
    v1: Seq<char>,
    both: bool,
    c2: Seq<char>,
    v2: Seq<char>,
) -> nat
    decreases rows.len(),
{
    if rows.len() == 0 {
        0
    } else {
        let r = rows.last();
        rows_matching(t, rows.drop_last(), c1, v1, both, c2, v2) + if cellv(t, r, c1) == v1 && (!both
            || cellv(t, r, c2) == v2) {
            1nat
        } else {
            0nat
        }
    }
}

pub open spec fn score_pred(s: Table, level: Seq<char>, key: Seq<char>) -> spec_fn(int) -> bool {
    |i: int| cellv(s, grid(s.rows@)[i], "level"@) == level && cellv(s, grid(s.rows@)[i], "key"@) == key
}

/// The scores row of `level` and `key`, if any.
pub open spec fn score_row(s: Table, level: Seq<char>, key: Seq<char>) -> Option<int> {
    first_index(s.rows@.len() as int, score_pred(s, level, key))
}

/// The "vs market" cell: the row's improvement (as the page prints it, and
/// whether it is above zero), or a dash.
pub open spec fn imp_html(at: Option<int>, cells: Seq<(String, bool)>) -> Seq<char> {
    match at {
        Some(j) => "<span class=\""@ + (if cells[j].1 {
            "s-ok"@
        } else {
            "s-bad"@
        }) + "\">"@ + cells[j].0@ + "</span>"@,
        None => "<span class=\"muted\">\u{2014}</span>"@,
    }
}

pub open spec fn when_of(m: VariantMeta) -> Seq<char> {
    if m.status@ == "retired"@ && m.retired_on@.len() > 0 {
        m.created@ + " \u{2192} dropped "@ + m.retired_on@
    } else if m.review_due@.len() > 0 && m.status@ == "trial"@ {
        "trial since "@ + m.trial_started@ + " \u{b7} review "@ + m.review_due@
    } else {
        "created "@ + m.created@
    }
}

/// One strategy's row inside its family.
pub open spec fn var_row(m: VariantMeta, line: Seq<char>, p: Table, s: Table, d: Table, cells: Seq<(String, bool)>) -> Seq<char> {
    let n = rows_matching(p, grid(p.rows@), "family"@, m.family@, true, "variant"@, m.variant@);
    let scored = rows_matching(d, grid(d.rows@), "family"@, m.family@, true, "variant"@, m.variant@);
    "<div class=\"fvar\"><span class=\"fvar-name\"><a href=\""@ + escaped(
        "/strategies/"@ + m.family@ + "/"@ + m.variant@,
    ) + "\">"@ + escaped(m.variant@) + "</a><span class=\"fvar-when\">"@ + escaped(when_of(m))
        + "</span></span><span class=\"fsum\">"@ + (if m.summary@ == line {
        Seq::empty()
    } else {
        escaped(m.summary@)
    }) + "</span><span class=\"fnum\">"@ + badge_html(m.status@, status_tone_of(m.status@))
        + "</span><span class=\"fnum\">"@ + dec(n) + (if scored > 0 {
        "<div class=\"fvar-when\">"@ + dec(scored) + " scored</div>"@
    } else {
        Seq::empty()
    }) + "</span><span class=\"fnum\">"@ + imp_html(
        score_row(s, "variant"@, m.family@ + "/"@ + m.variant@),
        cells,
    ) + "</span></div>"@
}

pub open spec fn var_rows(ms: Seq<VariantMeta>, line: Seq<char>, p: Table, s: Table, d: Table, cells: Seq<(String, bool)>) -> Seq<char>
    decreases ms.len(),
{
    if ms.len() == 0 {
        Seq::empty()
    } else {
        var_rows(ms.drop_last(), line, p, s, d, cells) + var_row(ms.last(), line, p, s, d, cells)
    }
}

pub open spec fn family_status(ms: Seq<VariantMeta>) -> Seq<char> {
    if ms.len() == 0 {
        "<span class=\"muted\">\u{2014}</span>"@
    } else if status_count(ms, "live"@) > 0 {
        badge_html(dec(status_count(ms, "live"@)) + " live"@, "ok"@)
    } else if status_count(ms, "trial"@) > 0 {
        badge_html(dec(status_count(ms, "trial"@)) + " in trial"@, "warn"@)
    } else {
        badge_html("dropped"@, ""@)
    }
}

/// One family's row: its name, its line (or, when no strategy has a
/// summary, the clipped plain-English opener of its FAMILY.md), its status,
/// predictions and score, and its strategies folded inside; open when one
/// of them is running.
pub open spec fn family_row(
    family: Seq<char>,
    doc: Seq<char>,
    metas: Seq<VariantMeta>,
    p: Table,
    s: Table,
    d: Table,
    cells: Seq<(String, bool)>,
) -> Seq<char> {
    let mine = mine_of(metas, family);
    let line = family_line(mine);
    let what = if line.len() == 0 {
        clip_of(plain_english_of(doc).0, 130)
    } else {
        line
    };
    "<details class=\"frow\""@ + (if first_index(mine.len() as int, running_at(mine)) is Some {
        " open"@
    } else {
        Seq::empty()
    }) + "><summary><span class=\"fname\"><a class=\"flink\" href=\"/strategies/"@ + escaped(family)
        + "\">"@ + escaped(family) + "</a><span class=\"fvar-when\">"@ + count_of(
        mine.len(),
        "strategy"@,
    ) + "</span></span><span class=\"fsum\">"@ + escaped(what) + "</span><span class=\"fnum\">"@
        + family_status(mine) + "</span><span class=\"fnum\">"@ + dec(
        rows_matching(p, grid(p.rows@), "family"@, family, false, ""@, ""@),
    ) + "</span><span class=\"fnum\">"@ + imp_html(score_row(s, "family"@, family), cells)
        + "</span></summary><div class=\"fvariants\">"@ + var_rows(mine, line, p, s, d, cells)
        + "</div></details>"@
}

pub open spec fn family_rows(
    fams: Seq<Seq<char>>,
    docs: Seq<Seq<char>>,
    metas: Seq<VariantMeta>,
    p: Table,
    s: Table,
    d: Table,
    cells: Seq<(String, bool)>,
) -> Seq<char>
    decreases fams.len(),
{
    if fams.len() == 0 {
        Seq::empty()
    } else {
        family_rows(fams.drop_last(), docs, metas, p, s, d, cells) + family_row(
            fams.last(),
            docs[fams.len() - 1],
            metas,
            p,
            s,
            d,
            cells,
        )
    }
}

pub open spec fn index_stats(n_fams: nat, metas: Seq<VariantMeta>, n_preds: nat) -> Seq<char> {
    let trial = status_count(metas, "trial"@);
    let live = status_count(metas, "live"@);
    "<div class=\"statline\">"@ + stat_line_cell(fmt_int_of(n_fams as int), "families"@, ""@)
        + stat_line_cell(fmt_int_of(metas.len() as int), "strategies"@, ""@) + stat_line_cell(
        fmt_int_of(trial as int),
        "in trial"@,
        if trial > 0 {
            "warn"@
        } else {
            ""@
        },
    ) + stat_line_cell(
        fmt_int_of(live as int),
        "live"@,
        if live > 0 {
            "ok"@
        } else {
            ""@
        },
    ) + stat_line_cell(fmt_int_of(status_count(metas, "retired"@) as int), "dropped"@, ""@)
        + stat_line_cell(fmt_int_of(n_preds as int), "predictions logged"@, ""@) + "</div>"@
}

/// The body of `/strategies`: the stale-data banner when any read was not
/// live, the counts, and one folding row per family. `families` are the
/// family names and `family_docs` their FAMILY.md texts, in the same order;
/// `score_cells` holds, per row of the scores table, its mean improvement as
/// the page prints it and whether it is above zero.
pub open spec fn index_html(
    families: Seq<Seq<char>>,
    family_docs: Seq<Seq<char>>,
    metas: Seq<VariantMeta>,
    p: Table,
    s: Table,
    d: Table,
    cells: Seq<(String, bool)>,
    live: bool,
    banner: Seq<char>,
) -> Seq<char> {
    (if live {
        Seq::empty()
    } else {
        banner
    }) + index_stats(families.len(), metas, p.rows@.len()) + section_html(
        "Families"@,
        "click a family's name to open it, anywhere else on the row to see the strategies inside"@,
        ""@,
        "<div class=\"ftable\">"@ + "<div class=\"fhead\"><span>Family</span><span>What it does</span><span>Status</span><span>Predictions</span><span>vs market</span></div>"@ + family_rows(families, family_docs, metas, p, s, d, cells)
            + "</div>"@,
        "<div class=\"sec-foot\">"@ + "<span class=\"mono\">strategies/&lt;family&gt;/&lt;variant&gt;/strategy.toml</span><span>improvement = how much better than the market's quoted price, per scored prediction — being right is not the same as being able to trade on it, so open a strategy for its reachable count</span>"@ + "</div>"@,
    )
}

fn rows_matching_exec(t: &Table, c1: &str, v1: &str, both: bool, c2: &str, v2: &str) -> (r: usize)
    ensures
        r == rows_matching(*t, grid(t.rows@), c1@, v1@, both, c2@, v2@),
        r <= t.rows@.len(),
{
    let ghost g = grid(t.rows@);
    let mut n: usize = 0;
    let mut i: usize = 0;
    while i < t.rows.len()
        invariant
            i <= t.rows@.len(),
            g == grid(t.rows@),
            n == rows_matching(*t, g.take(i as int), c1@, v1@, both, c2@, v2@),
            n <= i,
        decreases t.rows.len() - i,
    {
        let row = t.rows[i].as_slice();
        proof {
            assert(g.take(i + 1).drop_last() =~= g.take(i as int));
            assert(g.take(i + 1).last() == views(row@));
        }
        let hit = str_eq(t.cell(row, c1), v1) && (!both || str_eq(t.cell(row, c2), v2));
        if hit {
            n += 1;
        }
        i += 1;
    }
    proof {
        assert(g.take(t.rows@.len() as int) =~= g);
    }
    n
}

fn score_row_exec(s: &Table, level: &str, key: &str) -> (r: Option<usize>)
    ensures
        match r {
            Some(j) => score_row(*s, level@, key@) == Some(j as int) && j < s.rows@.len(),
            None => score_row(*s, level@, key@) is None,
        },
{
    let ghost pr = score_pred(*s, level@, key@);
    let mut j: usize = 0;
    while j < s.rows.len()
        invariant
            j <= s.rows@.len(),
            pr == score_pred(*s, level@, key@),
            forall|k: int| 0 <= k < j ==> !#[trigger] pr(k),
        decreases s.rows.len() - j,
    {
        let row = s.rows[j].as_slice();
        proof {
            assert(grid(s.rows@)[j as int] == views(row@));
        }
        if str_eq(s.cell(row, "level"), level) && str_eq(s.cell(row, "key"), key) {
            proof {
                lemma_first_index_is(s.rows@.len() as int, pr, j as int);
            }
            return Some(j);
        }
        j += 1;
    }
    proof {
        lemma_first_index_none(s.rows@.len() as int, pr);
    }
    None
}

fn push_imp(out: &mut String, at: Option<usize>, cells: &[(String, bool)])
    requires
        match at {
            Some(j) => j < cells@.len(),
            None => true,
        },
    ensures
        final(out)@ == old(out)@ + imp_html(
            match at {
                Some(j) => Some(j as int),
                None => None,
            },
            cells@,
        ),
{
    match at {
        Some(j) => {
            out.append("<span class=\"");
            if cells[j].1 {
                out.append("s-ok");
            } else {
                out.append("s-bad");
            }
            out.append("\">");
            out.append(cells[j].0.as_str());
            out.append("</span>");
        },
        None => {
            out.append("<span class=\"muted\">\u{2014}</span>");
        },
    }
}

fn when_exec(m: &VariantMeta) -> (r: String)
    ensures
        r@ == when_of(*m),
{
    if str_eq(m.status.as_str(), "retired") && !m.retired_on.as_str().is_empty() {
        let mut w = owned(m.created.as_str());
        w.append(" \u{2192} dropped ");
        w.append(m.retired_on.as_str());
        w
    } else if !m.review_due.as_str().is_empty() && str_eq(m.status.as_str(), "trial") {
        let mut w = owned("trial since ");
        w.append(m.trial_started.as_str());
        w.append(" \u{b7} review ");
        w.append(m.review_due.as_str());
        w
    } else {
        let mut w = owned("created ");
        w.append(m.created.as_str());
        w
    }
}

#[verifier::rlimit(30)]
fn push_var_row(
    out: &mut String,
    m: &VariantMeta,
    line: &str,
    p: &Table,
    s: &Table,
    d: &Table,
    cells: &[(String, bool)],
)
    requires
        cells@.len() == s.rows@.len(),
    ensures
        final(out)@ == old(out)@ + var_row(*m, line@, *p, *s, *d, cells@),
{
    let n = rows_matching_exec(p, "family", m.family.as_str(), true, "variant", m.variant.as_str());
    let scored = rows_matching_exec(d, "family", m.family.as_str(), true, "variant", m.variant.as_str());
    let mut r = owned("<div class=\"fvar\"><span class=\"fvar-name\"><a href=\"");
    let h = m.href();
    push_esc(&mut r, h.as_str());
    r.append("\">");
    push_esc(&mut r, m.variant.as_str());
    r.append("</a><span class=\"fvar-when\">");
    let w = when_exec(m);
    push_esc(&mut r, w.as_str());
    r.append("</span></span><span class=\"fsum\">");
    let ghost a = r@;
    if !str_eq(m.summary.as_str(), line) {
        push_esc(&mut r, m.summary.as_str());
    }
    let ghost b = r@;
    r.append("</span><span class=\"fnum\">");
    let st = status_badge(m.status.as_str());
    r.append(st.as_str());
    r.append("</span><span class=\"fnum\">");
    push_dec(&mut r, n as u64);
    let ghost c = r@;
    if scored > 0 {
        r.append("<div class=\"fvar-when\">");
        push_dec(&mut r, scored as u64);
        r.append(" scored</div>");
    }
    let ghost e = r@;
    r.append("</span><span class=\"fnum\">");
    let k = m.key();
    let at = score_row_exec(s, "variant", k.as_str());
    push_imp(&mut r, at, cells);
    r.append("</span></div>");
    proof {
        if m.summary@ == line@ {
            assert(b =~= a);
        }
        if scored == 0 {
            assert(e =~= c);
        }
        assert(r@ =~= var_row(*m, line@, *p, *s, *d, cells@));
    }
    out.append(r.as_str());
}

/// The manifests of `family`, as indices into `metas`.
fn mine_exec(metas: &[VariantMeta], family: &str) -> (r: Vec<usize>)
    ensures
        r@.map_values(|k: usize| metas@[k as int]) == mine_of(metas@, family@),
        forall|x: int| 0 <= x < r@.len() ==> r@[x] < metas@.len(),
{
    let mut out: Vec<usize> = Vec::new();
    let mut i: usize = 0;
    while i < metas.len()
        invariant
            i <= metas@.len(),
            out@.map_values(|k: usize| metas@[k as int]) == mine_of(metas@.take(i as int), family@),
            forall|x: int| 0 <= x < out@.len() ==> out@[x] < i,
        decreases metas.len() - i,
    {
        proof {
            assert(metas@.take(i + 1).drop_last() =~= metas@.take(i as int));
            assert(metas@.take(i + 1).last() == metas@[i as int]);
        }
        let ghost before = out@;
        if str_eq(metas[i].family.as_str(), family) {
            out.push(i);
            proof {
                assert(out@.map_values(|k: usize| metas@[k as int]) =~= before.map_values(
                    |k: usize| metas@[k as int],
                ).push(metas@[i as int]));
            }
        }
        i += 1;
    }
    proof {
        assert(metas@.take(metas@.len() as int) =~= metas@);
    }
    out
}

fn status_count_exec(metas: &[VariantMeta], idx: &[usize], st: &str) -> (r: usize)
    requires
        forall|x: int| 0 <= x < idx@.len() ==> idx@[x] < metas@.len(),
    ensures
        r == status_count(idx@.map_values(|k: usize| metas@[k as int]), st@),
        r <= idx@.len(),
{
    let ghost ms = idx@.map_values(|k: usize| metas@[k as int]);
    let mut n: usize = 0;
    let mut i: usize = 0;
    while i < idx.len()
        invariant
            i <= idx@.len(),
            forall|x: int| 0 <= x < idx@.len() ==> idx@[x] < metas@.len(),
            ms == idx@.map_values(|k: usize| metas@[k as int]),
            n == status_count(ms.take(i as int), st@),
            n <= i,
        decreases idx.len() - i,
    {
        proof {
            assert(ms.take(i + 1).drop_last() =~= ms.take(i as int));
            assert(ms.take(i + 1).last() == metas@[idx@[i as int] as int]);
        }
        if str_eq(metas[idx[i]].status.as_str(), st) {
            n += 1;
        }
        i += 1;
    }
    proof {
        assert(ms.take(idx@.len() as int) =~= ms);
    }
    n
}

fn family_line_exec(metas: &[VariantMeta], idx: &[usize]) -> (r: (String, bool))
    requires
        forall|x: int| 0 <= x < idx@.len() ==> idx@[x] < metas@.len(),
    ensures
        r.0@ == family_line(idx@.map_values(|k: usize| metas@[k as int])),
        r.1 == first_index(idx@.len() as int, running_at(idx@.map_values(|k: usize| metas@[k as int]))) is Some,
{
    let ghost ms = idx@.map_values(|k: usize| metas@[k as int]);
    let mut i: usize = 0;
    while i < idx.len()
        invariant
            i <= idx@.len(),
            forall|x: int| 0 <= x < idx@.len() ==> idx@[x] < metas@.len(),
            ms == idx@.map_values(|k: usize| metas@[k as int]),
            forall|j: int| 0 <= j < i ==> !#[trigger] running_at(ms)(j),
        decreases idx.len() - i,
    {
        let m = &metas[idx[i]];
        proof {
            assert(ms[i as int] == *m);
        }
        if str_eq(m.status.as_str(), "trial") || str_eq(m.status.as_str(), "live") {
            proof {
                lemma_first_index_is(ms.len() as int, running_at(ms), i as int);
            }
            return (owned(m.summary.as_str()), true);
        }
        i += 1;
    }
    proof {
        lemma_first_index_none(ms.len() as int, running_at(ms));
    }
    if idx.len() == 0 {
        return (String::new(), false);
    }
    let mut k: usize = 0;
    let mut j: usize = 1;
    while j < idx.len()
        invariant
            1 <= j <= idx@.len(),
            forall|x: int| 0 <= x < idx@.len() ==> idx@[x] < metas@.len(),
            ms == idx@.map_values(|k: usize| metas@[k as int]),
            k as int == newest(ms, j as int),
            k < j,
        decreases idx.len() - j,
    {
        proof {
            assert(ms[k as int] == metas@[idx@[k as int] as int]);
            assert(ms[j as int] == metas@[idx@[j as int] as int]);
        }
        if str_le_exec(metas[idx[k]].created.as_str(), metas[idx[j]].created.as_str()) {
            k = j;
        }
        j += 1;
    }
    proof {
        assert(ms[k as int] == metas@[idx@[k as int] as int]);
    }
    (owned(metas[idx[k]].summary.as_str()), false)
}

#[verifier::rlimit(40)]
fn push_family_row(
    out: &mut String,
    family: &str,
    doc: &str,
    metas: &[VariantMeta],
    p: &Table,
    s: &Table,
    d: &Table,
    cells: &[(String, bool)],
)
    requires
        cells@.len() == s.rows@.len(),
    ensures
        final(out)@ == old(out)@ + family_row(family@, doc@, metas@, *p, *s, *d, cells@),
{
    let idx = mine_exec(metas, family);
    let ghost ms = idx@.map_values(|k: usize| metas@[k as int]);
    let (line, running) = family_line_exec(metas, idx.as_slice());
    let what = if line.as_str().is_empty() {
        let (opener, _) = plain_english(doc);
        clip(opener.as_str(), 130)
    } else {
        owned(line.as_str())
    };
    let mut r = owned("<details class=\"frow\"");
    let ghost a = r@;
    if running {
        r.append(" open");
    }
    let ghost b = r@;
    r.append("><summary><span class=\"fname\"><a class=\"flink\" href=\"/strategies/");
    push_esc(&mut r, family);
    r.append("\">");
    push_esc(&mut r, family);
    r.append("</a><span class=\"fvar-when\">");
    let c = count(idx.len(), "strategy");
    r.append(c.as_str());
    r.append("</span></span><span class=\"fsum\">");
    push_esc(&mut r, what.as_str());
    r.append("</span><span class=\"fnum\">");
    let ghost before_status = r@;
    if idx.len() == 0 {
        r.append("<span class=\"muted\">\u{2014}</span>");
    } else {
        let n_live = status_count_exec(metas, idx.as_slice(), "live");
        let n_trial = status_count_exec(metas, idx.as_slice(), "trial");
        if n_live > 0 {
            let mut t = String::new();
            push_dec(&mut t, n_live as u64);
            t.append(" live");
            let bd = badge(t.as_str(), "ok");
            r.append(bd.as_str());
        } else if n_trial > 0 {
            let mut t = String::new();
            push_dec(&mut t, n_trial as u64);
            t.append(" in trial");
            let bd = badge(t.as_str(), "warn");
            r.append(bd.as_str());
        } else {
            let bd = badge("dropped", "");
            r.append(bd.as_str());
        }
    }
    proof {
        reveal_strlit("");
        assert(Seq::<char>::empty() + " live"@ =~= " live"@);
        assert(r@ =~= before_status + family_status(ms));
    }
    r.append("</span><span class=\"fnum\">");
    let np = rows_matching_exec(p, "family", family, false, "", "");
    push_dec(&mut r, np as u64);
    r.append("</span><span class=\"fnum\">");
    let at = score_row_exec(s, "family", family);
    push_imp(&mut r, at, cells);
    r.append("</span></summary><div class=\"fvariants\">");
    let ghost start_vars = r@;
    let mut i: usize = 0;
    proof {
        assert(ms.take(0) =~= Seq::<VariantMeta>::empty());
    }
    while i < idx.len()
        invariant
            i <= idx@.len(),
            forall|x: int| 0 <= x < idx@.len() ==> idx@[x] < metas@.len(),
            ms == idx@.map_values(|k: usize| metas@[k as int]),
            cells@.len() == s.rows@.len(),
            r@ == start_vars + var_rows(ms.take(i as int), line@, *p, *s, *d, cells@),
        decreases idx.len() - i,
    {
        proof {
            assert(ms.take(i + 1).drop_last() =~= ms.take(i as int));
            assert(ms.take(i + 1).last() == metas@[idx@[i as int] as int]);
        }
        push_var_row(&mut r, &metas[idx[i]], line.as_str(), p, s, d, cells);
        i += 1;
    }
    proof {
        assert(ms.take(idx@.len() as int) =~= ms);
    }
    r.append("</div></details>");
    proof {
        if !running {
            assert(b =~= a);
        }
        assert(r@ =~= family_row(family@, doc@, metas@, *p, *s, *d, cells@));
    }
    out.append(r.as_str());
}

/// The body of `/strategies` (see `index_html`).
#[verifier::rlimit(60)]
pub fn index(
    families: &[String],
    family_docs: &[String],
    metas: &[VariantMeta],
    p: &Table,
    s: &Table,
    d: &Table,
    score_cells: &[(String, bool)],
    live: bool,
    banner: &str,
) -> (html: String)
    requires
        family_docs@.len() == families@.len(),
        score_cells@.len() == s.rows@.len(),
        families@.len() <= i64::MAX,
        metas@.len() <= i64::MAX,
        p.rows@.len() <= i64::MAX,
    ensures
        html@ == index_html(
            views(families@),
            views(family_docs@),
            metas@,
            *p,
            *s,
            *d,
            score_cells@,
            live,
            banner@,
        ),
{
    let stats = index_stats_exec(families.len(), metas, p.rows.len());
    let mut rows = String::new();
    let mut i: usize = 0;
    let ghost fs = views(families@);
    let ghost ds = views(family_docs@);
    proof {
        assert(fs.take(0) =~= Seq::<Seq<char>>::empty());
    }
    while i < families.len()
        invariant
            i <= families@.len(),
            family_docs@.len() == families@.len(),
            score_cells@.len() == s.rows@.len(),
            fs == views(families@),
            ds == views(family_docs@),
            rows@ == family_rows(fs.take(i as int), ds, metas@, *p, *s, *d, score_cells@),
        decreases families.len() - i,
    {
        proof {
            assert(fs.take(i + 1).drop_last() =~= fs.take(i as int));
            assert(fs.take(i + 1).last() == families@[i as int]@);
            assert(ds[i as int] == family_docs@[i as int]@);
        }
        push_family_row(
            &mut rows,
            families[i].as_str(),
            family_docs[i].as_str(),
            metas,
            p,
            s,
            d,
            score_cells,
        );
        i += 1;
    }
    proof {
        assert(fs.take(families@.len() as int) =~= fs);
    }
    let mut table = owned("<div class=\"ftable\">");
    table.append("<div class=\"fhead\"><span>Family</span><span>What it does</span><span>Status</span><span>Predictions</span><span>vs market</span></div>");
    table.append(rows.as_str());
    table.append("</div>");
    let sec = section_foot("Families", "click a family's name to open it, anywhere else on the row to see the strategies inside", "", table.as_str(), "<span class=\"mono\">strategies/&lt;family&gt;/&lt;variant&gt;/strategy.toml</span><span>improvement = how much better than the market's quoted price, per scored prediction — being right is not the same as being able to trade on it, so open a strategy for its reachable count</span>");
    let mut out = if live {
        String::new()
    } else {
        owned(banner)
    };
    out.append(stats.as_str());
    out.append(sec.as_str());
    proof {
        assert(out@ =~= index_html(fs, ds, metas@, *p, *s, *d, score_cells@, live, banner@));
    }
    out
}

fn push_stat_cell(out: &mut String, v: &str, label: &str, tone: &str)
    ensures
        final(out)@ == old(out)@ + stat_line_cell(v@, label@, tone@),
{
    let mut c = owned("<span class=\"stat\"><b class=\"stat-v");
    c.append(tone_class(tone));
    c.append("\">");
    c.append(v);
    c.append("</b><span class=\"stat-k\">");
    push_esc(&mut c, label);
    c.append("</span></span>");
    out.append(c.as_str());
}

fn index_stats_exec(n_fams: usize, metas: &[VariantMeta], n_preds: usize) -> (r: String)
    requires
        n_fams <= i64::MAX,
        metas@.len() <= i64::MAX,
        n_preds <= i64::MAX,
    ensures
        r@ == index_stats(n_fams as nat, metas@, n_preds as nat),
{
    let all: Vec<usize> = all_indices(metas.len());
    let trial = status_count_exec(metas, all.as_slice(), "trial");
    let live_n = status_count_exec(metas, all.as_slice(), "live");
    let retired = status_count_exec(metas, all.as_slice(), "retired");
    proof {
        assert(all@.map_values(|k: usize| metas@[k as int]) =~= metas@);
    }
    let mut out = owned("<div class=\"statline\">");
    let v = fmt_int(n_fams as i64);
    push_stat_cell(&mut out, v.as_str(), "families", "");
    let v = fmt_int(metas.len() as i64);
    push_stat_cell(&mut out, v.as_str(), "strategies", "");
    let v = fmt_int(trial as i64);
    push_stat_cell(&mut out, v.as_str(), "in trial", if trial > 0 { "warn" } else { "" });
    let v = fmt_int(live_n as i64);
    push_stat_cell(&mut out, v.as_str(), "live", if live_n > 0 { "ok" } else { "" });
    let v = fmt_int(retired as i64);
    push_stat_cell(&mut out, v.as_str(), "dropped", "");
    let v = fmt_int(n_preds as i64);
    push_stat_cell(&mut out, v.as_str(), "predictions logged", "");
    out.append("</div>");
    proof {
        reveal_strlit("");
    }
    out
}

fn all_indices(n: usize) -> (r: Vec<usize>)
    ensures
        r@.len() == n,
        forall|x: int| 0 <= x < n ==> r@[x] == x,
{
    let mut v: Vec<usize> = Vec::new();
    let mut i: usize = 0;
    while i < n
        invariant
            i <= n,
            v@.len() == i,
            forall|x: int| 0 <= x < i ==> v@[x] == x,
        decreases n - i,
    {
        v.push(i);
        i += 1;
    }
    v
}


// ---------------------------------------------------------------------------
// Predictions of a family or a strategy
// ---------------------------------------------------------------------------

/// A prediction row's figures as the page prints them: our probability,
/// the market's, and the edge (market minus ours).
pub struct PredFigs {
    pub ours: String,
    pub mkt: String,
    pub edge: String,
}

pub open spec fn same_pred(p: Table, prow: Seq<Seq<char>>, d: Table) -> spec_fn(int) -> bool {
    |j: int|
        cellv(d, grid(d.rows@)[j], "market_slug"@) == cellv(p, prow, "market_slug"@) && cellv(
            d,
            grid(d.rows@)[j],
            "outcome"@,
        ) == cellv(p, prow, "outcome"@) && cellv(d, grid(d.rows@)[j], "timestamp"@) == cellv(
            p,
            prow,
            "timestamp"@,
        )
}

/// The scored row of a prediction, if it was scored.
pub open spec fn score_of_pred(p: Table, prow: Seq<Seq<char>>, d: Table) -> Option<int> {
    first_index(d.rows@.len() as int, same_pred(p, prow, d))
}

pub open spec fn pred_cells(
    p: Table,
    d: Table,
    i: int,
    with_variant: bool,
    pf: Seq<PredFigs>,
    dc: Seq<(String, bool)>,
) -> Seq<Seq<char>> {
    let row = grid(p.rows@)[i];
    let slug = cellv(p, row, "market_slug"@);
    seq!["<span class=\"mono\">"@ + escaped(fmt_ts_of(cellv(p, row, "timestamp"@))) + "</span>"@]
        + (if with_variant {
        seq![
            "<a href=\"/strategies/"@ + escaped(cellv(p, row, "family"@)) + "/"@ + escaped(
                cellv(p, row, "variant"@),
            ) + "\">"@ + escaped(cellv(p, row, "variant"@)) + "</a>"@,
        ]
    } else {
        Seq::empty()
    }) + seq![
        "<a href=\"/markets/"@ + escaped(slug) + "\">"@ + escaped(slug) + "</a>"@,
        escaped(cellv(p, row, "outcome"@)),
        pf[i].ours@,
        pf[i].mkt@,
        pf[i].edge@,
        match score_of_pred(p, row, d) {
            Some(j) => badge_html(dc[j].0@, if dc[j].1 {
                "ok"@
            } else {
                "bad"@
            }),
            None => "<span class=\"muted\">open</span>"@,
        },
        "<span class=\"mono\">"@ + escaped(cellv(p, row, "model"@)) + "</span>"@,
    ]
}

pub open spec fn pred_head(with_variant: bool) -> Seq<(Seq<char>, Seq<char>)> {
    seq![("Logged"@, ""@)] + (if with_variant {
        seq![("Strategy"@, ""@)]
    } else {
        Seq::empty()
    }) + seq![
        ("Market"@, ""@),
        ("Outcome"@, ""@),
        ("Ours"@, "num"@),
        ("Market"@, "num"@),
        ("Edge"@, "num"@),
        ("Improvement"@, ""@),
        ("Model"@, ""@),
    ]
}

/// The predictions `rows` (indices into `p`), newest first, each with what
/// we said, what the market said and how it scored. `pf` holds each row's
/// figures (by index into `p`), `dc` each scored row's improvement and
/// whether it is above zero (by index into `d`).
pub open spec fn prediction_table_html(
    p: Table,
    d: Table,
    rows: Seq<usize>,
    with_variant: bool,
    pf: Seq<PredFigs>,
    dc: Seq<(String, bool)>,
) -> Seq<char> {
    if rows.len() == 0 {
        section_html(
            "Predictions"@,
            "rows logged against this family"@,
            ""@,
            "<div class=\"empty\"><strong>"@ + escaped("Nothing logged yet"@) + "</strong>"@ + ""@
                + "</div>"@,
            Seq::empty(),
        )
    } else {
        section_html(
            "Predictions"@,
            "every row logged, newest first \u{2014} ours against the market at the time"@,
            badge_html(count_of(rows.len(), "row"@), ""@),
            replace_first(
                table_of(
                    pred_head(with_variant),
                    rows.reverse().map_values(|i: usize| pred_cells(p, d, i as int, with_variant, pf, dc)),
                    "data"@,
                ),
                "<div class=\"table-wrap\">"@,
                "<div class=\"table-wrap table-scroll\">"@,
            ),
            Seq::empty(),
        )
    }
}

fn score_of_pred_exec(p: &Table, prow: &[String], d: &Table) -> (r: Option<usize>)
    ensures
        match r {
            Some(j) => score_of_pred(*p, views(prow@), *d) == Some(j as int) && j < d.rows@.len(),
            None => score_of_pred(*p, views(prow@), *d) is None,
        },
{
    let ghost pr = same_pred(*p, views(prow@), *d);
    let slug = p.cell(prow, "market_slug");
    let outcome = p.cell(prow, "outcome");
    let ts = p.cell(prow, "timestamp");
    let mut j: usize = 0;
    while j < d.rows.len()
        invariant
            j <= d.rows@.len(),
            pr == same_pred(*p, views(prow@), *d),
            slug@ == cellv(*p, views(prow@), "market_slug"@),
            outcome@ == cellv(*p, views(prow@), "outcome"@),
            ts@ == cellv(*p, views(prow@), "timestamp"@),
            forall|k: int| 0 <= k < j ==> !#[trigger] pr(k),
        decreases d.rows.len() - j,
    {
        let row = d.rows[j].as_slice();
        proof {
            assert(grid(d.rows@)[j as int] == views(row@));
        }
        if str_eq(d.cell(row, "market_slug"), slug) && str_eq(d.cell(row, "outcome"), outcome)
            && str_eq(d.cell(row, "timestamp"), ts) {
            proof {
                lemma_first_index_is(d.rows@.len() as int, pr, j as int);
            }
            return Some(j);
        }
        j += 1;
    }
    proof {
        lemma_first_index_none(d.rows@.len() as int, pr);
    }
    None
}

#[verifier::rlimit(40)]
fn pred_cells_exec(
    p: &Table,
    d: &Table,
    i: usize,
    with_variant: bool,
    pf: &[PredFigs],
    dc: &[(String, bool)],
) -> (r: Vec<String>)
    requires
        i < p.rows@.len(),
        pf@.len() == p.rows@.len(),
        dc@.len() == d.rows@.len(),
        fmt_ts_ok(cellv(*p, grid(p.rows@)[i as int], "timestamp"@)),
    ensures
        views(r@) == pred_cells(*p, *d, i as int, with_variant, pf@, dc@),
{
    let row = p.rows[i].as_slice();
    proof {
        assert(grid(p.rows@)[i as int] == views(row@));
    }
    let mut out: Vec<String> = Vec::new();
    let mut c0 = owned("<span class=\"mono\">");
    let ts = fmt_ts(p.cell(row, "timestamp"));
    push_esc(&mut c0, ts.as_str());
    c0.append("</span>");
    out.push(c0);
    if with_variant {
        let mut c = owned("<a href=\"/strategies/");
        push_esc(&mut c, p.cell(row, "family"));
        c.append("/");
        push_esc(&mut c, p.cell(row, "variant"));
        c.append("\">");
        push_esc(&mut c, p.cell(row, "variant"));
        c.append("</a>");
        out.push(c);
    }
    let slug = p.cell(row, "market_slug");
    let mut m = owned("<a href=\"/markets/");
    push_esc(&mut m, slug);
    m.append("\">");
    push_esc(&mut m, slug);
    m.append("</a>");
    out.push(m);
    out.push(esc(p.cell(row, "outcome")));
    out.push(owned(pf[i].ours.as_str()));
    out.push(owned(pf[i].mkt.as_str()));
    out.push(owned(pf[i].edge.as_str()));
    let sc = match score_of_pred_exec(p, row, d) {
        Some(j) => badge(dc[j].0.as_str(), if dc[j].1 {
            "ok"
        } else {
            "bad"
        }),
        None => owned("<span class=\"muted\">open</span>"),
    };
    out.push(sc);
    let mut md = owned("<span class=\"mono\">");
    push_esc(&mut md, p.cell(row, "model"));
    md.append("</span>");
    out.push(md);
    proof {
        assert(views(out@) =~= pred_cells(*p, *d, i as int, with_variant, pf@, dc@));
    }
    out
}

/// The predictions section of a family or strategy page (see
/// `prediction_table_html`).
pub fn prediction_table(
    p: &Table,
    d: &Table,
    rows: &[usize],
    with_variant: bool,
    pf: &[PredFigs],
    dc: &[(String, bool)],
) -> (r: String)
    requires
        pf@.len() == p.rows@.len(),
        dc@.len() == d.rows@.len(),
        forall|k: int| 0 <= k < rows@.len() ==> #[trigger] rows@[k] < p.rows@.len(),
        forall|k: int|
            0 <= k < rows@.len() ==> fmt_ts_ok(
                cellv(*p, grid(p.rows@)[#[trigger] rows@[k] as int], "timestamp"@),
            ),
    ensures
        r@ == prediction_table_html(*p, *d, rows@, with_variant, pf@, dc@),
{
    if rows.len() == 0 {
        let e = empty_state("Nothing logged yet", "");
        proof {
            reveal_strlit("");
        }
        return section("Predictions", "rows logged against this family", "", e.as_str());
    }
    let ghost want = rows@.reverse().map_values(
        |i: usize| pred_cells(*p, *d, i as int, with_variant, pf@, dc@),
    );
    let mut body: Vec<Vec<String>> = Vec::new();
    let n = rows.len();
    let mut k: usize = 0;
    while k < n
        invariant
            k <= n,
            n == rows@.len(),
            pf@.len() == p.rows@.len(),
            dc@.len() == d.rows@.len(),
            forall|x: int| 0 <= x < rows@.len() ==> #[trigger] rows@[x] < p.rows@.len(),
            forall|x: int|
                0 <= x < rows@.len() ==> fmt_ts_ok(
                    cellv(*p, grid(p.rows@)[#[trigger] rows@[x] as int], "timestamp"@),
                ),
            want == rows@.reverse().map_values(
                |i: usize| pred_cells(*p, *d, i as int, with_variant, pf@, dc@),
            ),
            body@.len() == k,
            forall|m: int| 0 <= m < k ==> (#[trigger] body@[m]).deep_view() == want[m],
        decreases n - k,
    {
        let i = rows[n - 1 - k];
        let cells = pred_cells_exec(p, d, i, with_variant, pf, dc);
        proof {
            assert(rows@.reverse()[k as int] == rows@[n - 1 - k]);
            assert(cells.deep_view() =~= views(cells@));
        }
        body.push(cells);
        k += 1;
    }
    let mut head: Vec<(&str, &str)> = Vec::new();
    head.push(("Logged", ""));
    if with_variant {
        head.push(("Strategy", ""));
    }
    head.push(("Market", ""));
    head.push(("Outcome", ""));
    head.push(("Ours", "num"));
    head.push(("Market", "num"));
    head.push(("Edge", "num"));
    head.push(("Improvement", ""));
    head.push(("Model", ""));
    let hs = head.as_slice();
    let bs = body.as_slice();
    proof {
        assert(hs.deep_view() =~= pred_head(with_variant));
        assert(bs.deep_view() =~~= want);
    }
    let t = table_scroll(hs, bs);
    let chip = badge(count(n, "row").as_str(), "");
    section(
        "Predictions",
        "every row logged, newest first \u{2014} ours against the market at the time",
        chip.as_str(),
        t.as_str(),
    )
}


// ---------------------------------------------------------------------------
// /strategies/<family>
// ---------------------------------------------------------------------------

/// A scoring row's figures as the page prints them: the mean improvement
/// and whether it is above zero, then the mean Brier score, the market's
/// and the mean log loss, each to four places.
pub struct ScoreFigs {
    pub imp: String,
    pub up: bool,
    pub brier: String,
    pub market_brier: String,
    pub logloss: String,
}

/// A family or strategy page: whether it carries a tab bar (an unknown or
/// missing one does not), the breadcrumb's last crumb ("" on the default tab),
/// the tab bar, the body, and whether everything on it was read live.
pub struct DetailPage {
    pub tabbed: bool,
    pub leaf: String,
    pub bar: String,
    pub body: String,
    pub live: bool,
}

/// The indices below `n` at which `keep` holds, in order.
pub open spec fn indices_where(n: nat, keep: spec_fn(int) -> bool) -> Seq<usize>
    decreases n,
{
    if n == 0 {
        Seq::empty()
    } else {
        indices_where((n - 1) as nat, keep) + if keep(n - 1) {
            seq![(n - 1) as usize]
        } else {
            Seq::empty()
        }
    }
}

pub proof fn lemma_indices_where_bound(n: nat, keep: spec_fn(int) -> bool)
    requires
        n <= usize::MAX,
    ensures
        indices_where(n, keep).len() <= n,
        forall|k: int|
            0 <= k < indices_where(n, keep).len() ==> #[trigger] indices_where(n, keep)[k] < n
                && keep(indices_where(n, keep)[k] as int),
    decreases n,
{
    if n > 0 {
        let m = (n - 1) as nat;
        lemma_indices_where_bound(m, keep);
        let a = indices_where(m, keep);
        let tail: Seq<usize> = if keep(m as int) {
            seq![m as usize]
        } else {
            Seq::empty()
        };
        assert forall|k: int| 0 <= k < indices_where(n, keep).len() implies #[trigger] indices_where(
            n,
            keep,
        )[k] < n && keep(indices_where(n, keep)[k] as int) by {
            if k < a.len() {
                assert(indices_where(n, keep)[k] == a[k]);
            } else {
                assert(indices_where(n, keep)[k] == tail[k - a.len()]);
            }
        }
    }
}

/// A prediction row logged by the family.
pub open spec fn of_family(p: Table, family: Seq<char>) -> spec_fn(int) -> bool {
    |i: int| cellv(p, grid(p.rows@)[i], "family"@) == family
}

/// A scoring row of the family itself or of one of its strategies.
pub open spec fn scores_family(s: Table, family: Seq<char>) -> spec_fn(int) -> bool {
    |i: int|
        {
            let level = cellv(s, grid(s.rows@)[i], "level"@);
            let key = cellv(s, grid(s.rows@)[i], "key"@);
            (level == "family"@ && key == family) || (level == "variant"@ && starts_with(
                key,
                family + "/"@,
            ))
        }
}

/// The family's own scoring row.
pub open spec fn family_scored(s: Table, family: Seq<char>) -> spec_fn(int) -> bool {
    |i: int|
        cellv(s, grid(s.rows@)[i], "level"@) == "family"@ && cellv(s, grid(s.rows@)[i], "key"@)
            == family
}

pub open spec fn logged_rows(p: Table, family: Seq<char>) -> Seq<usize> {
    indices_where(p.rows@.len(), of_family(p, family))
}

pub open spec fn scoring_rows(s: Table, family: Seq<char>) -> Seq<usize> {
    indices_where(s.rows@.len(), scores_family(s, family))
}

fn logged_rows_exec(p: &Table, family: &str) -> (r: Vec<usize>)
    ensures
        r@ == logged_rows(*p, family@),
{
    let ghost keep = of_family(*p, family@);
    let mut out: Vec<usize> = Vec::new();
    let mut i: usize = 0;
    while i < p.rows.len()
        invariant
            i <= p.rows@.len(),
            keep == of_family(*p, family@),
            out@ == indices_where(i as nat, keep),
        decreases p.rows.len() - i,
    {
        let row = p.rows[i].as_slice();
        proof {
            assert(grid(p.rows@)[i as int] == views(row@));
        }
        if str_eq(p.cell(row, "family"), family) {
            out.push(i);
        }
        proof {
            assert(out@ =~= indices_where((i + 1) as nat, keep));
        }
        i += 1;
    }
    out
}

fn scoring_rows_exec(s: &Table, family: &str) -> (r: Vec<usize>)
    ensures
        r@ == scoring_rows(*s, family@),
{
    let ghost keep = scores_family(*s, family@);
    let mut prefix = owned(family);
    prefix.append("/");
    let mut out: Vec<usize> = Vec::new();
    let mut i: usize = 0;
    while i < s.rows.len()
        invariant
            i <= s.rows@.len(),
            keep == scores_family(*s, family@),
            prefix@ == family@ + "/"@,
            out@ == indices_where(i as nat, keep),
        decreases s.rows.len() - i,
    {
        let row = s.rows[i].as_slice();
        proof {
            assert(grid(s.rows@)[i as int] == views(row@));
        }
        let level = s.cell(row, "level");
        let key = s.cell(row, "key");
        if (str_eq(level, "family") && str_eq(key, family)) || (str_eq(level, "variant")
            && str_starts_with(key, prefix.as_str())) {
            out.push(i);
        }
        proof {
            assert(out@ =~= indices_where((i + 1) as nat, keep));
        }
        i += 1;
    }
    out
}

fn family_scored_exec(s: &Table, family: &str) -> (r: Option<usize>)
    ensures
        match r {
            Some(j) => first_index(s.rows@.len() as int, family_scored(*s, family@)) == Some(
                j as int,
            ) && j < s.rows@.len(),
            None => first_index(s.rows@.len() as int, family_scored(*s, family@)) is None,
        },
{
    let ghost keep = family_scored(*s, family@);
    let mut i: usize = 0;
    while i < s.rows.len()
        invariant
            i <= s.rows@.len(),
            keep == family_scored(*s, family@),
            forall|k: int| 0 <= k < i ==> !#[trigger] keep(k),
        decreases s.rows.len() - i,
    {
        let row = s.rows[i].as_slice();
        proof {
            assert(grid(s.rows@)[i as int] == views(row@));
        }
        if str_eq(s.cell(row, "level"), "family") && str_eq(s.cell(row, "key"), family) {
            proof {
                lemma_first_index_is(s.rows@.len() as int, keep, i as int);
            }
            return Some(i);
        }
        i += 1;
    }
    proof {
        lemma_first_index_none(s.rows@.len() as int, keep);
    }
    None
}


/// The family page's tab links: Overview always, How it works when the
/// family document has prose, Predictions (with the family's row count)
/// when there are predictions or scores.
pub open spec fn family_links(
    page: Seq<char>,
    prose: bool,
    preds: bool,
    n: nat,
    active: Seq<char>,
) -> Seq<Seq<char>> {
    seq![tab_link(page, ""@, "Overview"@, Seq::empty(), active)] + (if prose {
        seq![tab_link(page, "how-it-works"@, "How it works"@, Seq::empty(), active)]
    } else {
        Seq::empty()
    }) + (if preds {
        seq![tab_link(page, "predictions"@, "Predictions"@, dec(n), active)]
    } else {
        Seq::empty()
    })
}

/// The tab shown: the requested one when the page has it, else Overview.
pub open spec fn family_active(want: Seq<char>, prose: bool, preds: bool) -> Seq<char> {
    if prose && want == "how-it-works"@ {
        want
    } else if preds && want == "predictions"@ {
        want
    } else {
        Seq::empty()
    }
}

/// The breadcrumb's last crumb for the tab shown.
pub open spec fn family_leaf(active: Seq<char>) -> Seq<char> {
    if active == "how-it-works"@ {
        "How it works"@
    } else if active == "predictions"@ {
        "Predictions"@
    } else {
        Seq::empty()
    }
}

/// The stat line: strategies, predictions, how many were scored and the
/// family's mean improvement over the market.
pub open spec fn family_stats(
    nv: nat,
    np: nat,
    s: Table,
    sc: Seq<ScoreFigs>,
    fs: Option<int>,
) -> Seq<char> {
    "<div class=\"statline\">"@ + stat_line_cell(
        fmt_int_of(nv as int),
        if nv == 1 {
            "strategy"@
        } else {
            "strategies"@
        },
        ""@,
    ) + stat_line_cell(fmt_int_of(np as int), "predictions"@, ""@) + stat_line_cell(
        match fs {
            Some(j) => cellv(s, grid(s.rows@)[j], "n"@),
            None => "0"@,
        },
        "scored"@,
        ""@,
    ) + stat_line_cell(
        match fs {
            Some(j) => sc[j].imp@,
            None => "\u{2014}"@,
        },
        "better than the market, per prediction"@,
        match fs {
            Some(j) => if sc[j].up {
                "ok"@
            } else {
                "bad"@
            },
            None => ""@,
        },
    ) + "</div>"@
}

pub open spec fn scoring_cells(s: Table, j: int, sc: Seq<ScoreFigs>) -> Seq<Seq<char>> {
    let key = cellv(s, grid(s.rows@)[j], "key"@);
    seq![
        escaped(cellv(s, grid(s.rows@)[j], "level"@)),
        "<a href=\"/strategies/"@ + escaped(key) + "\">"@ + escaped(key) + "</a>"@,
        cellv(s, grid(s.rows@)[j], "n"@),
        badge_html(sc[j].imp@, if sc[j].up {
            "ok"@
        } else {
            "bad"@
        }),
        sc[j].brier@,
        sc[j].market_brier@,
        sc[j].logloss@,
    ]
}

pub open spec fn scoring_head() -> Seq<(Seq<char>, Seq<char>)> {
    seq![
        ("Level"@, ""@),
        ("Key"@, ""@),
        ("n"@, "num"@),
        ("Improvement"@, "num"@),
        ("Brier"@, "num"@),
        ("Market Brier"@, "num"@),
        ("Log loss"@, "num"@),
    ]
}

/// The scoring section of a family: its own row and its strategies' rows,
/// nothing when there are none.
pub open spec fn scoring_html(s: Table, rows: Seq<usize>, sc: Seq<ScoreFigs>) -> Seq<char> {
    if rows.len() == 0 {
        Seq::empty()
    } else {
        section_html(
            "Scoring"@,
            "the family and each strategy in it \u{2014} lower Brier is better, improvement is the gap to the market"@,
            badge_html(count_of(rows.len(), "row"@), ""@),
            table_of(
                scoring_head(),
                rows.map_values(|j: usize| scoring_cells(s, j as int, sc)),
                "data"@,
            ),
            Seq::empty(),
        )
    }
}

/// A strategy's line under its family: where it stands and how many
/// predictions it has logged.
pub open spec fn family_when(m: VariantMeta, n: nat) -> Seq<char> {
    let tail = " \u{b7} "@ + dec(n) + " predictions"@;
    if m.status@ == "retired"@ && m.retired_on@.len() > 0 {
        "dropped "@ + m.retired_on@ + tail
    } else if m.status@ == "trial"@ && m.review_due@.len() > 0 {
        "review due "@ + m.review_due@ + tail
    } else {
        "created "@ + m.created@ + tail
    }
}

pub open spec fn family_item(m: VariantMeta, family: Seq<char>, p: Table) -> Seq<char> {
    let n = rows_matching(p, grid(p.rows@), "family"@, family, true, "variant"@, m.variant@);
    item_html(
        "/strategies/"@ + m.family@ + "/"@ + m.variant@,
        escaped(m.variant@),
        "<span class=\"item-summary\">"@ + escaped(m.summary@) + "</span>"@ + escaped(
            family_when(m, n),
        ),
        badge_html(m.status@, status_tone_of(m.status@)),
    )
}

/// The Overview tab: the plain-English lede, then the family's strategies.
pub open spec fn family_overview(
    family: Seq<char>,
    lede: Seq<char>,
    metas: Seq<VariantMeta>,
    p: Table,
) -> Seq<char> {
    lede_of(
        lede,
        "No plain-English description yet \u{2014} <span class=\"mono\">strategies/"@ + family
            + "/FAMILY.md</span> does not open with its required <span class=\"mono\">&gt; **In plain English:**</span> paragraph."@,
    ) + section_html(
        "Strategies in this family"@,
        "each one is a separate experiment with its own clock"@,
        badge_html(count_of(metas.len(), "variant"@), ""@),
        "<div class=\"items\">"@ + concat(metas.map_values(|m: VariantMeta| family_item(m, family, p)))
            + "</div>"@,
        Seq::empty(),
    )
}

/// The How it works tab: the family document's prose.
pub open spec fn family_how(family: Seq<char>, prose: Seq<char>) -> Seq<char> {
    section_html(
        ""@,
        ""@,
        ""@,
        "<div class=\"prose\">"@ + prose + "</div>"@,
        "<div class=\"sec-foot\">"@ + "<span class=\"mono\">strategies/"@ + family
            + "/FAMILY.md</span><span>written for the firm \u{2014} the plain-English version opens <a href=\"/strategies/"@
            + family + "\">Overview</a></span>"@ + "</div>"@,
    )
}


fn family_stats_exec(
    nv: usize,
    np: usize,
    s: &Table,
    sc: &[ScoreFigs],
    fs: Option<usize>,
) -> (r: String)
    requires
        nv <= i64::MAX,
        np <= i64::MAX,
        sc@.len() == s.rows@.len(),
        match fs {
            Some(j) => j < s.rows@.len(),
            None => true,
        },
    ensures
        r@ == family_stats(
            nv as nat,
            np as nat,
            *s,
            sc@,
            match fs {
                Some(j) => Some(j as int),
                None => None,
            },
        ),
{
    let a = fmt_int(nv as i64);
    let b = fmt_int(np as i64);
    let (n, imp, tone): (String, String, &str) = match fs {
        Some(j) => {
            let row = s.rows[j].as_slice();
            proof {
                assert(grid(s.rows@)[j as int] == views(row@));
            }
            (owned(s.cell(row, "n")), owned(sc[j].imp.as_str()), if sc[j].up {
                "ok"
            } else {
                "bad"
            })
        },
        None => (owned("0"), owned("\u{2014}"), ""),
    };
    let mut items: Vec<(String, String, &str)> = Vec::new();
    items.push((a, owned(if nv == 1 {
        "strategy"
    } else {
        "strategies"
    }), ""));
    items.push((b, owned("predictions"), ""));
    items.push((n, owned("scored"), ""));
    items.push((imp, owned("better than the market, per prediction"), tone));
    let r = stat_line(items.as_slice());
    proof {
        let cells = items@.map_values(
            |t: (String, String, &str)| stat_line_cell(t.0@, t.1@, t.2@),
        );
        assert(cells.take(0) =~= Seq::<Seq<char>>::empty());
        lemma_concat_take(cells, 0);
        lemma_concat_take(cells, 1);
        lemma_concat_take(cells, 2);
        lemma_concat_take(cells, 3);
        lemma_concat_all(cells);
        assert(concat(cells) =~= cells[0] + cells[1] + cells[2] + cells[3]);
    }
    r
}

fn scoring_exec(s: &Table, rows: &[usize], sc: &[ScoreFigs]) -> (r: String)
    requires
        sc@.len() == s.rows@.len(),
        forall|k: int| 0 <= k < rows@.len() ==> #[trigger] rows@[k] < s.rows@.len(),
    ensures
        r@ == scoring_html(*s, rows@, sc@),
{
    if rows.len() == 0 {
        return String::new();
    }
    let ghost want = rows@.map_values(|j: usize| scoring_cells(*s, j as int, sc@));
    let mut body: Vec<Vec<String>> = Vec::new();
    let mut k: usize = 0;
    while k < rows.len()
        invariant
            k <= rows@.len(),
            sc@.len() == s.rows@.len(),
            forall|x: int| 0 <= x < rows@.len() ==> #[trigger] rows@[x] < s.rows@.len(),
            want == rows@.map_values(|j: usize| scoring_cells(*s, j as int, sc@)),
            body@.len() == k,
            forall|m: int| 0 <= m < k ==> (#[trigger] body@[m]).deep_view() == want[m],
        decreases rows.len() - k,
    {
        let j = rows[k];
        let row = s.rows[j].as_slice();
        proof {
            assert(grid(s.rows@)[j as int] == views(row@));
        }
        let key = s.cell(row, "key");
        let mut cells: Vec<String> = Vec::new();
        cells.push(esc(s.cell(row, "level")));
        let mut a = owned("<a href=\"/strategies/");
        push_esc(&mut a, key);
        a.append("\">");
        push_esc(&mut a, key);
        a.append("</a>");
        cells.push(a);
        cells.push(owned(s.cell(row, "n")));
        cells.push(badge(sc[j].imp.as_str(), if sc[j].up {
            "ok"
        } else {
            "bad"
        }));
        cells.push(owned(sc[j].brier.as_str()));
        cells.push(owned(sc[j].market_brier.as_str()));
        cells.push(owned(sc[j].logloss.as_str()));
        proof {
            assert(cells.deep_view() =~= scoring_cells(*s, j as int, sc@));
        }
        body.push(cells);
        k += 1;
    }
    let mut head: Vec<(&str, &str)> = Vec::new();
    head.push(("Level", ""));
    head.push(("Key", ""));
    head.push(("n", "num"));
    head.push(("Improvement", "num"));
    head.push(("Brier", "num"));
    head.push(("Market Brier", "num"));
    head.push(("Log loss", "num"));
    let hs = head.as_slice();
    let bs = body.as_slice();
    proof {
        assert(hs.deep_view() =~= scoring_head());
        assert(bs.deep_view() =~~= want);
    }
    let t = table(hs, bs);
    let chip = badge(count(rows.len(), "row").as_str(), "");
    section(
        "Scoring",
        "the family and each strategy in it \u{2014} lower Brier is better, improvement is the gap to the market",
        chip.as_str(),
        t.as_str(),
    )
}

fn push_family_item(out: &mut String, m: &VariantMeta, family: &str, p: &Table)
    ensures
        final(out)@ == old(out)@ + family_item(*m, family@, *p),
{
    let n = rows_matching_exec(p, "family", family, true, "variant", m.variant.as_str());
    let mut w = if str_eq(m.status.as_str(), "retired") && !m.retired_on.as_str().is_empty() {
        let mut w = owned("dropped ");
        w.append(m.retired_on.as_str());
        w
    } else if str_eq(m.status.as_str(), "trial") && !m.review_due.as_str().is_empty() {
        let mut w = owned("review due ");
        w.append(m.review_due.as_str());
        w
    } else {
        let mut w = owned("created ");
        w.append(m.created.as_str());
        w
    };
    w.append(" \u{b7} ");
    push_dec(&mut w, n as u64);
    w.append(" predictions");
    let h = m.href();
    let title = esc(m.variant.as_str());
    let mut sub = owned("<span class=\"item-summary\">");
    push_esc(&mut sub, m.summary.as_str());
    sub.append("</span>");
    push_esc(&mut sub, w.as_str());
    let b = status_badge(m.status.as_str());
    let it = item(h.as_str(), title.as_str(), sub.as_str(), b.as_str());
    proof {
        assert(w@ =~= family_when(*m, n as nat));
    }
    out.append(it.as_str());
}

fn family_overview_exec(family: &str, fam_lede: &str, metas: &[VariantMeta], p: &Table) -> (r: String)
    ensures
        r@ == family_overview(family@, fam_lede@, metas@, *p),
{
    let mut missing = owned("No plain-English description yet \u{2014} <span class=\"mono\">strategies/");
    missing.append(family);
    missing.append(
        "/FAMILY.md</span> does not open with its required <span class=\"mono\">&gt; **In plain English:**</span> paragraph.",
    );
    let l = lede(fam_lede, missing.as_str());
    let ghost cells = metas@.map_values(|m: VariantMeta| family_item(m, family@, *p));
    let mut list = owned("<div class=\"items\">");
    let ghost start = list@;
    let mut i: usize = 0;
    while i < metas.len()
        invariant
            i <= metas@.len(),
            cells == metas@.map_values(|m: VariantMeta| family_item(m, family@, *p)),
            list@ == start + concat(cells.take(i as int)),
        decreases metas.len() - i,
    {
        push_family_item(&mut list, &metas[i], family, p);
        proof {
            lemma_concat_take(cells, i as int);
        }
        i += 1;
    }
    proof {
        lemma_concat_all(cells);
    }
    list.append("</div>");
    let chip = badge(count(metas.len(), "variant").as_str(), "");
    let sec = section(
        "Strategies in this family",
        "each one is a separate experiment with its own clock",
        chip.as_str(),
        list.as_str(),
    );
    let mut out = l;
    out.append(sec.as_str());
    out
}

fn family_how_exec(family: &str, prose: &str) -> (r: String)
    ensures
        r@ == family_how(family@, prose@),
{
    let mut body = owned("<div class=\"prose\">");
    body.append(prose);
    body.append("</div>");
    let mut foot = owned("<span class=\"mono\">strategies/");
    foot.append(family);
    foot.append(
        "/FAMILY.md</span><span>written for the firm \u{2014} the plain-English version opens <a href=\"/strategies/",
    );
    foot.append(family);
    foot.append("\">Overview</a></span>");
    section_foot("", "", "", body.as_str(), foot.as_str())
}


/// The family document's prose, without its plain-English lede and title.
pub open spec fn family_prose(doc: Seq<char>) -> Seq<char> {
    markdown_html(markdown_body_src(plain_english_of(doc).1))
}

/// Whether the family page has a Predictions tab.
pub open spec fn family_has_preds(family: Seq<char>, p: Table, s: Table) -> bool {
    logged_rows(p, family).len() > 0 || scoring_rows(s, family).len() > 0
}

/// The tab a family page shows for the requested `want`.
pub open spec fn family_page_tab(
    family: Seq<char>,
    want: Seq<char>,
    doc: Seq<char>,
    p: Table,
    s: Table,
) -> Seq<char> {
    family_active(
        want,
        trim(family_prose(doc)).len() != 0,
        family_has_preds(family, p, s),
    )
}

pub open spec fn family_content(
    family: Seq<char>,
    active: Seq<char>,
    doc: Seq<char>,
    metas: Seq<VariantMeta>,
    p: Table,
    s: Table,
    d: Table,
    sc: Seq<ScoreFigs>,
    pf: Seq<PredFigs>,
    dc: Seq<(String, bool)>,
) -> Seq<char> {
    if active == "how-it-works"@ {
        family_how(family, family_prose(doc))
    } else if active == "predictions"@ {
        scoring_html(s, scoring_rows(s, family), sc) + prediction_table_html(
            p,
            d,
            logged_rows(p, family),
            true,
            pf,
            dc,
        )
    } else {
        family_overview(family, plain_english_of(doc).0, metas, p)
    }
}

/// The body of a family page that has one: the banner when something was
/// not read live, the stat line, then the tab's content.
pub open spec fn family_body(
    family: Seq<char>,
    want: Seq<char>,
    doc: Seq<char>,
    metas: Seq<VariantMeta>,
    p: Table,
    s: Table,
    d: Table,
    sc: Seq<ScoreFigs>,
    pf: Seq<PredFigs>,
    dc: Seq<(String, bool)>,
    live: bool,
    banner: Seq<char>,
) -> Seq<char> {
    (if live {
        Seq::empty()
    } else {
        banner
    }) + family_stats(
        metas.len(),
        logged_rows(p, family).len(),
        s,
        sc,
        first_index(s.rows@.len() as int, family_scored(s, family)),
    ) + family_content(family, family_page_tab(family, want, doc, p, s), doc, metas, p, s, d, sc, pf, dc)
}

/// What a family page says when the family has no document.
pub open spec fn family_missing(family: Seq<char>) -> Seq<char> {
    section_html(
        "Family not found"@,
        "strategies/"@ + family + "/FAMILY.md"@,
        ""@,
        "<div class=\"empty\"><strong>"@ + escaped("Nothing here"@) + "</strong>"@
            + "<div>No such family in the repo. <a class=\"link\" href=\"/strategies\">Back to strategies</a>.</div>"@
            + "</div>"@,
        Seq::empty(),
    )
}

fn blank_text(t: &str) -> (r: bool)
    ensures
        r == (trim(t@).len() == 0),
{
    let cs = chars_of(t);
    proof {
        assert(cs@.subrange(0, cs@.len() as int) =~= cs@);
    }
    let (a, b) = trim_window(&cs, 0, cs.len());
    a == b
}


fn family_bar(page: &str, prose: bool, preds: bool, n: usize, active: &str) -> (r: String)
    ensures
        r@ == subbar(concat(family_links(page@, prose, preds, n as nat, active@))),
{
    let mut tabs: Vec<Tab> = Vec::new();
    tabs.push(tab("", "Overview"));
    if prose {
        tabs.push(tab("how-it-works", "How it works"));
    }
    if preds {
        tabs.push(tab_n("predictions", "Predictions", n));
    }
    let r = tabbar(page, tabs.as_slice(), active);
    proof {
        assert(tab_links(page@, tabs@, active@) =~= family_links(page@, prose, preds, n as nat, active@));
    }
    r
}

/// The family's page (see `family_body`): an unknown family (a name that
/// could climb out of its directory) gets a bare notice, a family with no
/// document gets a not-found section, any other gets its tabs. `sc`, `pf`
/// and `dc` hold the printed figures of each row of the scores, the
/// predictions and the scored predictions, by row.
#[verifier::rlimit(60)]
pub fn family(
    name: &str,
    want_tab: &Option<String>,
    fam_doc: &str,
    metas: &[VariantMeta],
    p: &Table,
    s: &Table,
    d: &Table,
    sc: &[ScoreFigs],
    pf: &[PredFigs],
    dc: &[(String, bool)],
    live: bool,
    banner: &str,
) -> (r: DetailPage)
    requires
        metas@.len() <= i64::MAX,
        p.rows@.len() <= i64::MAX,
        sc@.len() == s.rows@.len(),
        pf@.len() == p.rows@.len(),
        dc@.len() == d.rows@.len(),
        ({
            let want = match want_tab {
                Some(w) => w@,
                None => Seq::<char>::empty(),
            };
            family_page_tab(name@, want, fam_doc@, *p, *s) == "predictions"@ ==> forall|k: int|
                0 <= k < logged_rows(*p, name@).len() ==> fmt_ts_ok(
                    cellv(
                        *p,
                        grid(p.rows@)[#[trigger] logged_rows(*p, name@)[k] as int],
                        "timestamp"@,
                    ),
                )
        }),
    ensures
        r.tabbed == (is_safe_segment(name@) && trim(fam_doc@).len() != 0),
        !is_safe_segment(name@) ==> r.live && r.leaf@.len() == 0 && r.bar@.len() == 0
            && r.body@ == "<div class=\"empty\"><strong>"@ + escaped("Unknown family"@)
            + "</strong>"@ + ""@ + "</div>"@,
        is_safe_segment(name@) && trim(fam_doc@).len() == 0 ==> r.live == live
            && r.leaf@.len() == 0 && r.bar@.len() == 0 && r.body@ == family_missing(name@),
        ({
            let want = match want_tab {
                Some(w) => w@,
                None => Seq::<char>::empty(),
            };
            let active = family_page_tab(name@, want, fam_doc@, *p, *s);
            r.tabbed ==> r.live == live && r.leaf@ == family_leaf(active) && r.bar@ == subbar(
                concat(
                    family_links(
                        "/strategies/"@ + name@,
                        trim(family_prose(fam_doc@)).len() != 0,
                        family_has_preds(name@, *p, *s),
                        logged_rows(*p, name@).len(),
                        active,
                    ),
                ),
            ) && r.body@ == family_body(
                name@,
                want,
                fam_doc@,
                metas@,
                *p,
                *s,
                *d,
                sc@,
                pf@,
                dc@,
                live,
                banner@,
            )
        }),
{
    proof {
        reveal_strlit("");
        reveal_strlit("how-it-works");
        reveal_strlit("predictions");
    }
    if !safe_segment(name) {
        let body = empty_state("Unknown family", "");
        return DetailPage {
            tabbed: false,
            leaf: String::new(),
            bar: String::new(),
            body,
            live: true,
        };
    }
    if blank_text(fam_doc) {
        let mut path = owned("strategies/");
        path.append(name);
        path.append("/FAMILY.md");
        let e = empty_state(
            "Nothing here",
            "<div>No such family in the repo. <a class=\"link\" href=\"/strategies\">Back to strategies</a>.</div>",
        );
        let body = section("Family not found", path.as_str(), "", e.as_str());
        return DetailPage { tabbed: false, leaf: String::new(), bar: String::new(), body, live };
    }
    let ghost want = match want_tab {
        Some(w) => w@,
        None => Seq::<char>::empty(),
    };
    let rows = logged_rows_exec(p, name);
    let scoring = scoring_rows_exec(s, name);
    let np = p.rows.len();
    let ns = s.rows.len();
    proof {
        lemma_indices_where_bound(np as nat, of_family(*p, name@));
        lemma_indices_where_bound(ns as nat, scores_family(*s, name@));
    }
    let (fam_lede, fam_rest) = plain_english(fam_doc);
    let prose = markdown_body(fam_rest.as_str());
    let has_prose = !blank_text(prose.as_str());
    let has_preds = rows.len() > 0 || scoring.len() > 0;
    let w: &str = match want_tab {
        Some(x) => x.as_str(),
        None => "",
    };
    proof {
        assert(w@ == want);
    }
    let (active, leaf): (&str, &str) = if has_prose && str_eq(w, "how-it-works") {
        ("how-it-works", "How it works")
    } else if has_preds && str_eq(w, "predictions") {
        ("predictions", "Predictions")
    } else {
        ("", "")
    };
    let ghost act = family_page_tab(name@, want, fam_doc@, *p, *s);
    proof {
        assert(has_preds == family_has_preds(name@, *p, *s));
        assert(has_prose == (trim(family_prose(fam_doc@)).len() != 0));
        assert(active@ == act);
        assert(leaf@ == family_leaf(act));
    }
    let mut page = owned("/strategies/");
    page.append(name);
    let bar = family_bar(page.as_str(), has_prose, has_preds, rows.len(), active);
    let fs = family_scored_exec(s, name);
    let stats = family_stats_exec(metas.len(), rows.len(), s, sc, fs);
    let content = if str_eq(active, "how-it-works") {
        family_how_exec(name, prose.as_str())
    } else if str_eq(active, "predictions") {
        let mut c = scoring_exec(s, scoring.as_slice(), sc);
        let t = prediction_table(p, d, rows.as_slice(), true, pf, dc);
        c.append(t.as_str());
        c
    } else {
        family_overview_exec(name, fam_lede.as_str(), metas, p)
    };
    let mut body = if live {
        String::new()
    } else {
        owned(banner)
    };
    body.append(stats.as_str());
    body.append(content.as_str());
    proof {
        assert(content@ == family_content(name@, act, fam_doc@, metas@, *p, *s, *d, sc@, pf@, dc@));
        assert(stats@ == family_stats(
            metas@.len(),
            logged_rows(*p, name@).len(),
            *s,
            sc@,
            first_index(s.rows@.len() as int, family_scored(*s, name@)),
        ));
    }
    DetailPage { tabbed: true, leaf: owned(leaf), bar, body, live }
}


// ---------------------------------------------------------------------------
// /strategies/<family>/<variant>
// ---------------------------------------------------------------------------

/// A path's last segment (`rsplit('/').next()`).
pub open spec fn base_name(path: Seq<char>) -> Seq<char> {
    match last_index(path.len() as int, |i: int| path[i] == '/') {
        Some(i) => path.skip(i + 1),
        None => path,
    }
}

pub fn file_name(path: &str) -> (r: String)
    ensures
        r@ == base_name(path@),
{
    let cs = chars_of(path);
    let ghost pr = |i: int| path@[i] == '/';
    let mut j: usize = cs.len();
    while j > 0
        invariant
            j <= cs@.len(),
            cs@ == path@,
            pr == (|i: int| path@[i] == '/'),
            forall|k: int| j <= k < cs@.len() ==> !#[trigger] pr(k),
        decreases j,
    {
        if cs[j - 1] == '/' {
            proof {
                lemma_last_index_is(cs@.len() as int, pr, j - 1);
            }
            return string_of(&cs, j, cs.len());
        }
        j -= 1;
    }
    proof {
        lemma_last_index_none(cs@.len() as int, pr);
        assert(cs@.subrange(0, cs@.len() as int) =~= path@);
    }
    string_of(&cs, 0, cs.len())
}

/// A row of the strategy `family/variant` (of the predictions or of the
/// scored predictions).
pub open spec fn of_variant(t: Table, family: Seq<char>, variant: Seq<char>) -> spec_fn(
    int,
) -> bool {
    |i: int|
        cellv(t, grid(t.rows@)[i], "family"@) == family && cellv(t, grid(t.rows@)[i], "variant"@)
            == variant
}

pub open spec fn variant_rows(t: Table, family: Seq<char>, variant: Seq<char>) -> Seq<usize> {
    indices_where(t.rows@.len(), of_variant(t, family, variant))
}

fn variant_rows_exec(t: &Table, family: &str, variant: &str) -> (r: Vec<usize>)
    ensures
        r@ == variant_rows(*t, family@, variant@),
{
    let ghost keep = of_variant(*t, family@, variant@);
    let mut out: Vec<usize> = Vec::new();
    let mut i: usize = 0;
    while i < t.rows.len()
        invariant
            i <= t.rows@.len(),
            keep == of_variant(*t, family@, variant@),
            out@ == indices_where(i as nat, keep),
        decreases t.rows.len() - i,
    {
        let row = t.rows[i].as_slice();
        proof {
            assert(grid(t.rows@)[i as int] == views(row@));
        }
        if str_eq(t.cell(row, "family"), family) && str_eq(t.cell(row, "variant"), variant) {
            out.push(i);
        }
        proof {
            assert(out@ =~= indices_where((i + 1) as nat, keep));
        }
        i += 1;
    }
    out
}

/// How many of `rows` are marked in `ahead`.
pub open spec fn count_marked(rows: Seq<usize>, ahead: Seq<bool>) -> nat
    decreases rows.len(),
{
    if rows.len() == 0 {
        0
    } else {
        count_marked(rows.drop_last(), ahead) + if ahead[rows.last() as int] {
            1nat
        } else {
            0nat
        }
    }
}

fn count_marked_exec(rows: &[usize], ahead: &[bool]) -> (r: usize)
    requires
        forall|k: int| 0 <= k < rows@.len() ==> #[trigger] rows@[k] < ahead@.len(),
    ensures
        r == count_marked(rows@, ahead@),
{
    let mut n: usize = 0;
    let mut k: usize = 0;
    while k < rows.len()
        invariant
            k <= rows@.len(),
            forall|x: int| 0 <= x < rows@.len() ==> #[trigger] rows@[x] < ahead@.len(),
            n == count_marked(rows@.take(k as int), ahead@),
            n <= k,
        decreases rows.len() - k,
    {
        proof {
            assert(rows@.take(k + 1).drop_last() =~= rows@.take(k as int));
        }
        if ahead[rows[k]] {
            n += 1;
        }
        k += 1;
    }
    proof {
        assert(rows@.take(rows@.len() as int) =~= rows@);
    }
    n
}

/// The strategy's own scoring row.
pub open spec fn variant_scored(s: Table, key: Seq<char>) -> spec_fn(int) -> bool {
    |i: int|
        cellv(s, grid(s.rows@)[i], "level"@) == "variant"@ && cellv(s, grid(s.rows@)[i], "key"@)
            == key
}

fn variant_scored_exec(s: &Table, key: &str) -> (r: Option<usize>)
    ensures
        match r {
            Some(j) => first_index(s.rows@.len() as int, variant_scored(*s, key@)) == Some(j as int)
                && j < s.rows@.len(),
            None => first_index(s.rows@.len() as int, variant_scored(*s, key@)) is None,
        },
{
    let ghost keep = variant_scored(*s, key@);
    let mut i: usize = 0;
    while i < s.rows.len()
        invariant
            i <= s.rows@.len(),
            keep == variant_scored(*s, key@),
            forall|k: int| 0 <= k < i ==> !#[trigger] keep(k),
        decreases s.rows.len() - i,
    {
        let row = s.rows[i].as_slice();
        proof {
            assert(grid(s.rows@)[i as int] == views(row@));
        }
        if str_eq(s.cell(row, "level"), "variant") && str_eq(s.cell(row, "key"), key) {
            proof {
                lemma_first_index_is(s.rows@.len() as int, keep, i as int);
            }
            return Some(i);
        }
        i += 1;
    }
    proof {
        lemma_first_index_none(s.rows@.len() as int, keep);
    }
    None
}


/// The strategy page's tab links: Overview always; How it works when the
/// strategy has a STRATEGY.md; Results, Predictions (with their counts)
/// and Logs when there are any.
pub open spec fn variant_links(
    page: Seq<char>,
    md: bool,
    nres: nat,
    nrows: nat,
    logs: bool,
    active: Seq<char>,
) -> Seq<Seq<char>> {
    seq![tab_link(page, ""@, "Overview"@, Seq::empty(), active)] + (if md {
        seq![tab_link(page, "how-it-works"@, "How it works"@, Seq::empty(), active)]
    } else {
        Seq::empty()
    }) + (if nres > 0 {
        seq![tab_link(page, "results"@, "Results"@, dec(nres), active)]
    } else {
        Seq::empty()
    }) + (if nrows > 0 {
        seq![tab_link(page, "predictions"@, "Predictions"@, dec(nrows), active)]
    } else {
        Seq::empty()
    }) + (if logs {
        seq![tab_link(page, "logs"@, "Logs"@, Seq::empty(), active)]
    } else {
        Seq::empty()
    })
}

/// The tab shown: the requested one when the page has it, else Overview.
pub open spec fn variant_active(
    want: Seq<char>,
    md: bool,
    res: bool,
    preds: bool,
    logs: bool,
) -> Seq<char> {
    if md && want == "how-it-works"@ {
        want
    } else if res && want == "results"@ {
        want
    } else if preds && want == "predictions"@ {
        want
    } else if logs && want == "logs"@ {
        want
    } else {
        Seq::empty()
    }
}

/// The breadcrumb's last crumb for the tab shown.
pub open spec fn variant_leaf(active: Seq<char>) -> Seq<char> {
    if active == "how-it-works"@ {
        "How it works"@
    } else if active == "results"@ {
        "Results"@
    } else if active == "predictions"@ {
        "Predictions"@
    } else if active == "logs"@ {
        "Logs"@
    } else {
        Seq::empty()
    }
}

/// The tab a strategy page shows, its breadcrumb leaf and its tab bar.
pub struct VariantTabs {
    pub active: String,
    pub leaf: String,
    pub bar: String,
}

/// Which tab a strategy page shows for `want`, given what it has: a
/// STRATEGY.md, `nres` result write-ups, `nrows` predictions, and logs.
pub fn variant_tabs(
    page: &str,
    md: bool,
    nres: usize,
    nrows: usize,
    logs: bool,
    want_tab: &Option<String>,
) -> (r: VariantTabs)
    ensures
        ({
            let want = match want_tab {
                Some(w) => w@,
                None => Seq::<char>::empty(),
            };
            let active = variant_active(want, md, nres > 0, nrows > 0, logs);
            &&& r.active@ == active
            &&& r.leaf@ == variant_leaf(active)
            &&& r.bar@ == subbar(
                concat(variant_links(page@, md, nres as nat, nrows as nat, logs, active)),
            )
        }),
{
    proof {
        reveal_strlit("");
        reveal_strlit("how-it-works");
        reveal_strlit("results");
        reveal_strlit("predictions");
        reveal_strlit("logs");
    }
    let w: &str = match want_tab {
        Some(x) => x.as_str(),
        None => "",
    };
    let ghost want = match want_tab {
        Some(x) => x@,
        None => Seq::<char>::empty(),
    };
    proof {
        assert(w@ == want);
    }
    let (active, leaf): (&str, &str) = if md && str_eq(w, "how-it-works") {
        ("how-it-works", "How it works")
    } else if nres > 0 && str_eq(w, "results") {
        ("results", "Results")
    } else if nrows > 0 && str_eq(w, "predictions") {
        ("predictions", "Predictions")
    } else if logs && str_eq(w, "logs") {
        ("logs", "Logs")
    } else {
        ("", "")
    };
    let mut tabs: Vec<Tab> = Vec::new();
    tabs.push(tab("", "Overview"));
    if md {
        tabs.push(tab("how-it-works", "How it works"));
    }
    if nres > 0 {
        tabs.push(tab_n("results", "Results", nres));
    }
    if nrows > 0 {
        tabs.push(tab_n("predictions", "Predictions", nrows));
    }
    if logs {
        tabs.push(tab("logs", "Logs"));
    }
    let bar = tabbar(page, tabs.as_slice(), active);
    proof {
        assert(tab_links(page@, tabs@, active@) =~= variant_links(
            page@,
            md,
            nres as nat,
            nrows as nat,
            logs,
            active@,
        ));
    }
    proof {
        assert(active@ == variant_active(want, md, nres > 0, nrows > 0, logs));
        assert(leaf@ == variant_leaf(active@));
    }
    VariantTabs { active: owned(active), leaf: owned(leaf), bar }
}

/// What the first stat says of where the strategy stands.
pub open spec fn variant_when(m: VariantMeta) -> Seq<char> {
    if m.status@ == "trial"@ {
        "on slot "@ + int_str(
            match m.slot {
                Some(n) => n as int,
                None => 0,
            },
        ) + " since "@ + m.trial_started@
    } else if m.status@ == "retired"@ {
        "dropped "@ + m.retired_on@
    } else {
        "created "@ + m.created@
    }
}

/// The strategy's stat line: its status, predictions, how many were scored
/// and how many of those beat the market (with `fillable`, the reachable
/// count as text), its mean improvement, and its review date.
pub open spec fn variant_stats(
    m: VariantMeta,
    nrows: nat,
    nscored: nat,
    nahead: nat,
    fillable: Seq<char>,
    sc: Seq<ScoreFigs>,
    vs: Option<int>,
) -> Seq<char> {
    "<div class=\"statline\">"@ + stat_line_cell(
        badge_html(m.status@, status_tone_of(m.status@)),
        variant_when(m),
        ""@,
    ) + stat_line_cell(fmt_int_of(nrows as int), "predictions"@, ""@) + stat_line_cell(
        fmt_int_of(nscored as int),
        if nscored == 0 {
            "scored"@
        } else {
            "scored, "@ + dec(nahead) + " beat the market"@ + fillable
        },
        ""@,
    ) + stat_line_cell(
        match vs {
            Some(j) => sc[j].imp@,
            None => "\u{2014}"@,
        },
        "better than the market, per prediction"@,
        match vs {
            Some(j) => if sc[j].up {
                "ok"@
            } else {
                "bad"@
            },
            None => ""@,
        },
    ) + stat_line_cell(
        if m.review_due@.len() == 0 {
            "\u{2014}"@
        } else {
            m.review_due@
        },
        "trial review due"@,
        if m.status@ == "trial"@ {
            "warn"@
        } else {
            ""@
        },
    ) + "</div>"@
}

fn variant_when_exec(m: &VariantMeta) -> (r: String)
    ensures
        r@ == variant_when(*m),
{
    if str_eq(m.status.as_str(), "trial") {
        let mut w = owned("on slot ");
        let n: i64 = match m.slot {
            Some(n) => n,
            None => 0,
        };
        if n == i64::MIN {
            push_char(&mut w, '-');
            push_dec(&mut w, 9223372036854775808u64);
            proof {
                assert(seq!['-'] + dec(9223372036854775808nat) =~= int_str(n as int));
            }
        } else {
            push_int(&mut w, n);
        }
        w.append(" since ");
        w.append(m.trial_started.as_str());
        w
    } else if str_eq(m.status.as_str(), "retired") {
        let mut w = owned("dropped ");
        w.append(m.retired_on.as_str());
        w
    } else {
        let mut w = owned("created ");
        w.append(m.created.as_str());
        w
    }
}

fn push_stat(out: &mut String, v: &str, label: &str, tone: &str)
    ensures
        final(out)@ == old(out)@ + stat_line_cell(v@, label@, tone@),
{
    out.append("<span class=\"stat\"><b class=\"stat-v");
    out.append(tone_class(tone));
    out.append("\">");
    out.append(v);
    out.append("</b><span class=\"stat-k\">");
    push_esc(out, label);
    out.append("</span></span>");
}

fn scored_label(nscored: usize, nahead: usize, fillable: &str) -> (r: String)
    ensures
        r@ == if nscored == 0 {
            "scored"@
        } else {
            "scored, "@ + dec(nahead as nat) + " beat the market"@ + fillable@
        },
{
    if nscored == 0 {
        owned("scored")
    } else {
        let mut l = owned("scored, ");
        push_dec(&mut l, nahead as u64);
        l.append(" beat the market");
        l.append(fillable);
        l
    }
}

fn variant_stats_exec(
    m: &VariantMeta,
    nrows: usize,
    nscored: usize,
    nahead: usize,
    fillable: &str,
    sc: &[ScoreFigs],
    vs: Option<usize>,
) -> (r: String)
    requires
        nrows <= i64::MAX,
        nscored <= i64::MAX,
        match vs {
            Some(j) => j < sc@.len(),
            None => true,
        },
    ensures
        r@ == variant_stats(
            *m,
            nrows as nat,
            nscored as nat,
            nahead as nat,
            fillable@,
            sc@,
            match vs {
                Some(j) => Some(j as int),
                None => None,
            },
        ),
{
    let mut out = owned("<div class=\"statline\">");
    let st = status_badge(m.status.as_str());
    let when = variant_when_exec(m);
    push_stat(&mut out, st.as_str(), when.as_str(), "");
    let a = fmt_int(nrows as i64);
    push_stat(&mut out, a.as_str(), "predictions", "");
    let b = fmt_int(nscored as i64);
    let l = scored_label(nscored, nahead, fillable);
    push_stat(&mut out, b.as_str(), l.as_str(), "");
    match vs {
        Some(j) => push_stat(
            &mut out,
            sc[j].imp.as_str(),
            "better than the market, per prediction",
            if sc[j].up {
                "ok"
            } else {
                "bad"
            },
        ),
        None => push_stat(&mut out, "\u{2014}", "better than the market, per prediction", ""),
    }
    let due: &str = if m.review_due.as_str().is_empty() {
        "\u{2014}"
    } else {
        m.review_due.as_str()
    };
    push_stat(&mut out, due, "trial review due", if str_eq(m.status.as_str(), "trial") {
        "warn"
    } else {
        ""
    });
    out.append("</div>");
    out
}


fn str_ends(s: &str, p: &str) -> (r: bool)
    ensures
        r == ends_with(s@, p@),
{
    let cs = chars_of(s);
    let ps = chars_of(p);
    proof {
        assert(cs@.subrange(0, cs@.len() as int) =~= s@);
    }
    ends_with_in(&cs, 0, cs.len(), &ps)
}

/// The How it works tab: the strategy's runbook.
pub open spec fn variant_how(base: Seq<char>, md: Seq<char>) -> Seq<char> {
    section_html(
        ""@,
        ""@,
        ""@,
        "<div class=\"prose\">"@ + markdown_html(markdown_body_src(md)) + "</div>"@,
        "<div class=\"sec-foot\">"@ + "<span class=\"mono\">"@ + base
            + "/STRATEGY.md</span><span>the runbook: method, gates, and what would kill it</span>"@
            + "</div>"@,
    )
}

/// One result write-up, under an anchor named after its file.
pub open spec fn result_doc(path: Seq<char>, text: Seq<char>) -> Seq<char> {
    "<div id=\""@ + anchor_of(base_name(path)) + "\">"@ + section_html(
        ""@,
        ""@,
        ""@,
        "<div class=\"prose prose-wide\">"@ + markdown_html(text) + "</div>"@,
        "<div class=\"sec-foot\">"@ + "<span class=\"mono\">"@ + escaped(path) + "</span>"@
            + "</div>"@,
    ) + "</div>"@
}

/// A link to a file the write-ups were generated from.
pub open spec fn artifact_item(path: Seq<char>) -> Seq<char> {
    "<li><a href=\"https://github.com/felix-andreas/orakel/blob/main/"@ + escaped(path)
        + "\" target=\"_blank\" rel=\"noreferrer\">"@ + icon_svg("external"@) + " "@ + escaped(
        base_name(path),
    ) + "</a></li>"@
}

/// The Results tab: each write-up (`texts` by `paths`), then the files the
/// write-ups were generated from.
pub open spec fn variant_results(
    paths: Seq<Seq<char>>,
    texts: Seq<Seq<char>>,
    artifacts: Seq<Seq<char>>,
) -> Seq<char> {
    concat(Seq::new(paths.len(), |i: int| result_doc(paths[i], texts[i]))) + if artifacts.len()
        == 0 {
        Seq::empty()
    } else {
        section_html(
            "The numbers behind them"@,
            "artifacts these write-ups were generated from, in the repo"@,
            badge_html(count_of(artifacts.len(), "file"@), ""@),
            "<ul class=\"link-list\">"@ + concat(artifacts.map_values(|a: Seq<char>| artifact_item(a)))
                + "</ul>"@,
            Seq::empty(),
        )
    }
}

/// One of the strategy's logs: the worklog or its memory.
pub open spec fn log_section(path: Seq<char>, text: Seq<char>) -> Seq<char> {
    let worklog = ends_with(path, "WORKLOG.md"@);
    section_html(
        if worklog {
            "Worklog"@
        } else {
            "Memory"@
        },
        if worklog {
            "what this strategy's agents did, run by run"@
        } else {
            "what they know now \u{2014} carried into the next run"@
        },
        ""@,
        "<div class=\"prose prose-wide\">"@ + markdown_html(markdown_body_src(text)) + "</div>"@,
        "<div class=\"sec-foot\">"@ + "<span class=\"mono\">"@ + escaped(path) + "</span>"@
            + "</div>"@,
    )
}

pub open spec fn variant_logs(paths: Seq<Seq<char>>, texts: Seq<Seq<char>>) -> Seq<char> {
    concat(Seq::new(paths.len(), |i: int| log_section(paths[i], texts[i])))
}

fn variant_how_exec(base: &str, md: &str) -> (r: String)
    ensures
        r@ == variant_how(base@, md@),
{
    let mut body = owned("<div class=\"prose\">");
    let h = markdown_body(md);
    body.append(h.as_str());
    body.append("</div>");
    let mut foot = owned("<span class=\"mono\">");
    foot.append(base);
    foot.append("/STRATEGY.md</span><span>the runbook: method, gates, and what would kill it</span>");
    section_foot("", "", "", body.as_str(), foot.as_str())
}

fn push_result_doc(out: &mut String, path: &str, text: &str)
    ensures
        final(out)@ == old(out)@ + result_doc(path@, text@),
{
    out.append("<div id=\"");
    let name = file_name(path);
    let a = anchor(name.as_str());
    out.append(a.as_str());
    out.append("\">");
    let mut body = owned("<div class=\"prose prose-wide\">");
    let h = markdown(text);
    body.append(h.as_str());
    body.append("</div>");
    let mut foot = owned("<span class=\"mono\">");
    push_esc(&mut foot, path);
    foot.append("</span>");
    let sec = section_foot("", "", "", body.as_str(), foot.as_str());
    out.append(sec.as_str());
    out.append("</div>");
}

fn push_artifact(out: &mut String, path: &str)
    ensures
        final(out)@ == old(out)@ + artifact_item(path@),
{
    out.append("<li><a href=\"https://github.com/felix-andreas/orakel/blob/main/");
    push_esc(out, path);
    out.append("\" target=\"_blank\" rel=\"noreferrer\">");
    let ic = icon("external");
    out.append(ic.as_str());
    out.append(" ");
    let name = file_name(path);
    push_esc(out, name.as_str());
    out.append("</a></li>");
}

fn variant_results_exec(paths: &[String], texts: &[String], artifacts: &[String]) -> (r: String)
    requires
        texts@.len() == paths@.len(),
    ensures
        r@ == variant_results(views(paths@), views(texts@), views(artifacts@)),
{
    let ghost ps = views(paths@);
    let ghost ts = views(texts@);
    let ghost docs = Seq::new(ps.len(), |i: int| result_doc(ps[i], ts[i]));
    let mut out = String::new();
    let mut i: usize = 0;
    proof {
        assert(docs.take(0) =~= Seq::<Seq<char>>::empty());
        assert(out@ =~= concat(docs.take(0)));
    }
    while i < paths.len()
        invariant
            i <= paths@.len(),
            texts@.len() == paths@.len(),
            ps == views(paths@),
            ts == views(texts@),
            docs == Seq::new(ps.len(), |i: int| result_doc(ps[i], ts[i])),
            out@ == concat(docs.take(i as int)),
        decreases paths.len() - i,
    {
        push_result_doc(&mut out, paths[i].as_str(), texts[i].as_str());
        proof {
            lemma_concat_take(docs, i as int);
        }
        i += 1;
    }
    proof {
        lemma_concat_all(docs);
    }
    if artifacts.len() == 0 {
        proof {
            assert(out@ + Seq::<char>::empty() =~= out@);
        }
        return out;
    }
    let ghost az = views(artifacts@);
    let ghost items = az.map_values(|a: Seq<char>| artifact_item(a));
    let mut list = owned("<ul class=\"link-list\">");
    let ghost start = list@;
    let mut k: usize = 0;
    while k < artifacts.len()
        invariant
            k <= artifacts@.len(),
            az == views(artifacts@),
            items == az.map_values(|a: Seq<char>| artifact_item(a)),
            list@ == start + concat(items.take(k as int)),
        decreases artifacts.len() - k,
    {
        push_artifact(&mut list, artifacts[k].as_str());
        proof {
            lemma_concat_take(items, k as int);
        }
        k += 1;
    }
    proof {
        lemma_concat_all(items);
    }
    list.append("</ul>");
    let chip = badge(count(artifacts.len(), "file").as_str(), "");
    let sec = section(
        "The numbers behind them",
        "artifacts these write-ups were generated from, in the repo",
        chip.as_str(),
        list.as_str(),
    );
    out.append(sec.as_str());
    out
}

fn variant_logs_exec(paths: &[String], texts: &[String]) -> (r: String)
    requires
        texts@.len() == paths@.len(),
    ensures
        r@ == variant_logs(views(paths@), views(texts@)),
{
    let ghost ps = views(paths@);
    let ghost ts = views(texts@);
    let ghost docs = Seq::new(ps.len(), |i: int| log_section(ps[i], ts[i]));
    let mut out = String::new();
    let mut i: usize = 0;
    proof {
        assert(docs.take(0) =~= Seq::<Seq<char>>::empty());
        assert(out@ =~= concat(docs.take(0)));
    }
    while i < paths.len()
        invariant
            i <= paths@.len(),
            texts@.len() == paths@.len(),
            ps == views(paths@),
            ts == views(texts@),
            docs == Seq::new(ps.len(), |i: int| log_section(ps[i], ts[i])),
            out@ == concat(docs.take(i as int)),
        decreases paths.len() - i,
    {
        let path = paths[i].as_str();
        let worklog = str_ends(path, "WORKLOG.md");
        let mut body = owned("<div class=\"prose prose-wide\">");
        let h = markdown_body(texts[i].as_str());
        body.append(h.as_str());
        body.append("</div>");
        let mut foot = owned("<span class=\"mono\">");
        push_esc(&mut foot, path);
        foot.append("</span>");
        let sec = section_foot(
            if worklog {
                "Worklog"
            } else {
                "Memory"
            },
            if worklog {
                "what this strategy's agents did, run by run"
            } else {
                "what they know now \u{2014} carried into the next run"
            },
            "",
            body.as_str(),
            foot.as_str(),
        );
        out.append(sec.as_str());
        proof {
            assert(sec@ == log_section(ps[i as int], ts[i as int]));
            lemma_concat_take(docs, i as int);
        }
        i += 1;
    }
    proof {
        lemma_concat_all(docs);
    }
    out
}


pub open spec fn block_row(k: Seq<char>, v: Seq<char>) -> Seq<char> {
    "<div class=\"row row-block\"><span class=\"k\">"@ + k + "</span><span class=\"v\">"@ + v
        + "</span></div>"@
}

/// The Facts list of a strategy: status, dates, what it replaces, its
/// family, its trial clock, labels, and why it was dropped or what would
/// make it a success, each only when recorded.
pub open spec fn variant_facts(m: VariantMeta, family: Seq<char>) -> Seq<char> {
    row_html("Status"@, badge_html(m.status@, status_tone_of(m.status@))) + row_html(
        "Created"@,
        escaped(m.created@),
    ) + (if m.supersedes@.len() == 0 {
        Seq::empty()
    } else {
        row_html(
            "Replaces"@,
            "<a href=\"/strategies/"@ + family + "/"@ + escaped(m.supersedes@) + "\">"@ + escaped(
                m.supersedes@,
            ) + "</a>"@,
        )
    }) + row_html(
        "Family"@,
        "<a href=\"/strategies/"@ + escaped(family) + "\">"@ + escaped(family) + "</a>"@,
    ) + (if m.trial_started@.len() == 0 {
        Seq::empty()
    } else {
        row_html("Trial started"@, escaped(m.trial_started@)) + row_html(
            "Review due"@,
            escaped(m.review_due@),
        )
    }) + (if m.labels@.len() == 0 {
        Seq::empty()
    } else {
        row_html(
            "Labels"@,
            "<div class=\"chip-row\">"@ + concat(chips(m.labels@.map_values(|s: String| s@)))
                + "</div>"@,
        )
    }) + (if m.retire_reason@.len() == 0 {
        Seq::empty()
    } else {
        block_row("Why it was dropped"@, escaped(m.retire_reason@))
    }) + (if m.success_guideline@.len() == 0 {
        Seq::empty()
    } else {
        block_row("What would make it a success"@, escaped(m.success_guideline@))
    })
}

pub open spec fn muted_dash() -> Seq<char> {
    "<span class=\"muted\">\u{2014}</span>"@
}

/// One application file's row: its name, market, when it was added,
/// whether it is active, its legs, asset and tier.
pub open spec fn app_cells(path: Seq<char>, t: TomlTable) -> Seq<Seq<char>> {
    let slug = text_of(table_get(t, "market_slug"@));
    let legs = array_items(path_value(t, seq!["legs"@])).len();
    seq![
        "<span class=\"mono\">"@ + escaped(base_name(path)) + "</span>"@,
        if slug.len() == 0 {
            muted_dash()
        } else {
            "<a href=\"/markets/"@ + escaped(slug) + "\">"@ + escaped(slug) + "</a>"@
        },
        escaped(text_of(table_get(t, "added"@))),
        match bool_of(table_get(t, "active"@)) {
            Some(true) => badge_html("active"@, "ok"@),
            Some(false) => badge_html("inactive"@, ""@),
            None => muted_dash(),
        },
        if legs > 0 {
            fmt_int_of(legs as int)
        } else {
            muted_dash()
        },
        "<span class=\"muted\">"@ + escaped(text_of(path_value(t, seq!["params"@, "asset"@])))
            + "</span>"@,
        "<span class=\"muted\">"@ + escaped(text_of(path_value(t, seq!["params"@, "tier"@])))
            + "</span>"@,
    ]
}

pub open spec fn app_head() -> Seq<(Seq<char>, Seq<char>)> {
    seq![
        ("File"@, ""@),
        ("Market"@, ""@),
        ("Added"@, ""@),
        ("Active"@, ""@),
        ("Legs"@, "num"@),
        ("Asset"@, ""@),
        ("Tier"@, ""@),
    ]
}

/// The Applications section: the strategy's application files (`tables`,
/// the first of them parsed, by `paths`), or a notice that it has none.
pub open spec fn variant_apps(paths: Seq<Seq<char>>, tables: Seq<TomlTable>) -> Seq<char> {
    if paths.len() == 0 {
        section_html(
            "Applications"@,
            "the markets this strategy is pointed at"@,
            ""@,
            "<div class=\"empty\"><strong>"@ + escaped("No applications"@) + "</strong>"@
                + "<div>Nothing under <span class=\"mono\">applications/</span> yet \u{2014} this strategy is not pointed at any market.</div>"@
                + "</div>"@,
            Seq::empty(),
        )
    } else {
        section_html(
            "Applications"@,
            "the boards and markets this strategy is pointed at"@,
            badge_html(count_of(paths.len(), "file"@), ""@),
            table_of(
                app_head(),
                Seq::new(tables.len(), |i: int| app_cells(paths[i], tables[i])),
                "data"@,
            ),
            Seq::empty(),
        )
    }
}

/// The Overview tab: the explainer (the summary when there is none) beside
/// the facts, then the applications.
pub open spec fn variant_overview(
    m: VariantMeta,
    family: Seq<char>,
    base: Seq<char>,
    apps: Seq<Seq<char>>,
    tables: Seq<TomlTable>,
) -> Seq<char> {
    "<div class=\"grid-main\"><div>"@ + lede_of(
        if m.explainer@.len() == 0 {
            m.summary@
        } else {
            m.explainer@
        },
        "No plain-English explainer yet \u{2014} <span class=\"mono\">"@ + base
            + "/strategy.toml</span> is missing its required <span class=\"mono\">explainer</span> field."@,
    ) + "</div>"@ + section_html(
        "Facts"@,
        "status, trial clock and labels as recorded in the repo"@,
        ""@,
        "<div class=\"rows\">"@ + variant_facts(m, family) + "</div>"@,
        Seq::empty(),
    ) + "</div>"@ + variant_apps(apps, tables)
}

fn variant_facts_exec(m: &VariantMeta, family: &str) -> (r: String)
    ensures
        r@ == variant_facts(*m, family@),
{
    let st = status_badge(m.status.as_str());
    let p1 = row("Status", st.as_str());
    let cr = esc(m.created.as_str());
    let p2 = row("Created", cr.as_str());
    let p3 = if !m.supersedes.as_str().is_empty() {
        let mut l = owned("<a href=\"/strategies/");
        l.append(family);
        l.append("/");
        push_esc(&mut l, m.supersedes.as_str());
        l.append("\">");
        push_esc(&mut l, m.supersedes.as_str());
        l.append("</a>");
        row("Replaces", l.as_str())
    } else {
        String::new()
    };
    let mut fl = owned("<a href=\"/strategies/");
    push_esc(&mut fl, family);
    fl.append("\">");
    push_esc(&mut fl, family);
    fl.append("</a>");
    let p4 = row("Family", fl.as_str());
    let p5 = if !m.trial_started.as_str().is_empty() {
        let t = esc(m.trial_started.as_str());
        let mut x = row("Trial started", t.as_str());
        let t2 = esc(m.review_due.as_str());
        let y = row("Review due", t2.as_str());
        x.append(y.as_str());
        x
    } else {
        String::new()
    };
    let p6 = if m.labels.len() > 0 {
        let c = chip_row(m.labels.as_slice());
        row("Labels", c.as_str())
    } else {
        String::new()
    };
    let p7 = if !m.retire_reason.as_str().is_empty() {
        let mut x = owned("<div class=\"row row-block\"><span class=\"k\">");
        x.append("Why it was dropped");
        x.append("</span><span class=\"v\">");
        push_esc(&mut x, m.retire_reason.as_str());
        x.append("</span></div>");
        x
    } else {
        String::new()
    };
    let p8 = if !m.success_guideline.as_str().is_empty() {
        let mut x = owned("<div class=\"row row-block\"><span class=\"k\">");
        x.append("What would make it a success");
        x.append("</span><span class=\"v\">");
        push_esc(&mut x, m.success_guideline.as_str());
        x.append("</span></div>");
        x
    } else {
        String::new()
    };
    let mut out = p1;
    out.append(p2.as_str());
    out.append(p3.as_str());
    out.append(p4.as_str());
    out.append(p5.as_str());
    out.append(p6.as_str());
    out.append(p7.as_str());
    out.append(p8.as_str());
    proof {
        assert(p3@ == (if m.supersedes@.len() == 0 {
            Seq::<char>::empty()
        } else {
            row_html(
                "Replaces"@,
                "<a href=\"/strategies/"@ + family@ + "/"@ + escaped(m.supersedes@) + "\">"@
                    + escaped(m.supersedes@) + "</a>"@,
            )
        }));
        assert(p6@ == (if m.labels@.len() == 0 {
            Seq::<char>::empty()
        } else {
            row_html(
                "Labels"@,
                "<div class=\"chip-row\">"@ + concat(chips(m.labels@.map_values(|s: String| s@)))
                    + "</div>"@,
            )
        }));
        assert(out@ =~= variant_facts(*m, family@));
    }
    out
}

fn app_cells_exec(path: &str, t: &TomlTable) -> (r: Vec<String>)
    requires
        array_items(path_value(*t, seq!["legs"@])).len() <= i64::MAX,
    ensures
        r.deep_view() == app_cells(path@, *t),
{
    let mut cells: Vec<String> = Vec::new();
    let mut c = owned("<span class=\"mono\">");
    let name = file_name(path);
    push_esc(&mut c, name.as_str());
    c.append("</span>");
    cells.push(c);
    let slug = tstr(t, "market_slug");
    if slug.is_empty() {
        cells.push(owned("<span class=\"muted\">\u{2014}</span>"));
    } else {
        let mut a = owned("<a href=\"/markets/");
        push_esc(&mut a, slug);
        a.append("\">");
        push_esc(&mut a, slug);
        a.append("</a>");
        cells.push(a);
    }
    cells.push(esc(tstr(t, "added")));
    let act = match tbool(t, "active") {
        Some(true) => badge("active", "ok"),
        Some(false) => badge("inactive", ""),
        None => owned("<span class=\"muted\">\u{2014}</span>"),
    };
    cells.push(act);
    let legs_path: [&str; 1] = ["legs"];
    let legs = arr_at(t, &legs_path).len();
    proof {
        assert(path_views(legs_path@) =~= seq!["legs"@]);
    }
    if legs > 0 {
        cells.push(fmt_int(legs as i64));
    } else {
        cells.push(owned("<span class=\"muted\">\u{2014}</span>"));
    }
    let asset_path: [&str; 2] = ["params", "asset"];
    let tier_path: [&str; 2] = ["params", "tier"];
    proof {
        assert(path_views(asset_path@) =~= seq!["params"@, "asset"@]);
        assert(path_views(tier_path@) =~= seq!["params"@, "tier"@]);
    }
    let mut x = owned("<span class=\"muted\">");
    push_esc(&mut x, str_at(t, &asset_path));
    x.append("</span>");
    cells.push(x);
    let mut y = owned("<span class=\"muted\">");
    push_esc(&mut y, str_at(t, &tier_path));
    y.append("</span>");
    cells.push(y);
    proof {
        assert(cells.deep_view() =~= app_cells(path@, *t));
    }
    cells
}


fn variant_apps_exec(paths: &[String], tables: &[TomlTable]) -> (r: String)
    requires
        tables@.len() <= paths@.len(),
        forall|i: int|
            0 <= i < tables@.len() ==> array_items(
                path_value(#[trigger] tables@[i], seq!["legs"@]),
            ).len() <= i64::MAX,
    ensures
        r@ == variant_apps(views(paths@), tables@),
{
    if paths.len() == 0 {
        let e = empty_state(
            "No applications",
            "<div>Nothing under <span class=\"mono\">applications/</span> yet \u{2014} this strategy is not pointed at any market.</div>",
        );
        return section("Applications", "the markets this strategy is pointed at", "", e.as_str());
    }
    let ghost ps = views(paths@);
    let ghost want = Seq::new(tables@.len(), |i: int| app_cells(ps[i], tables@[i]));
    let mut body: Vec<Vec<String>> = Vec::new();
    let mut k: usize = 0;
    while k < tables.len()
        invariant
            k <= tables@.len(),
            tables@.len() <= paths@.len(),
            ps == views(paths@),
            forall|i: int|
                0 <= i < tables@.len() ==> array_items(
                    path_value(#[trigger] tables@[i], seq!["legs"@]),
                ).len() <= i64::MAX,
            want == Seq::new(tables@.len(), |i: int| app_cells(ps[i], tables@[i])),
            body@.len() == k,
            forall|m: int| 0 <= m < k ==> (#[trigger] body@[m]).deep_view() == want[m],
        decreases tables.len() - k,
    {
        let cells = app_cells_exec(paths[k].as_str(), &tables[k]);
        body.push(cells);
        k += 1;
    }
    let mut head: Vec<(&str, &str)> = Vec::new();
    head.push(("File", ""));
    head.push(("Market", ""));
    head.push(("Added", ""));
    head.push(("Active", ""));
    head.push(("Legs", "num"));
    head.push(("Asset", ""));
    head.push(("Tier", ""));
    let hs = head.as_slice();
    let bs = body.as_slice();
    proof {
        assert(hs.deep_view() =~= app_head());
        assert(bs.deep_view() =~~= want);
    }
    let t = table(hs, bs);
    let chip = badge(count(paths.len(), "file").as_str(), "");
    section(
        "Applications",
        "the boards and markets this strategy is pointed at",
        chip.as_str(),
        t.as_str(),
    )
}

fn variant_overview_exec(
    m: &VariantMeta,
    family: &str,
    base: &str,
    apps: &[String],
    tables: &[TomlTable],
) -> (r: String)
    requires
        tables@.len() <= apps@.len(),
        forall|i: int|
            0 <= i < tables@.len() ==> array_items(
                path_value(#[trigger] tables@[i], seq!["legs"@]),
            ).len() <= i64::MAX,
    ensures
        r@ == variant_overview(*m, family@, base@, views(apps@), tables@),
{
    let mut missing = owned("No plain-English explainer yet \u{2014} <span class=\"mono\">");
    missing.append(base);
    missing.append(
        "/strategy.toml</span> is missing its required <span class=\"mono\">explainer</span> field.",
    );
    let text: &str = if m.explainer.as_str().is_empty() {
        m.summary.as_str()
    } else {
        m.explainer.as_str()
    };
    let l = lede(text, missing.as_str());
    let f = variant_facts_exec(m, family);
    let mut rs = owned("<div class=\"rows\">");
    rs.append(f.as_str());
    rs.append("</div>");
    let facts = section("Facts", "status, trial clock and labels as recorded in the repo", "", rs.as_str());
    let a = variant_apps_exec(apps, tables);
    let mut out = owned("<div class=\"grid-main\"><div>");
    out.append(l.as_str());
    out.append("</div>");
    out.append(facts.as_str());
    out.append("</div>");
    out.append(a.as_str());
    out
}


/// `files` is what `files_in(paths, dir, ext)` lists: the files directly
/// under `dir` ending in `ext`, each once per listing, sorted.
pub open spec fn listed_in(
    paths: Seq<Seq<char>>,
    dir: Seq<char>,
    ext: Seq<char>,
    files: Seq<Seq<char>>,
) -> bool {
    sorted_by(files, str_le()) && files.to_multiset() == filter_map(
        paths,
        in_dir_fn(dir_prefix(dir), ext),
    ).to_multiset()
}

/// The files that are not Markdown, in order.
pub open spec fn drop_md(files: Seq<Seq<char>>) -> Seq<Seq<char>>
    decreases files.len(),
{
    if files.len() == 0 {
        Seq::empty()
    } else {
        drop_md(files.drop_last()) + if ends_with(files.last(), ".md"@) {
            Seq::empty()
        } else {
            seq![files.last()]
        }
    }
}

/// The strategy's logs that exist: its worklog, then its memory.
pub open spec fn log_paths(base: Seq<char>, paths: Seq<Seq<char>>) -> Seq<Seq<char>> {
    let w = base + "/memory/WORKLOG.md"@;
    let m = base + "/memory/MEMORY.md"@;
    (if paths.contains(w) {
        seq![w]
    } else {
        Seq::empty()
    }) + (if paths.contains(m) {
        seq![m]
    } else {
        Seq::empty()
    })
}

/// The repo files a strategy page draws on.
pub struct VariantFiles {
    pub has_md: bool,
    pub results: Vec<String>,
    pub artifacts: Vec<String>,
    pub logs: Vec<String>,
    pub apps: Vec<String>,
}

pub fn has_path(paths: &[String], target: &str) -> (r: bool)
    ensures
        r == views(paths@).contains(target@),
{
    let mut i: usize = 0;
    while i < paths.len()
        invariant
            i <= paths@.len(),
            forall|k: int| 0 <= k < i ==> views(paths@)[k] != target@,
        decreases paths.len() - i,
    {
        if str_eq(paths[i].as_str(), target) {
            proof {
                assert(views(paths@)[i as int] == target@);
            }
            return true;
        }
        i += 1;
    }
    false
}

fn drop_md_exec(files: &[String]) -> (r: Vec<String>)
    ensures
        views(r@) == drop_md(views(files@)),
{
    let ghost fs = views(files@);
    let mut out: Vec<String> = Vec::new();
    let mut i: usize = 0;
    while i < files.len()
        invariant
            i <= files@.len(),
            fs == views(files@),
            views(out@) == drop_md(fs.take(i as int)),
        decreases files.len() - i,
    {
        proof {
            assert(fs.take(i + 1).drop_last() =~= fs.take(i as int));
            assert(fs.take(i + 1).last() == files@[i as int]@);
        }
        if !str_ends(files[i].as_str(), ".md") {
            out.push(owned(files[i].as_str()));
        }
        proof {
            assert(views(out@) =~= drop_md(fs.take(i + 1)));
        }
        i += 1;
    }
    proof {
        assert(fs.take(files@.len() as int) =~= fs);
    }
    out
}

/// What a strategy's page can show, from the repo's file listing alone:
/// whether it has a STRATEGY.md, its result write-ups and the other files
/// beside them, its logs, and its application files.
pub fn variant_files(family: &str, variant: &str, paths: &[String]) -> (r: VariantFiles)
    ensures
        ({
            let base = "strategies/"@ + family@ + "/"@ + variant@;
            let ps = views(paths@);
            &&& r.has_md == ps.contains(base + "/STRATEGY.md"@)
            &&& listed_in(ps, base + "/results"@, ".md"@, views(r.results@))
            &&& exists|all: Seq<Seq<char>>|
                listed_in(ps, base + "/results"@, ""@, all) && views(r.artifacts@) == drop_md(all)
            &&& views(r.logs@) == log_paths(base, ps)
            &&& listed_in(ps, base + "/applications"@, ".toml"@, views(r.apps@))
        }),
{
    let mut base = owned("strategies/");
    base.append(family);
    base.append("/");
    base.append(variant);
    let mut md = owned(base.as_str());
    md.append("/STRATEGY.md");
    let mut rdir = owned(base.as_str());
    rdir.append("/results");
    let mut adir = owned(base.as_str());
    adir.append("/applications");
    let has_md = has_path(paths, md.as_str());
    let results = files_in(paths, rdir.as_str(), ".md");
    let all = files_in(paths, rdir.as_str(), "");
    let artifacts = drop_md_exec(all.as_slice());
    let apps = files_in(paths, adir.as_str(), ".toml");
    let mut w = owned(base.as_str());
    w.append("/memory/WORKLOG.md");
    let mut m = owned(base.as_str());
    m.append("/memory/MEMORY.md");
    let mut logs: Vec<String> = Vec::new();
    let hw = has_path(paths, w.as_str());
    let hm = has_path(paths, m.as_str());
    if hw {
        logs.push(w);
    }
    if hm {
        logs.push(m);
    }
    proof {
        let b = "strategies/"@ + family@ + "/"@ + variant@;
        assert(views(logs@) =~= log_paths(b, views(paths@)));
        assert(listed_in(views(paths@), b + "/results"@, ""@, views(all@)));
    }
    VariantFiles { has_md, results, artifacts, logs, apps }
}


pub open spec fn variant_base(family: Seq<char>, variant: Seq<char>) -> Seq<char> {
    "strategies/"@ + family + "/"@ + variant
}

/// Whether the strategy page has tabs: both names are safe, and the
/// strategy has a manifest or a STRATEGY.md.
pub open spec fn variant_shown(
    family: Seq<char>,
    variant: Seq<char>,
    toml: Seq<char>,
    files: VariantFiles,
) -> bool {
    is_safe_segment(family) && is_safe_segment(variant) && !(trim(toml).len() == 0
        && !files.has_md)
}

/// The tab a strategy page shows for the requested `want`.
pub open spec fn variant_page_tab(
    family: Seq<char>,
    variant: Seq<char>,
    want: Seq<char>,
    files: VariantFiles,
    p: Table,
) -> Seq<char> {
    variant_active(
        want,
        files.has_md,
        files.results@.len() > 0,
        variant_rows(p, family, variant).len() > 0,
        files.logs@.len() > 0,
    )
}

pub open spec fn variant_content(
    family: Seq<char>,
    variant: Seq<char>,
    active: Seq<char>,
    files: VariantFiles,
    m: VariantMeta,
    md: Seq<char>,
    result_texts: Seq<Seq<char>>,
    log_texts: Seq<Seq<char>>,
    tables: Seq<TomlTable>,
    p: Table,
    d: Table,
    pf: Seq<PredFigs>,
    dc: Seq<(String, bool)>,
) -> Seq<char> {
    let base = variant_base(family, variant);
    if active == "how-it-works"@ {
        variant_how(base, md)
    } else if active == "results"@ {
        variant_results(views(files.results@), result_texts, views(files.artifacts@))
    } else if active == "predictions"@ {
        prediction_table_html(p, d, variant_rows(p, family, variant), false, pf, dc)
    } else if active == "logs"@ {
        variant_logs(views(files.logs@), log_texts)
    } else {
        variant_overview(m, family, base, views(files.apps@), tables)
    }
}

/// The body of a strategy page that has tabs: the banner when something
/// was not read live, the stat line, then the tab's content.
pub open spec fn variant_body(
    family: Seq<char>,
    variant: Seq<char>,
    want: Seq<char>,
    files: VariantFiles,
    m: VariantMeta,
    md: Seq<char>,
    result_texts: Seq<Seq<char>>,
    log_texts: Seq<Seq<char>>,
    tables: Seq<TomlTable>,
    p: Table,
    s: Table,
    d: Table,
    sc: Seq<ScoreFigs>,
    pf: Seq<PredFigs>,
    dc: Seq<(String, bool)>,
    ahead: Seq<bool>,
    fillable: Seq<char>,
    live: bool,
    banner: Seq<char>,
) -> Seq<char> {
    let scored = variant_rows(d, family, variant);
    (if live {
        Seq::empty()
    } else {
        banner
    }) + variant_stats(
        m,
        variant_rows(p, family, variant).len(),
        scored.len(),
        count_marked(scored, ahead),
        fillable,
        sc,
        first_index(s.rows@.len() as int, variant_scored(s, family + "/"@ + variant)),
    ) + variant_content(
        family,
        variant,
        variant_page_tab(family, variant, want, files, p),
        files,
        m,
        md,
        result_texts,
        log_texts,
        tables,
        p,
        d,
        pf,
        dc,
    )
}

/// What a strategy page says when the strategy has neither a manifest nor
/// a STRATEGY.md.
pub open spec fn variant_missing(base: Seq<char>) -> Seq<char> {
    section_html(
        "Variant not found"@,
        base,
        ""@,
        "<div class=\"empty\"><strong>"@ + escaped("Nothing here"@) + "</strong>"@
            + "<div>No such variant in the repo. <a class=\"link\" href=\"/strategies\">Back to strategies</a>.</div>"@
            + "</div>"@,
        Seq::empty(),
    )
}

/// What the tab shown needs read before the page can be drawn: the
/// write-ups for Results, the logs for Logs, the first applications (at
/// most 24, parsed) for Overview, and on Predictions timestamps that can be
/// cut at minute precision.
pub open spec fn variant_inputs_ok(
    family: Seq<char>,
    variant: Seq<char>,
    want: Seq<char>,
    files: VariantFiles,
    result_texts: Seq<Seq<char>>,
    log_texts: Seq<Seq<char>>,
    tables: Seq<TomlTable>,
    p: Table,
) -> bool {
    let active = variant_page_tab(family, variant, want, files, p);
    &&& active == "results"@ ==> result_texts.len() == files.results@.len()
    &&& active == "logs"@ ==> log_texts.len() == files.logs@.len()
    &&& active == "predictions"@ ==> forall|k: int|
        0 <= k < variant_rows(p, family, variant).len() ==> fmt_ts_ok(
            cellv(p, grid(p.rows@)[#[trigger] variant_rows(p, family, variant)[k] as int], "timestamp"@),
        )
    &&& active.len() == 0 ==> tables.len() == (if files.apps@.len() < 24 {
        files.apps@.len()
    } else {
        24
    }) && forall|i: int|
        0 <= i < tables.len() ==> array_items(path_value(#[trigger] tables[i], seq!["legs"@])).len()
            <= i64::MAX
}


/// The strategy's page (see `variant_body`): an unknown strategy (a name
/// that could climb out of its directory) gets a bare notice, one with
/// neither a manifest nor a STRATEGY.md a not-found section, any other its
/// tabs. `files` is what `variant_files` lists, `m` what its manifest says;
/// `md`, `result_texts`, `log_texts` and `tables` are the documents the tab
/// shown reads (see `variant_inputs_ok`). `sc`, `pf` and `dc` hold the
/// printed figures of each row of the scores, the predictions and the
/// scored predictions; `ahead` marks each scored prediction that beat the
/// market, and `fillable` is the reachable count as the stat line words it.
#[verifier::rlimit(80)]
pub fn variant(
    family_name: &str,
    variant_name: &str,
    want_tab: &Option<String>,
    files: &VariantFiles,
    toml: &str,
    m: &VariantMeta,
    md: &str,
    result_texts: &[String],
    log_texts: &[String],
    tables: &[TomlTable],
    p: &Table,
    s: &Table,
    d: &Table,
    sc: &[ScoreFigs],
    pf: &[PredFigs],
    dc: &[(String, bool)],
    ahead: &[bool],
    fillable: &str,
    live: bool,
    banner: &str,
) -> (r: DetailPage)
    requires
        p.rows@.len() <= i64::MAX,
        d.rows@.len() <= i64::MAX,
        sc@.len() == s.rows@.len(),
        pf@.len() == p.rows@.len(),
        dc@.len() == d.rows@.len(),
        ahead@.len() == d.rows@.len(),
        variant_shown(family_name@, variant_name@, toml@, *files) ==> variant_inputs_ok(
            family_name@,
            variant_name@,
            match want_tab {
                Some(w) => w@,
                None => Seq::<char>::empty(),
            },
            *files,
            views(result_texts@),
            views(log_texts@),
            tables@,
            *p,
        ),
    ensures
        r.tabbed == variant_shown(family_name@, variant_name@, toml@, *files),
        !(is_safe_segment(family_name@) && is_safe_segment(variant_name@)) ==> r.live
            && r.leaf@.len() == 0 && r.bar@.len() == 0 && r.body@ == "<div class=\"empty\"><strong>"@
            + escaped("Unknown variant"@) + "</strong>"@ + ""@ + "</div>"@,
        is_safe_segment(family_name@) && is_safe_segment(variant_name@) && !r.tabbed ==> r.live
            == live && r.leaf@.len() == 0 && r.bar@.len() == 0 && r.body@ == variant_missing(
            variant_base(family_name@, variant_name@),
        ),
        ({
            let want = match want_tab {
                Some(w) => w@,
                None => Seq::<char>::empty(),
            };
            let active = variant_page_tab(family_name@, variant_name@, want, *files, *p);
            r.tabbed ==> r.live == live && r.leaf@ == variant_leaf(active) && r.bar@ == subbar(
                concat(
                    variant_links(
                        "/strategies/"@ + family_name@ + "/"@ + variant_name@,
                        files.has_md,
                        files.results@.len(),
                        variant_rows(*p, family_name@, variant_name@).len(),
                        files.logs@.len() > 0,
                        active,
                    ),
                ),
            ) && r.body@ == variant_body(
                family_name@,
                variant_name@,
                want,
                *files,
                *m,
                md@,
                views(result_texts@),
                views(log_texts@),
                tables@,
                *p,
                *s,
                *d,
                sc@,
                pf@,
                dc@,
                ahead@,
                fillable@,
                live,
                banner@,
            )
        }),
{
    proof {
        reveal_strlit("");
        reveal_strlit("how-it-works");
        reveal_strlit("results");
        reveal_strlit("predictions");
        reveal_strlit("logs");
    }
    if !safe_segment(family_name) || !safe_segment(variant_name) {
        let body = empty_state("Unknown variant", "");
        return DetailPage {
            tabbed: false,
            leaf: String::new(),
            bar: String::new(),
            body,
            live: true,
        };
    }
    let mut base = owned("strategies/");
    base.append(family_name);
    base.append("/");
    base.append(variant_name);
    if blank_text(toml) && !files.has_md {
        let e = empty_state(
            "Nothing here",
            "<div>No such variant in the repo. <a class=\"link\" href=\"/strategies\">Back to strategies</a>.</div>",
        );
        let body = section("Variant not found", base.as_str(), "", e.as_str());
        return DetailPage { tabbed: false, leaf: String::new(), bar: String::new(), body, live };
    }
    let ghost want = match want_tab {
        Some(w) => w@,
        None => Seq::<char>::empty(),
    };
    let rows = variant_rows_exec(p, family_name, variant_name);
    let scored = variant_rows_exec(d, family_name, variant_name);
    let np = p.rows.len();
    let nd = d.rows.len();
    proof {
        lemma_indices_where_bound(np as nat, of_variant(*p, family_name@, variant_name@));
        lemma_indices_where_bound(nd as nat, of_variant(*d, family_name@, variant_name@));
    }
    let mut page = owned("/strategies/");
    page.append(family_name);
    page.append("/");
    page.append(variant_name);
    let tabs = variant_tabs(
        page.as_str(),
        files.has_md,
        files.results.len(),
        rows.len(),
        files.logs.len() > 0,
        want_tab,
    );
    let ghost act = variant_page_tab(family_name@, variant_name@, want, *files, *p);
    proof {
        assert(tabs.active@ == act);
    }
    let mut key = owned(family_name);
    key.append("/");
    key.append(variant_name);
    let vs = variant_scored_exec(s, key.as_str());
    let nahead = count_marked_exec(scored.as_slice(), ahead);
    let stats = variant_stats_exec(m, rows.len(), scored.len(), nahead, fillable, sc, vs);
    let a = tabs.active.as_str();
    let content = if str_eq(a, "how-it-works") {
        variant_how_exec(base.as_str(), md)
    } else if str_eq(a, "results") {
        variant_results_exec(files.results.as_slice(), result_texts, files.artifacts.as_slice())
    } else if str_eq(a, "predictions") {
        prediction_table(p, d, rows.as_slice(), false, pf, dc)
    } else if str_eq(a, "logs") {
        variant_logs_exec(files.logs.as_slice(), log_texts)
    } else {
        proof {
            assert(a@.len() == 0);
        }
        variant_overview_exec(m, family_name, base.as_str(), files.apps.as_slice(), tables)
    };
    proof {
        assert(content@ == variant_content(
            family_name@,
            variant_name@,
            act,
            *files,
            *m,
            md@,
            views(result_texts@),
            views(log_texts@),
            tables@,
            *p,
            *d,
            pf@,
            dc@,
        ));
    }
    let mut body = if live {
        String::new()
    } else {
        owned(banner)
    };
    body.append(stats.as_str());
    body.append(content.as_str());
    DetailPage { tabbed: true, leaf: tabs.leaf, bar: tabs.bar, body, live }
}

} // verus!
