//! HTML rendering: the page components every page is built from, as string
//! building with the exact markup each one produces stated in its contract.
//!
//! Component vocabulary: section, stat_grid / stat_line, table, items / row,
//! badge / chip, notes, doc. Text arguments are escaped (`esc`); arguments
//! named `*_html` are already-safe HTML and are inserted verbatim.
use vstd::prelude::*;

use crate::sort::views;
use crate::number::{dec, parse_i64, push_dec};
use vstd::string::StrSliceExecFns;
use crate::text::{
    at, at_in, byte_len, char_at_byte, chars_of, contains_seq, find_char, find_char_in, find_seq,
    first_from, first_index, is_alnum, is_ws, lemma_first_from, lemma_find_seq_is,
    lemma_first_index_is, lemma_first_index_none, lemma_remove_absent, lemma_remove_char_add,
    lines, lines_in, owned, push_char, remove_char, push_window, replace_char, replace_first,
    set_pred, skip_set, split_once, starts_with, str_eq, string_of, trim, trim_start_by,
    trim_window, win, wins, windows_ok,
};

verus! {

// ---------------------------------------------------------------------------
// Sequences of text
// ---------------------------------------------------------------------------

/// The pieces joined end to end.
pub open spec fn concat(ss: Seq<Seq<char>>) -> Seq<char>
    decreases ss.len(),
{
    if ss.len() == 0 {
        Seq::empty()
    } else {
        concat(ss.drop_last()) + ss.last()
    }
}

pub proof fn lemma_concat_take(ss: Seq<Seq<char>>, i: int)
    requires
        0 <= i < ss.len(),
    ensures
        concat(ss.take(i + 1)) == concat(ss.take(i)) + ss[i],
{
    assert(ss.take(i + 1).drop_last() =~= ss.take(i));
}

pub proof fn lemma_concat_all(ss: Seq<Seq<char>>)
    ensures
        concat(ss.take(ss.len() as int)) == concat(ss),
{
    assert(ss.take(ss.len() as int) =~= ss);
}

// ---------------------------------------------------------------------------
// Escaping
// ---------------------------------------------------------------------------

/// One character, safe for HTML text and attribute values.
pub open spec fn esc_char(c: char) -> Seq<char> {
    if c == '&' {
        "&amp;"@
    } else if c == '<' {
        "&lt;"@
    } else if c == '>' {
        "&gt;"@
    } else if c == '"' {
        "&quot;"@
    } else if c == '\'' {
        "&#39;"@
    } else {
        seq![c]
    }
}

/// `s` escaped for HTML bodies and attribute values.
pub open spec fn escaped(s: Seq<char>) -> Seq<char>
    decreases s.len(),
{
    if s.len() == 0 {
        Seq::empty()
    } else {
        escaped(s.drop_last()) + esc_char(s.last())
    }
}

/// Appends `s[lo..hi]` escaped.
pub fn push_esc_window(out: &mut String, cs: &[char], lo: usize, hi: usize)
    requires
        lo <= hi <= cs@.len(),
    ensures
        final(out)@ == old(out)@ + escaped(cs@.subrange(lo as int, hi as int)),
{
    let ghost w = cs@.subrange(lo as int, hi as int);
    let mut i: usize = lo;
    while i < hi
        invariant
            lo <= i <= hi <= cs@.len(),
            w == cs@.subrange(lo as int, hi as int),
            out@ == old(out)@ + escaped(w.take(i - lo)),
        decreases hi - i,
    {
        let c = cs[i];
        let ghost before = out@;
        if c == '&' {
            out.append("&amp;");
        } else if c == '<' {
            out.append("&lt;");
        } else if c == '>' {
            out.append("&gt;");
        } else if c == '"' {
            out.append("&quot;");
        } else if c == '\'' {
            out.append("&#39;");
        } else {
            push_char(out, c);
            proof {
                assert(before.push(c) =~= before + seq![c]);
            }
        }
        proof {
            assert(w.take(i - lo + 1).drop_last() =~= w.take(i - lo));
            assert(w.take(i - lo + 1).last() == c);
            assert(out@ == before + esc_char(c));
        }
        i += 1;
    }
    proof {
        assert(w.take(hi - lo) =~= w);
    }
}

/// Appends `s` escaped.
pub fn push_esc(out: &mut String, s: &str)
    ensures
        final(out)@ == old(out)@ + escaped(s@),
{
    let cs = chars_of(s);
    push_esc_window(out, &cs, 0, cs.len());
    proof {
        assert(cs@.subrange(0, cs@.len() as int) =~= s@);
    }
}

/// Escape text for safe inclusion in HTML bodies and attribute values.
pub fn esc(s: &str) -> (r: String)
    ensures
        r@ == escaped(s@),
{
    let mut out = String::new();
    push_esc(&mut out, s);
    proof {
        assert(Seq::<char>::empty() + escaped(s@) =~= escaped(s@));
    }
    out
}

/// Escaped text holds none of the characters that could open markup or end
/// an attribute: no `<`, `>`, `"` or `'`.
pub proof fn law_escaped_is_inert(s: Seq<char>)
    ensures
        forall|i: int|
            0 <= i < escaped(s).len() ==> {
                let c = #[trigger] escaped(s)[i];
                c != '<' && c != '>' && c != '"' && c != '\''
            },
    decreases s.len(),
{
    reveal_strlit("&amp;");
    reveal_strlit("&lt;");
    reveal_strlit("&gt;");
    reveal_strlit("&quot;");
    reveal_strlit("&#39;");
    if s.len() > 0 {
        law_escaped_is_inert(s.drop_last());
        let a = escaped(s.drop_last());
        let b = esc_char(s.last());
        assert forall|i: int| 0 <= i < (a + b).len() implies {
            let c = #[trigger] (a + b)[i];
            c != '<' && c != '>' && c != '"' && c != '\''
        } by {
            if i >= a.len() {
                assert((a + b)[i] == b[i - a.len()]);
            } else {
                assert((a + b)[i] == a[i]);
            }
        }
    }
}

pub open spec fn ent_amp() -> Seq<char> {
    seq!['&', 'a', 'm', 'p', ';']
}

pub open spec fn ent_lt() -> Seq<char> {
    seq!['&', 'l', 't', ';']
}

pub open spec fn ent_gt() -> Seq<char> {
    seq!['&', 'g', 't', ';']
}

pub open spec fn ent_quot() -> Seq<char> {
    seq!['&', 'q', 'u', 'o', 't', ';']
}

pub open spec fn ent_apos() -> Seq<char> {
    seq!['&', '#', '3', '9', ';']
}

/// Whether `s` begins with `p`.
pub open spec fn opens_with(s: Seq<char>, p: Seq<char>) -> bool {
    p.len() <= s.len() && s.take(p.len() as int) == p
}

/// One left-to-right pass that reads the five entities `escaped` writes
/// back as their characters; every other character stands for itself.
pub open spec fn unescaped(s: Seq<char>) -> Seq<char>
    decreases s.len(),
{
    if s.len() == 0 {
        Seq::empty()
    } else if opens_with(s, ent_amp()) {
        seq!['&'] + unescaped(s.skip(5))
    } else if opens_with(s, ent_lt()) {
        seq!['<'] + unescaped(s.skip(4))
    } else if opens_with(s, ent_gt()) {
        seq!['>'] + unescaped(s.skip(4))
    } else if opens_with(s, ent_quot()) {
        seq!['"'] + unescaped(s.skip(6))
    } else if opens_with(s, ent_apos()) {
        seq!['\''] + unescaped(s.skip(5))
    } else {
        seq![s[0]] + unescaped(s.skip(1))
    }
}

/// A character `escaped` writes as an entity.
pub open spec fn markup_char(c: char) -> bool {
    c == '&' || c == '<' || c == '>' || c == '"' || c == '\''
}

proof fn lemma_escaped_append(a: Seq<char>, b: Seq<char>)
    ensures
        escaped(a + b) == escaped(a) + escaped(b),
    decreases b.len(),
{
    if b.len() == 0 {
        assert(a + b =~= a);
        assert(escaped(a) + escaped(b) =~= escaped(a));
    } else {
        lemma_escaped_append(a, b.drop_last());
        assert((a + b).drop_last() =~= a + b.drop_last());
        assert((a + b).last() == b.last());
    }
}

proof fn lemma_unescape_char(c: char, rest: Seq<char>)
    ensures
        unescaped(esc_char(c) + rest) == seq![c] + unescaped(rest),
{
    reveal_strlit("&amp;");
    reveal_strlit("&lt;");
    reveal_strlit("&gt;");
    reveal_strlit("&quot;");
    reveal_strlit("&#39;");
    assert("&amp;"@ =~= ent_amp());
    assert("&lt;"@ =~= ent_lt());
    assert("&gt;"@ =~= ent_gt());
    assert("&quot;"@ =~= ent_quot());
    assert("&#39;"@ =~= ent_apos());
    let e = esc_char(c) + rest;
    let n = esc_char(c).len() as int;
    assert(e.skip(n) =~= rest);
    assert(e.take(n) =~= esc_char(c));
    assert(e[0] == esc_char(c)[0]);
    if c != '&' && c != '<' && c != '>' && c != '"' && c != '\'' {
        assert(e[0] == c);
        assert(!opens_with(e, ent_amp()) && !opens_with(e, ent_lt()) && !opens_with(e, ent_gt())
            && !opens_with(e, ent_quot()) && !opens_with(e, ent_apos())) by {
            if opens_with(e, ent_amp()) {
                assert(e.take(5)[0] == e[0]);
            }
            if opens_with(e, ent_lt()) {
                assert(e.take(4)[0] == e[0]);
            }
            if opens_with(e, ent_gt()) {
                assert(e.take(4)[0] == e[0]);
            }
            if opens_with(e, ent_quot()) {
                assert(e.take(6)[0] == e[0]);
            }
            if opens_with(e, ent_apos()) {
                assert(e.take(5)[0] == e[0]);
            }
        }
    } else if c == '<' {
        assert(!opens_with(e, ent_amp())) by {
            if opens_with(e, ent_amp()) {
                assert(e.take(5)[1] == e[1]);
            }
        }
    } else if c == '>' {
        assert(e.take(4) =~= ent_gt());
        assert(!opens_with(e, ent_amp())) by {
            if opens_with(e, ent_amp()) {
                assert(e.take(5)[1] == e[1]);
            }
        }
        assert(!opens_with(e, ent_lt())) by {
            if opens_with(e, ent_lt()) {
                assert(e.take(4)[1] == e[1]);
            }
        }
    } else if c == '"' {
        assert(!opens_with(e, ent_amp())) by {
            if opens_with(e, ent_amp()) {
                assert(e.take(5)[1] == e[1]);
            }
        }
        assert(!opens_with(e, ent_lt())) by {
            if opens_with(e, ent_lt()) {
                assert(e.take(4)[1] == e[1]);
            }
        }
        assert(!opens_with(e, ent_gt())) by {
            if opens_with(e, ent_gt()) {
                assert(e.take(4)[1] == e[1]);
            }
        }
    } else if c == '\'' {
        assert(!opens_with(e, ent_amp())) by {
            if opens_with(e, ent_amp()) {
                assert(e.take(5)[1] == e[1]);
            }
        }
        assert(!opens_with(e, ent_lt())) by {
            if opens_with(e, ent_lt()) {
                assert(e.take(4)[1] == e[1]);
            }
        }
        assert(!opens_with(e, ent_gt())) by {
            if opens_with(e, ent_gt()) {
                assert(e.take(4)[1] == e[1]);
            }
        }
        assert(!opens_with(e, ent_quot())) by {
            if opens_with(e, ent_quot()) {
                assert(e.take(6)[1] == e[1]);
            }
        }
    }
}

/// Reading the entities of escaped text back gives the text, and text with
/// none of `& < > " '` is its own escape.
pub proof fn law_escaping_round_trips(s: Seq<char>)
    ensures
        unescaped(escaped(s)) == s,
        (forall|i: int| 0 <= i < s.len() ==> !markup_char(#[trigger] s[i])) ==> escaped(s) == s,
    decreases s.len(),
{
    if s.len() > 0 {
        let rest = s.skip(1);
        law_escaping_round_trips(rest);
        assert(s =~= seq![s[0]] + rest);
        lemma_escaped_append(seq![s[0]], rest);
        assert(seq![s[0]].drop_last() =~= Seq::<char>::empty());
        assert(escaped(seq![s[0]]) == escaped(Seq::<char>::empty()) + esc_char(s[0]));
        assert(escaped(seq![s[0]]) =~= esc_char(s[0]));
        lemma_unescape_char(s[0], escaped(rest));
        if forall|i: int| 0 <= i < s.len() ==> !markup_char(#[trigger] s[i]) {
            assert(!markup_char(s[0]));
            assert forall|i: int| 0 <= i < rest.len() implies !markup_char(#[trigger] rest[i]) by {
                assert(rest[i] == s[i + 1]);
            }
            assert(esc_char(s[0]) == seq![s[0]]);
        }
    }
}

// ---------------------------------------------------------------------------
// Small components
// ---------------------------------------------------------------------------

/// Appends a `String`.
pub fn push_str(out: &mut String, s: &String)
    ensures
        final(out)@ == old(out)@ + s@,
{
    out.append(s.as_str());
}

/// The CSS class of a badge tone.
pub open spec fn badge_class(tone: Seq<char>) -> Seq<char> {
    if tone == "ok"@ {
        "badge badge-ok"@
    } else if tone == "warn"@ {
        "badge badge-warn"@
    } else if tone == "bad"@ {
        "badge badge-bad"@
    } else if tone == "info"@ {
        "badge badge-info"@
    } else {
        "badge"@
    }
}

pub open spec fn badge_html(text: Seq<char>, tone: Seq<char>) -> Seq<char> {
    "<span class=\""@ + badge_class(tone) + "\">"@ + escaped(text) + "</span>"@
}

/// tone: "" (neutral) | "ok" | "warn" | "bad" | "info"
pub fn badge(text: &str, tone: &str) -> (r: String)
    ensures
        r@ == badge_html(text@, tone@),
{
    let class = if str_eq(tone, "ok") {
        "badge badge-ok"
    } else if str_eq(tone, "warn") {
        "badge badge-warn"
    } else if str_eq(tone, "bad") {
        "badge badge-bad"
    } else if str_eq(tone, "info") {
        "badge badge-info"
    } else {
        "badge"
    };
    let mut out = owned("<span class=\"");
    out.append(class);
    out.append("\">");
    push_esc(&mut out, text);
    out.append("</span>");
    out
}

pub open spec fn chip_html(text: Seq<char>) -> Seq<char> {
    "<span class=\"chip\">"@ + escaped(text) + "</span>"@
}

pub fn chip(text: &str) -> (r: String)
    ensures
        r@ == chip_html(text@),
{
    let mut out = owned("<span class=\"chip\">");
    push_esc(&mut out, text);
    out.append("</span>");
    out
}

pub open spec fn chips(items: Seq<Seq<char>>) -> Seq<Seq<char>> {
    items.map_values(|t: Seq<char>| chip_html(t))
}

pub fn chip_row(items: &[String]) -> (r: String)
    ensures
        r@ == "<div class=\"chip-row\">"@ + concat(chips(items@.map_values(|s: String| s@)))
            + "</div>"@,
{
    let ghost v = items@.map_values(|s: String| s@);
    let mut out = owned("<div class=\"chip-row\">");
    let ghost start = out@;
    let mut i: usize = 0;
    while i < items.len()
        invariant
            i <= items@.len(),
            v == items@.map_values(|s: String| s@),
            out@ == start + concat(chips(v).take(i as int)),
        decreases items.len() - i,
    {
        let c = chip(items[i].as_str());
        push_str(&mut out, &c);
        proof {
            lemma_concat_take(chips(v), i as int);
        }
        i += 1;
    }
    proof {
        lemma_concat_all(chips(v));
    }
    out.append("</div>");
    out
}

/// Status word → badge tone, shared by strategy status, message frontmatter
/// status and run step status.
pub open spec fn status_tone_of(status: Seq<char>) -> Seq<char> {
    if status == "ok"@ || status == "done"@ || status == "answered"@ || status == "closed"@
        || status == "resolved"@ || status == "adopted"@ || status == "live"@ || status
        == "true"@ {
        "ok"@
    } else if status == "open"@ || status == "pending"@ || status == "trialing"@ || status
        == "trial"@ || status == "skipped"@ || status == "in-flight"@ {
        "warn"@
    } else if status == "failed"@ || status == "rejected"@ || status == "dead"@ || status
        == "retired"@ || status == "killed"@ || status == "false"@ {
        "bad"@
    } else if status == "parked"@ || status == "dormant"@ {
        ""@
    } else if crate::text::starts_with(status, "kill"@) {
        "bad"@
    } else {
        ""@
    }
}

pub fn status_tone(status: &str) -> (r: &'static str)
    ensures
        r@ == status_tone_of(status@),
{
    if str_eq(status, "ok") || str_eq(status, "done") || str_eq(status, "answered") || str_eq(
        status,
        "closed",
    ) || str_eq(status, "resolved") || str_eq(status, "adopted") || str_eq(status, "live")
        || str_eq(status, "true") {
        "ok"
    } else if str_eq(status, "open") || str_eq(status, "pending") || str_eq(status, "trialing")
        || str_eq(status, "trial") || str_eq(status, "skipped") || str_eq(status, "in-flight") {
        "warn"
    } else if str_eq(status, "failed") || str_eq(status, "rejected") || str_eq(status, "dead")
        || str_eq(status, "retired") || str_eq(status, "killed") || str_eq(status, "false") {
        "bad"
    } else if str_eq(status, "parked") || str_eq(status, "dormant") {
        ""
    } else if crate::text::str_starts_with(status, "kill") {
        "bad"
    } else {
        ""
    }
}

pub fn status_badge(status: &str) -> (r: String)
    ensures
        r@ == badge_html(status@, status_tone_of(status@)),
{
    badge(status, status_tone(status))
}

pub fn empty_state(title: &str, detail_html: &str) -> (r: String)
    ensures
        r@ == "<div class=\"empty\"><strong>"@ + escaped(title@) + "</strong>"@ + detail_html@
            + "</div>"@,
{
    let mut out = owned("<div class=\"empty\"><strong>");
    push_esc(&mut out, title);
    out.append("</strong>");
    out.append(detail_html);
    out.append("</div>");
    out
}

pub fn note(html_inner: &str) -> (r: String)
    ensures
        r@ == "<p class=\"note\">"@ + html_inner@ + "</p>"@,
{
    let mut out = owned("<p class=\"note\">");
    out.append(html_inner);
    out.append("</p>");
    out
}

pub open spec fn list_items(items: Seq<Seq<char>>) -> Seq<Seq<char>> {
    items.map_values(|n: Seq<char>| "<li>"@ + n + "</li>"@)
}

pub open spec fn notes_html(items: Seq<Seq<char>>) -> Seq<char> {
    "<ul class=\"notes\">"@ + concat(list_items(items)) + "</ul>"@
}

/// A short list of caveats. Each entry is already-safe HTML.
pub fn notes(items: &[String]) -> (r: String)
    ensures
        r@ == notes_html(items@.map_values(|s: String| s@)),
{
    let ghost v = items@.map_values(|s: String| s@);
    let mut out = owned("<ul class=\"notes\">");
    let ghost start = out@;
    let mut i: usize = 0;
    while i < items.len()
        invariant
            i <= items@.len(),
            v == items@.map_values(|s: String| s@),
            out@ == start + concat(list_items(v).take(i as int)),
        decreases items.len() - i,
    {
        out.append("<li>");
        out.append(items[i].as_str());
        out.append("</li>");
        proof {
            lemma_concat_take(list_items(v), i as int);
        }
        i += 1;
    }
    proof {
        lemma_concat_all(list_items(v));
    }
    out.append("</ul>");
    out
}

pub open spec fn row_html(key: Seq<char>, value_html: Seq<char>) -> Seq<char> {
    "<div class=\"row\"><span class=\"k\">"@ + escaped(key) + "</span><span class=\"v\">"@
        + value_html + "</span></div>"@
}

/// key → value row inside a list. `value_html` is already-safe HTML.
pub fn row(key: &str, value_html: &str) -> (r: String)
    ensures
        r@ == row_html(key@, value_html@),
{
    let mut out = owned("<div class=\"row\"><span class=\"k\">");
    push_esc(&mut out, key);
    out.append("</span><span class=\"v\">");
    out.append(value_html);
    out.append("</span></div>");
    out
}

pub fn rows(inner: &str) -> (r: String)
    ensures
        r@ == "<div class=\"rows\">"@ + inner@ + "</div>"@,
{
    let mut out = owned("<div class=\"rows\">");
    out.append(inner);
    out.append("</div>");
    out
}

/// Compact list entry: title + sub line on the left, trailing HTML right.
/// `href` empty ⇒ not a link.
pub open spec fn item_html(
    href: Seq<char>,
    title_html: Seq<char>,
    sub_html: Seq<char>,
    trailing_html: Seq<char>,
) -> Seq<char> {
    let inner = "<div class=\"item-main\"><div class=\"item-title\">"@ + title_html
        + "</div><div class=\"item-sub\">"@ + sub_html + "</div></div>"@ + trailing_html;
    if href.len() == 0 {
        "<div class=\"item\">"@ + inner + "</div>"@
    } else {
        "<a class=\"item\" href=\""@ + escaped(href) + "\">"@ + inner + "</a>"@
    }
}

pub fn item(href: &str, title_html: &str, sub_html: &str, trailing_html: &str) -> (r: String)
    ensures
        r@ == item_html(href@, title_html@, sub_html@, trailing_html@),
{
    let mut inner = owned("<div class=\"item-main\"><div class=\"item-title\">");
    inner.append(title_html);
    inner.append("</div><div class=\"item-sub\">");
    inner.append(sub_html);
    inner.append("</div></div>");
    inner.append(trailing_html);
    if href.is_empty() {
        let mut out = owned("<div class=\"item\">");
        push_str(&mut out, &inner);
        out.append("</div>");
        out
    } else {
        let mut out = owned("<a class=\"item\" href=\"");
        push_esc(&mut out, href);
        out.append("\">");
        push_str(&mut out, &inner);
        out.append("</a>");
        out
    }
}

pub fn items(inner: &str) -> (r: String)
    ensures
        r@ == "<div class=\"items\">"@ + inner@ + "</div>"@,
{
    let mut out = owned("<div class=\"items\">");
    out.append(inner);
    out.append("</div>");
    out
}

// ---------------------------------------------------------------------------
// Sections
// ---------------------------------------------------------------------------

pub open spec fn section_html(
    title: Seq<char>,
    subtitle: Seq<char>,
    chip_html: Seq<char>,
    body_html: Seq<char>,
    foot: Seq<char>,
) -> Seq<char> {
    let sub = if subtitle.len() == 0 {
        Seq::empty()
    } else {
        "<span class=\"sec-sub\">"@ + escaped(subtitle) + "</span>"@
    };
    let head = if title.len() == 0 && subtitle.len() == 0 && chip_html.len() == 0 {
        Seq::empty()
    } else {
        "<div class=\"sec-head\"><h2 class=\"sec-title\">"@ + escaped(title) + "</h2>"@ + sub
            + chip_html + "</div>"@
    };
    "<section class=\"sec\">"@ + head + "<div class=\"sec-body\">"@ + body_html + "</div>"@ + foot
        + "</section>"@
}

fn section_inner(title: &str, subtitle: &str, chip_html: &str, body_html: &str, foot: &str) -> (r:
    String)
    ensures
        r@ == section_html(title@, subtitle@, chip_html@, body_html@, foot@),
{
    let mut out = owned("<section class=\"sec\">");
    let ghost s0 = out@;
    if !(title.is_empty() && subtitle.is_empty() && chip_html.is_empty()) {
        out.append("<div class=\"sec-head\"><h2 class=\"sec-title\">");
        push_esc(&mut out, title);
        out.append("</h2>");
        if !subtitle.is_empty() {
            out.append("<span class=\"sec-sub\">");
            push_esc(&mut out, subtitle);
            out.append("</span>");
        }
        out.append(chip_html);
        out.append("</div>");
    }
    proof {
        reveal_strlit("");
        let sub = if subtitle@.len() == 0 {
            Seq::<char>::empty()
        } else {
            "<span class=\"sec-sub\">"@ + escaped(subtitle@) + "</span>"@
        };
        let head = if title@.len() == 0 && subtitle@.len() == 0 && chip_html@.len() == 0 {
            Seq::<char>::empty()
        } else {
            "<div class=\"sec-head\"><h2 class=\"sec-title\">"@ + escaped(title@) + "</h2>"@
                + sub + chip_html@ + "</div>"@
        };
        if subtitle@.len() == 0 {
            assert(sub =~= Seq::<char>::empty());
        }
        if title@.len() == 0 && subtitle@.len() == 0 && chip_html@.len() == 0 {
            assert(out@ =~= s0 + head);
        } else {
            assert(out@ =~= s0 + head);
        }
    }
    out.append("<div class=\"sec-body\">");
    out.append(body_html);
    out.append("</div>");
    out.append(foot);
    out.append("</section>");
    out
}

/// Section: title (+ optional one-line subtitle beside it, and a chip on the
/// right), then the body. `body_html` is already-safe HTML.
pub fn section(title: &str, subtitle: &str, chip_html: &str, body_html: &str) -> (r: String)
    ensures
        r@ == section_html(title@, subtitle@, chip_html@, body_html@, Seq::empty()),
{
    proof {
        reveal_strlit("");
    }
    section_inner(title, subtitle, chip_html, body_html, "")
}

/// Section with a footer strip (source path, links, counts).
pub fn section_foot(
    title: &str,
    subtitle: &str,
    chip_html: &str,
    body_html: &str,
    foot_html: &str,
) -> (r: String)
    ensures
        r@ == section_html(
            title@,
            subtitle@,
            chip_html@,
            body_html@,
            "<div class=\"sec-foot\">"@ + foot_html@ + "</div>"@,
        ),
{
    let mut foot = owned("<div class=\"sec-foot\">");
    foot.append(foot_html);
    foot.append("</div>");
    section_inner(title, subtitle, chip_html, body_html, foot.as_str())
}

/// A footed section is the plain section with its foot put just before the
/// closing tag; either carries the `sec-head` header exactly when it has a
/// title, a subtitle or a chip.
pub proof fn law_footed_section(
    title: Seq<char>,
    subtitle: Seq<char>,
    chip_html: Seq<char>,
    body_html: Seq<char>,
    foot: Seq<char>,
)
    ensures
        ({
            let plain = section_html(title, subtitle, chip_html, body_html, Seq::empty());
            &&& plain.len() >= 10
            &&& section_html(title, subtitle, chip_html, body_html, foot) == plain.subrange(
                0,
                plain.len() - 10,
            ) + foot + "</section>"@
        }),
        starts_with(
            section_html(title, subtitle, chip_html, body_html, foot),
            "<section class=\"sec\"><div class=\"sec-head\">"@,
        ) <==> !(title.len() == 0 && subtitle.len() == 0 && chip_html.len() == 0),
{
    reveal_strlit("</section>");
    reveal_strlit("<section class=\"sec\">");
    reveal_strlit("<div class=\"sec-head\"><h2 class=\"sec-title\">");
    reveal_strlit("<section class=\"sec\"><div class=\"sec-head\">");
    reveal_strlit("<div class=\"sec-body\">");
    let sub = if subtitle.len() == 0 {
        Seq::empty()
    } else {
        "<span class=\"sec-sub\">"@ + escaped(subtitle) + "</span>"@
    };
    let head = if title.len() == 0 && subtitle.len() == 0 && chip_html.len() == 0 {
        Seq::empty()
    } else {
        "<div class=\"sec-head\"><h2 class=\"sec-title\">"@ + escaped(title) + "</h2>"@ + sub
            + chip_html + "</div>"@
    };
    let pre = "<section class=\"sec\">"@ + head + "<div class=\"sec-body\">"@ + body_html + "</div>"@;
    let plain = section_html(title, subtitle, chip_html, body_html, Seq::empty());
    assert(plain =~= pre + "</section>"@);
    assert(plain.subrange(0, plain.len() - 10) =~= pre);
    assert(section_html(title, subtitle, chip_html, body_html, foot) =~= pre + foot + "</section>"@);
    let full = section_html(title, subtitle, chip_html, body_html, foot);
    let want = "<section class=\"sec\"><div class=\"sec-head\">"@;
    if title.len() == 0 && subtitle.len() == 0 && chip_html.len() == 0 {
        assert(head =~= Seq::<char>::empty());
        assert(full[37] == ("<div class=\"sec-body\">"@)[16]);
        assert(full[37] == 'b');
        assert(want[37] == 'h');
        assert(!starts_with(full, want)) by {
            if starts_with(full, want) {
                assert(full.subrange(0, want.len() as int)[37] == full[37]);
            }
        }
    } else {
        assert(full.subrange(0, want.len() as int) =~= want);
    }
}

/// A `<details>` block: summary line, meta line, body.
pub open spec fn doc_html(
    summary_html: Seq<char>,
    meta_html: Seq<char>,
    body_html: Seq<char>,
    open: bool,
) -> Seq<char> {
    "<details class=\"doc\""@ + (if open {
        " open"@
    } else {
        Seq::empty()
    }) + "><summary><span class=\"doc-title\">"@ + summary_html
        + "</span><span class=\"doc-meta\">"@ + meta_html
        + "</span></summary><div class=\"doc-body\">"@ + body_html + "</div></details>"@
}

/// `<details>` block: summary line + already-safe body HTML.
pub fn doc(summary_html: &str, meta_html: &str, body_html: &str, open: bool) -> (r: String)
    ensures
        r@ == doc_html(summary_html@, meta_html@, body_html@, open),
{
    let mut out = owned("<details class=\"doc\"");
    let ghost s0 = out@;
    if open {
        out.append(" open");
    }
    proof {
        if !open {
            assert(s0 =~= s0 + Seq::<char>::empty());
        }
    }
    out.append("><summary><span class=\"doc-title\">");
    out.append(summary_html);
    out.append("</span><span class=\"doc-meta\">");
    out.append(meta_html);
    out.append("</span></summary><div class=\"doc-body\">");
    out.append(body_html);
    out.append("</div></details>");
    out
}

// ---------------------------------------------------------------------------
// Number formatting
// ---------------------------------------------------------------------------

/// The digits of `s` with a `,` before every group of three counted from the
/// right.
pub open spec fn group3(s: Seq<char>) -> Seq<char>
    decreases s.len(),
{
    if s.len() <= 3 {
        s
    } else {
        group3(s.subrange(0, s.len() - 3)) + seq![','] + s.subrange(s.len() - 3, s.len() as int)
    }
}

/// `fmt_int`: thousands separators and the typographic minus `−`.
pub open spec fn fmt_int_of(v: int) -> Seq<char> {
    if v < 0 {
        seq!['\u{2212}'] + group3(dec((-v) as nat))
    } else {
        group3(dec(v as nat))
    }
}

/// The digits `d` with separators, emitted left to right: a `,` before
/// position `i > 0` when a multiple of three digits remain.
pub open spec fn grouped_prefix(d: Seq<char>, i: int) -> Seq<char>
    decreases i,
{
    if i <= 0 {
        Seq::empty()
    } else if i - 1 > 0 && (d.len() - (i - 1)) % 3 == 0 {
        grouped_prefix(d, i - 1) + seq![',', d[i - 1]]
    } else {
        grouped_prefix(d, i - 1) + seq![d[i - 1]]
    }
}

proof fn lemma_grouped_suffix(d: Seq<char>, n: int)
    requires
        3 < n,
        n == d.len(),
    ensures
        grouped_prefix(d, n) == grouped_prefix(d.subrange(0, n - 3), n - 3) + seq![','] + d.subrange(
            n - 3,
            n,
        ),
{
    lemma_grouped_shift(d, n - 3, n - 3);
    let a = grouped_prefix(d, n - 3);
    assert(grouped_prefix(d, n - 2) == a + seq![',', d[n - 3]]);
    assert(grouped_prefix(d, n - 1) == a + seq![',', d[n - 3]] + seq![d[n - 2]]);
    assert(grouped_prefix(d, n) == a + seq![',', d[n - 3]] + seq![d[n - 2]] + seq![d[n - 1]]);
    assert(a + seq![',', d[n - 3]] + seq![d[n - 2]] + seq![d[n - 1]] =~= a + seq![','] + d.subrange(
        n - 3,
        n,
    ));
}

/// The separators only depend on how many digits remain, so dropping the
/// last three digits leaves the grouping of the rest unchanged.
proof fn lemma_grouped_shift(d: Seq<char>, m: int, i: int)
    requires
        0 <= i <= m,
        m + 3 == d.len(),
    ensures
        grouped_prefix(d, i) == grouped_prefix(d.subrange(0, m), i),
    decreases i,
{
    if i > 0 {
        lemma_grouped_shift(d, m, i - 1);
        let e = d.subrange(0, m);
        assert(e[i - 1] == d[i - 1]);
        assert((d.len() - (i - 1)) % 3 == (e.len() - (i - 1)) % 3);
    }
}

pub proof fn lemma_grouped(d: Seq<char>)
    ensures
        grouped_prefix(d, d.len() as int) == group3(d),
    decreases d.len(),
{
    let n = d.len() as int;
    if n <= 3 {
        assert forall|i: int| 0 <= i <= n implies grouped_prefix(d, i) == d.subrange(0, i) by {
            lemma_grouped_small(d, i);
        }
        assert(d.subrange(0, n) =~= d);
    } else {
        lemma_grouped_suffix(d, n);
        lemma_grouped(d.subrange(0, n - 3));
    }
}

proof fn lemma_grouped_small(d: Seq<char>, i: int)
    requires
        d.len() <= 3,
        0 <= i <= d.len(),
    ensures
        grouped_prefix(d, i) == d.subrange(0, i),
    decreases i,
{
    if i > 0 {
        lemma_grouped_small(d, i - 1);
        assert(d.subrange(0, i - 1) + seq![d[i - 1]] =~= d.subrange(0, i));
    } else {
        assert(d.subrange(0, 0) =~= Seq::<char>::empty());
    }
}

proof fn lemma_group3_digits(d: Seq<char>)
    ensures
        remove_char(group3(d), ',') == remove_char(d, ','),
    decreases d.len(),
{
    if d.len() > 3 {
        let n = d.len() as int;
        let front = d.subrange(0, n - 3);
        let back = d.subrange(n - 3, n);
        lemma_group3_digits(front);
        lemma_remove_char_add(group3(front) + seq![','], back, ',');
        lemma_remove_char_add(group3(front), seq![','], ',');
        let one = seq![','];
        assert(one.last() == ',');
        assert(one.drop_last() =~= Seq::<char>::empty());
        assert(remove_char(Seq::<char>::empty(), ',') == Seq::<char>::empty());
        assert(remove_char(one, ',') == remove_char(one.drop_last(), ','));
        assert(remove_char(seq![','], ',') =~= Seq::<char>::empty());
        lemma_remove_char_add(front, back, ',');
        assert(front + back =~= d);
        assert(remove_char(group3(front), ',') + Seq::<char>::empty() =~= remove_char(
            group3(front),
            ',',
        ));
    }
}

/// A formatted number reads back as itself: without its commas, and with
/// its minus sign as `-`, `fmt_int`'s text parses as the same `i64`.
pub proof fn law_fmt_int_reads_back(v: i64)
    ensures
        parse_i64(replace_char(remove_char(fmt_int_of(v as int), ','), '\u{2212}', '-')) == Some(v),
{
    let m: nat = (if v < 0 {
        -(v as int)
    } else {
        v as int
    }) as nat;
    let d = dec(m);
    crate::number::lemma_dec_digits(m);
    crate::number::lemma_dec_len(m);
    crate::number::lemma_dec_val(m);
    assert(!d.contains(',')) by {
        if d.contains(',') {
            let j = choose|j: int| 0 <= j < d.len() && d[j] == ',';
            assert(crate::text::is_digit(d[j]));
        }
    }
    lemma_group3_digits(d);
    lemma_remove_absent(d, ',');
    let t = if v < 0 {
        seq!['-'] + d
    } else {
        d
    };
    if v < 0 {
        let sign = seq!['\u{2212}'];
        lemma_remove_char_add(sign, group3(d), ',');
        assert(sign.drop_last() =~= Seq::<char>::empty());
        assert(remove_char(Seq::<char>::empty(), ',') == Seq::<char>::empty());
        assert(remove_char(sign, ',') == remove_char(sign.drop_last(), ',').push(sign.last()));
        assert(remove_char(fmt_int_of(v as int), ',') =~= sign + d);
        assert(replace_char(sign + d, '\u{2212}', '-') =~= t) by {
            assert forall|j: int| 0 <= j < d.len() implies d[j] != '\u{2212}' by {
                assert(crate::text::is_digit(d[j]));
            }
        }
        assert(t.drop_first() =~= d);
    } else {
        assert(replace_char(d, '\u{2212}', '-') =~= d) by {
            assert forall|j: int| 0 <= j < d.len() implies d[j] != '\u{2212}' by {
                assert(crate::text::is_digit(d[j]));
            }
        }
        assert(d[0] != '+' && d[0] != '-') by {
            assert(crate::text::is_digit(d[0]));
        }
    }
}

/// The separators are all `fmt_int` adds: without its commas and its minus
/// sign, a formatted number is the plain decimal digits of its magnitude.
pub proof fn law_fmt_int_is_the_digits(v: int)
    ensures
        remove_char(remove_char(fmt_int_of(v), ','), '\u{2212}') == dec(
            (if v < 0 {
                -v
            } else {
                v
            }) as nat,
        ),
{
    let d = dec((if v < 0 {
        -v
    } else {
        v
    }) as nat);
    crate::number::lemma_dec_digits((if v < 0 {
        -v
    } else {
        v
    }) as nat);
    assert(!d.contains(',')) by {
        if d.contains(',') {
            let j = choose|j: int| 0 <= j < d.len() && d[j] == ',';
            assert(crate::text::is_digit(d[j]));
        }
    }
    assert(!d.contains('\u{2212}')) by {
        if d.contains('\u{2212}') {
            let j = choose|j: int| 0 <= j < d.len() && d[j] == '\u{2212}';
            assert(crate::text::is_digit(d[j]));
        }
    }
    lemma_group3_digits(d);
    lemma_remove_absent(d, ',');
    lemma_remove_absent(d, '\u{2212}');
    if v < 0 {
        let m = seq!['\u{2212}'];
        lemma_remove_char_add(m, group3(d), ',');
        assert(m.drop_last() =~= Seq::<char>::empty());
        assert(m.last() == '\u{2212}');
        assert(remove_char(Seq::<char>::empty(), ',') == Seq::<char>::empty());
        assert(remove_char(Seq::<char>::empty(), '\u{2212}') == Seq::<char>::empty());
        assert(remove_char(m, ',') == remove_char(m.drop_last(), ',').push(m.last()));
        assert(remove_char(m, ',') =~= m);
        assert(remove_char(m, '\u{2212}') == remove_char(m.drop_last(), '\u{2212}'));
        lemma_remove_char_add(m, d, '\u{2212}');
        assert(remove_char(m, '\u{2212}') =~= Seq::<char>::empty());
        assert(Seq::<char>::empty() + d =~= d);
    }
}

/// Thousands separators for counts (108, 2 050 000 → "2,050,000").
pub fn fmt_int(v: i64) -> (r: String)
    requires
        v > i64::MIN,
    ensures
        r@ == fmt_int_of(v as int),
{
    let neg = v < 0;
    let mag: u64 = if neg {
        (-v) as u64
    } else {
        v as u64
    };
    let ds = crate::number::u64_string(mag);
    let digits = chars_of(ds.as_str());
    let mut out = String::new();
    let mut i: usize = 0;
    while i < digits.len()
        invariant
            i <= digits@.len(),
            out@ == grouped_prefix(digits@, i as int),
        decreases digits.len() - i,
    {
        if i > 0 && (digits.len() - i) % 3 == 0 {
            push_char(&mut out, ',');
        }
        push_char(&mut out, digits[i]);
        proof {
            let d = digits@;
            let j = (i + 1) as int;
            if i > 0 && (d.len() - i) % 3 == 0 {
                assert(out@ =~= grouped_prefix(d, j - 1) + seq![',', d[j - 1]]);
            } else {
                assert(out@ =~= grouped_prefix(d, j - 1) + seq![d[j - 1]]);
            }
        }
        i += 1;
    }
    proof {
        lemma_grouped(digits@);
    }
    if neg {
        let mut m = String::new();
        push_char(&mut m, '\u{2212}');
        push_str(&mut m, &out);
        proof {
            assert(Seq::<char>::empty().push('\u{2212}') =~= seq!['\u{2212}']);
        }
        m
    } else {
        out
    }
}

/// Whether a word ends in a vowel before its final `y`.
pub open spec fn vowel(c: char) -> bool {
    c == 'a' || c == 'e' || c == 'i' || c == 'o' || c == 'u'
}

/// "1 variant" / "3 variants"; "-y → -ies" only after a consonant.
pub open spec fn count_of(n: nat, noun: Seq<char>) -> Seq<char> {
    if n == 1 {
        "1 "@ + noun
    } else if noun.len() > 0 && noun.last() == 'y' && !(noun.len() >= 2 && vowel(
        noun[noun.len() - 2],
    )) {
        dec(n) + " "@ + noun.drop_last() + "ies"@
    } else {
        dec(n) + " "@ + noun + "s"@
    }
}

/// "1 variant" / "3 variants" — every count chip goes through here.
pub fn count(n: usize, noun: &str) -> (r: String)
    ensures
        r@ == count_of(n as nat, noun@),
{
    if n == 1 {
        let mut out = owned("1 ");
        out.append(noun);
        return out;
    }
    let cs = chars_of(noun);
    let k = cs.len();
    let mut out = String::new();
    push_dec(&mut out, n as u64);
    out.append(" ");
    if k > 0 && cs[k - 1] == 'y' && !(k >= 2 && (cs[k - 2] == 'a' || cs[k - 2] == 'e' || cs[k
        - 2] == 'i' || cs[k - 2] == 'o' || cs[k - 2] == 'u')) {
        crate::text::push_window(&mut out, &cs, 0, k - 1);
        out.append("ies");
        proof {
            assert(cs@.subrange(0, k - 1) =~= noun@.drop_last());
        }
    } else {
        out.append(noun);
        out.append("s");
    }
    proof {
        assert(Seq::<char>::empty() + dec(n as nat) =~= dec(n as nat));
    }
    out
}

// ---------------------------------------------------------------------------
// Page shell values
// ---------------------------------------------------------------------------

/// One breadcrumb hop. `href` empty ⇒ the current page (rendered as text).
pub struct Crumb {
    pub label: String,
    pub href: String,
}

pub fn crumb(label: &str, href: &str) -> (r: Crumb)
    ensures
        r.label@ == label@,
        r.href@ == href@,
{
    Crumb { label: owned(label), href: owned(href) }
}

/// What the top-right freshness indicator says.
pub struct Freshness {
    /// true ⇒ every read on this page came from GitHub at request time.
    pub live: bool,
    /// Repo timestamp shown next to the dot. Empty when nothing could be read.
    pub stamp: String,
    pub build: String,
    /// What went wrong, in words. `Some` ⇒ the page is showing an incomplete
    /// picture and the banner says why.
    pub reason: Option<String>,
}

// ---------------------------------------------------------------------------
// Stats
// ---------------------------------------------------------------------------

pub struct Stat {
    /// Already-safe HTML (usually a number, optionally with a <small> suffix).
    pub value: String,
    pub label: String,
    /// "" | "ok" | "warn" | "bad"
    pub tone: &'static str,
    /// One short line under the label. Plain text.
    pub context: String,
    /// Wraps the value in a link when set.
    pub href: String,
}

pub fn stat(value: &str, label: &str) -> (r: Stat)
    ensures
        r.value@ == value@,
        r.label@ == label@,
        r.tone@ == Seq::<char>::empty(),
        r.context@ == Seq::<char>::empty(),
        r.href@ == Seq::<char>::empty(),
{
    proof {
        reveal_strlit("");
    }
    Stat {
        value: owned(value),
        label: owned(label),
        tone: "",
        context: String::new(),
        href: String::new(),
    }
}

impl Stat {
    pub fn tone(self, tone: &'static str) -> (r: Self)
        ensures
            r.tone == tone,
            r.value == self.value,
            r.label == self.label,
            r.context == self.context,
            r.href == self.href,
    {
        let mut s = self;
        s.tone = tone;
        s
    }

    pub fn context(self, text: &str) -> (r: Self)
        ensures
            r.context@ == text@,
            r.value == self.value,
            r.label == self.label,
            r.tone == self.tone,
            r.href == self.href,
    {
        let mut s = self;
        s.context = owned(text);
        s
    }

    pub fn href(self, href: &str) -> (r: Self)
        ensures
            r.href@ == href@,
            r.value == self.value,
            r.label == self.label,
            r.tone == self.tone,
            r.context == self.context,
    {
        let mut s = self;
        s.href = owned(href);
        s
    }
}

pub open spec fn tone_class_of(tone: Seq<char>) -> Seq<char> {
    if tone == "ok"@ {
        " s-ok"@
    } else if tone == "warn"@ {
        " s-warn"@
    } else if tone == "bad"@ {
        " s-bad"@
    } else {
        ""@
    }
}

pub(crate) fn tone_class(tone: &str) -> (r: &'static str)
    ensures
        r@ == tone_class_of(tone@),
{
    if str_eq(tone, "ok") {
        " s-ok"
    } else if str_eq(tone, "warn") {
        " s-warn"
    } else if str_eq(tone, "bad") {
        " s-bad"
    } else {
        ""
    }
}

pub open spec fn stat_value_of(s: Stat) -> Seq<char> {
    if s.href@.len() == 0 {
        "<b class=\"stat-v"@ + tone_class_of(s.tone@) + "\">"@ + s.value@ + "</b>"@
    } else {
        "<a class=\"stat-v"@ + tone_class_of(s.tone@) + "\" href=\""@ + escaped(s.href@) + "\">"@
            + s.value@ + "</a>"@
    }
}

pub open spec fn stat_ctx_of(s: Stat) -> Seq<char> {
    if s.context@.len() == 0 {
        Seq::empty()
    } else {
        "<span class=\"stat-c\">"@ + escaped(s.context@) + "</span>"@
    }
}

/// A statistic card from its parts: the value (linked when `href` is set)
/// with its tone, the label, and an optional context line.
pub open spec fn stat_html(
    value: Seq<char>,
    label: Seq<char>,
    tone: Seq<char>,
    context: Seq<char>,
    href: Seq<char>,
) -> Seq<char> {
    "<div class=\"stat\">"@ + (if href.len() == 0 {
        "<b class=\"stat-v"@ + tone_class_of(tone) + "\">"@ + value + "</b>"@
    } else {
        "<a class=\"stat-v"@ + tone_class_of(tone) + "\" href=\""@ + escaped(href) + "\">"@ + value
            + "</a>"@
    }) + "<span class=\"stat-k\">"@ + escaped(label) + "</span>"@ + (if context.len() == 0 {
        Seq::empty()
    } else {
        "<span class=\"stat-c\">"@ + escaped(context) + "</span>"@
    }) + "</div>"@
}

/// One statistic card, from its parts.
pub fn stat_piece(value: &str, label: &str, tone: &str, context: &str, href: &str) -> (r: String)
    ensures
        r@ == stat_html(value@, label@, tone@, context@, href@),
{
    let mut out = owned("<div class=\"stat\">");
    if href.is_empty() {
        out.append("<b class=\"stat-v");
        out.append(tone_class(tone));
        out.append("\">");
        out.append(value);
        out.append("</b>");
    } else {
        out.append("<a class=\"stat-v");
        out.append(tone_class(tone));
        out.append("\" href=\"");
        push_esc(&mut out, href);
        out.append("\">");
        out.append(value);
        out.append("</a>");
    }
    out.append("<span class=\"stat-k\">");
    push_esc(&mut out, label);
    out.append("</span>");
    if !context.is_empty() {
        out.append("<span class=\"stat-c\">");
        push_esc(&mut out, context);
        out.append("</span>");
    }
    out.append("</div>");
    out
}

pub open spec fn stat_cell(s: Stat) -> Seq<char> {
    "<div class=\"stat\">"@ + stat_value_of(s) + "<span class=\"stat-k\">"@ + escaped(s.label@)
        + "</span>"@ + stat_ctx_of(s) + "</div>"@
}

fn stat_value(s: &Stat) -> (r: String)
    ensures
        r@ == stat_value_of(*s),
{
    if s.href.as_str().is_empty() {
        let mut out = owned("<b class=\"stat-v");
        out.append(tone_class(s.tone));
        out.append("\">");
        push_str(&mut out, &s.value);
        out.append("</b>");
        out
    } else {
        let mut out = owned("<a class=\"stat-v");
        out.append(tone_class(s.tone));
        out.append("\" href=\"");
        push_esc(&mut out, s.href.as_str());
        out.append("\">");
        push_str(&mut out, &s.value);
        out.append("</a>");
        out
    }
}

fn stat_ctx(s: &Stat) -> (r: String)
    ensures
        r@ == stat_ctx_of(*s),
{
    if s.context.as_str().is_empty() {
        String::new()
    } else {
        let mut out = owned("<span class=\"stat-c\">");
        push_esc(&mut out, s.context.as_str());
        out.append("</span>");
        out
    }
}

/// Appends one cell of the stat grid.
fn push_stat_cell(out: &mut String, s: &Stat)
    ensures
        final(out)@ == old(out)@ + stat_cell(*s),
{
    let v = stat_value(s);
    let c = stat_ctx(s);
    out.append("<div class=\"stat\">");
    push_str(out, &v);
    out.append("<span class=\"stat-k\">");
    push_esc(out, s.label.as_str());
    out.append("</span>");
    push_str(out, &c);
    out.append("</div>");
}

/// Dense headline grid: as many columns as fit, one line of context each.
pub fn stat_grid(items: &[Stat]) -> (r: String)
    ensures
        r@ == "<div class=\"statgrid\">"@ + concat(items@.map_values(|s: Stat| stat_cell(s)))
            + "</div>"@,
{
    let ghost cells = items@.map_values(|s: Stat| stat_cell(s));
    let mut out = owned("<div class=\"statgrid\">");
    let ghost start = out@;
    let mut i: usize = 0;
    while i < items.len()
        invariant
            i <= items@.len(),
            cells == items@.map_values(|s: Stat| stat_cell(s)),
            out@ == start + concat(cells.take(i as int)),
        decreases items.len() - i,
    {
        push_stat_cell(&mut out, &items[i]);
        proof {
            lemma_concat_take(cells, i as int);
        }
        i += 1;
    }
    proof {
        lemma_concat_all(cells);
    }
    out.append("</div>");
    out
}

pub open spec fn stat_line_cell(v: Seq<char>, label: Seq<char>, tone: Seq<char>) -> Seq<char> {
    "<span class=\"stat\"><b class=\"stat-v"@ + tone_class_of(tone) + "\">"@ + v
        + "</b><span class=\"stat-k\">"@ + escaped(label) + "</span></span>"@
}

/// One-line statistics strip. Each entry is (value_html, label, tone).
pub fn stat_line(items: &[(String, String, &str)]) -> (r: String)
    ensures
        r@ == "<div class=\"statline\">"@ + concat(
            items@.map_values(|t: (String, String, &str)| stat_line_cell(t.0@, t.1@, t.2@)),
        ) + "</div>"@,
{
    let ghost cells = items@.map_values(
        |t: (String, String, &str)| stat_line_cell(t.0@, t.1@, t.2@),
    );
    let mut out = owned("<div class=\"statline\">");
    let ghost start = out@;
    let mut i: usize = 0;
    while i < items.len()
        invariant
            i <= items@.len(),
            cells == items@.map_values(
                |t: (String, String, &str)| stat_line_cell(t.0@, t.1@, t.2@),
            ),
            out@ == start + concat(cells.take(i as int)),
        decreases items.len() - i,
    {
        let t = &items[i];
        out.append("<span class=\"stat\"><b class=\"stat-v");
        out.append(tone_class(t.2));
        out.append("\">");
        push_str(&mut out, &t.0);
        out.append("</b><span class=\"stat-k\">");
        push_esc(&mut out, t.1.as_str());
        out.append("</span></span>");
        proof {
            lemma_concat_take(cells, i as int);
        }
        i += 1;
    }
    proof {
        lemma_concat_all(cells);
    }
    out.append("</div>");
    out
}

// ---------------------------------------------------------------------------
// The secondary bar
// ---------------------------------------------------------------------------

pub open spec fn tab_link(
    base: Seq<char>,
    key: Seq<char>,
    label: Seq<char>,
    count: Seq<char>,
    active: Seq<char>,
) -> Seq<char> {
    let href = if key.len() == 0 {
        base
    } else {
        base + "?tab="@ + key
    };
    let n = if count.len() == 0 {
        Seq::empty()
    } else {
        "<span class=\"tab-n\">"@ + escaped(count) + "</span>"@
    };
    "<a href=\""@ + escaped(href) + "\""@ + (if key == active {
        " aria-current=\"page\""@
    } else {
        Seq::empty()
    }) + ">"@ + escaped(label) + n + "</a>"@
}

pub open spec fn subbar(links: Seq<char>) -> Seq<char> {
    "<nav class=\"subbar\" aria-label=\"Sections of this page\"><div class=\"subbar-in\">"@ + links
        + "</div></nav>"@
}

/// Appends one tab link.
pub fn push_tab_link(
    out: &mut String,
    base: &str,
    key: &str,
    label: &str,
    count: &str,
    active: &str,
)
    ensures
        final(out)@ == old(out)@ + tab_link(base@, key@, label@, count@, active@),
{
    let mut href = owned(base);
    if !key.is_empty() {
        href.append("?tab=");
        href.append(key);
    }
    let ghost before = out@;
    out.append("<a href=\"");
    push_esc(out, href.as_str());
    out.append("\"");
    let ghost mid = out@;
    if str_eq(key, active) {
        out.append(" aria-current=\"page\"");
    }
    proof {
        if key@ != active@ {
            assert(mid + Seq::<char>::empty() =~= mid);
        }
    }
    out.append(">");
    push_esc(out, label);
    let ghost mid2 = out@;
    if !count.is_empty() {
        out.append("<span class=\"tab-n\">");
        push_esc(out, count);
        out.append("</span>");
    }
    proof {
        if count@.len() == 0 {
            assert(mid2 + Seq::<char>::empty() =~= mid2);
        }
    }
    out.append("</a>");
}

/// The tab bar under the top bar: one real link per `(key, label, count)`;
/// `key` "" is the page's default tab and carries no query parameter.
pub fn tabbar(base: &str, tabs: &[(&str, &str, String)], active: &str) -> (r: String)
    ensures
        r@ == subbar(
            concat(
                tabs@.map_values(
                    |t: (&str, &str, String)| tab_link(base@, t.0@, t.1@, t.2@, active@),
                ),
            ),
        ),
{
    let ghost cells = tabs@.map_values(
        |t: (&str, &str, String)| tab_link(base@, t.0@, t.1@, t.2@, active@),
    );
    let mut out = owned(
        "<nav class=\"subbar\" aria-label=\"Sections of this page\"><div class=\"subbar-in\">",
    );
    let ghost start = out@;
    let mut i: usize = 0;
    while i < tabs.len()
        invariant
            i <= tabs@.len(),
            cells == tabs@.map_values(
                |t: (&str, &str, String)| tab_link(base@, t.0@, t.1@, t.2@, active@),
            ),
            out@ == start + concat(cells.take(i as int)),
        decreases tabs.len() - i,
    {
        let t = &tabs[i];
        push_tab_link(&mut out, base, t.0, t.1, t.2.as_str(), active);
        proof {
            lemma_concat_take(cells, i as int);
        }
        i += 1;
    }
    proof {
        lemma_concat_all(cells);
    }
    out.append("</div></nav>");
    out
}

// ---------------------------------------------------------------------------
// Tables
// ---------------------------------------------------------------------------

pub open spec fn th_cell(h: (Seq<char>, Seq<char>)) -> Seq<char> {
    "<th class=\""@ + h.1 + "\">"@ + escaped(h.0) + "</th>"@
}

pub open spec fn td_cells(head: Seq<(Seq<char>, Seq<char>)>, r: Seq<Seq<char>>) -> Seq<Seq<char>> {
    Seq::new(
        r.len(),
        |i: int|
            "<td class=\""@ + (if i < head.len() {
                head[i].1
            } else {
                Seq::empty()
            }) + "\">"@ + r[i] + "</td>"@,
    )
}

pub open spec fn tr_row(head: Seq<(Seq<char>, Seq<char>)>, r: Seq<Seq<char>>) -> Seq<char> {
    "<tr>"@ + concat(td_cells(head, r)) + "</tr>"@
}

/// Everything of a table after its wrapper's opening tag.
pub open spec fn table_tail(
    head: Seq<(Seq<char>, Seq<char>)>,
    rows: Seq<Seq<Seq<char>>>,
    class: Seq<char>,
) -> Seq<char> {
    "<table class=\""@ + class + "\"><thead><tr>"@ + concat(
        head.map_values(|h: (Seq<char>, Seq<char>)| th_cell(h)),
    ) + "</tr></thead><tbody>"@ + concat(rows.map_values(|r: Seq<Seq<char>>| tr_row(head, r)))
        + "</tbody></table></div>"@
}

pub open spec fn table_of(
    head: Seq<(Seq<char>, Seq<char>)>,
    rows: Seq<Seq<Seq<char>>>,
    class: Seq<char>,
) -> Seq<char> {
    "<div class=\"table-wrap\">"@ + table_tail(head, rows, class)
}

fn push_row(out: &mut String, head: &[(&str, &str)], r: &Vec<String>)
    ensures
        final(out)@ == old(out)@ + tr_row(head.deep_view(), r.deep_view()),
{
    let ghost h = head.deep_view();
    let ghost cells = td_cells(h, r.deep_view());
    let ghost before = out@;
    out.append("<tr>");
    let ghost start = out@;
    let mut i: usize = 0;
    while i < r.len()
        invariant
            i <= r@.len(),
            h == head.deep_view(),
            cells == td_cells(h, r.deep_view()),
            start == before + "<tr>"@,
            out@ == start + concat(cells.take(i as int)),
        decreases r.len() - i,
    {
        out.append("<td class=\"");
        let ghost mid = out@;
        if i < head.len() {
            out.append(head[i].1);
        }
        proof {
            if i >= head@.len() {
                assert(mid + Seq::<char>::empty() =~= mid);
            }
        }
        out.append("\">");
        out.append(r[i].as_str());
        out.append("</td>");
        proof {
            lemma_concat_take(cells, i as int);
        }
        i += 1;
    }
    proof {
        lemma_concat_all(cells);
    }
    out.append("</tr>");
}

fn push_table_tail(out: &mut String, head: &[(&str, &str)], body_rows: &[Vec<String>], class: &str)
    ensures
        final(out)@ == old(out)@ + table_tail(head.deep_view(), body_rows.deep_view(), class@),
{
    let ghost h = head.deep_view();
    let ghost ths = h.map_values(|x: (Seq<char>, Seq<char>)| th_cell(x));
    let ghost trs = body_rows.deep_view().map_values(|x: Seq<Seq<char>>| tr_row(h, x));
    let ghost before = out@;
    out.append("<table class=\"");
    out.append(class);
    out.append("\"><thead><tr>");
    let ghost s1 = out@;
    let mut i: usize = 0;
    while i < head.len()
        invariant
            i <= head@.len(),
            h == head.deep_view(),
            ths == h.map_values(|x: (Seq<char>, Seq<char>)| th_cell(x)),
            out@ == s1 + concat(ths.take(i as int)),
        decreases head.len() - i,
    {
        out.append("<th class=\"");
        out.append(head[i].1);
        out.append("\">");
        push_esc(out, head[i].0);
        out.append("</th>");
        proof {
            lemma_concat_take(ths, i as int);
        }
        i += 1;
    }
    proof {
        lemma_concat_all(ths);
    }
    out.append("</tr></thead><tbody>");
    let ghost s2 = out@;
    let mut j: usize = 0;
    while j < body_rows.len()
        invariant
            j <= body_rows@.len(),
            h == head.deep_view(),
            trs == body_rows.deep_view().map_values(|x: Seq<Seq<char>>| tr_row(h, x)),
            out@ == s2 + concat(trs.take(j as int)),
        decreases body_rows.len() - j,
    {
        push_row(out, head, &body_rows[j]);
        proof {
            lemma_concat_take(trs, j as int);
        }
        j += 1;
    }
    proof {
        lemma_concat_all(trs);
    }
    out.append("</tbody></table></div>");
}

fn table_classed(head: &[(&str, &str)], body_rows: &[Vec<String>], class: &str) -> (r: String)
    ensures
        r@ == table_of(head.deep_view(), body_rows.deep_view(), class@),
{
    let mut out = owned("<div class=\"table-wrap\">");
    push_table_tail(&mut out, head, body_rows, class);
    out
}

/// Dense data table. `head` is (label, class) per column — the class is applied
/// to the `<th>` and every `<td>` of that column. Cells are already-safe HTML.
pub fn table(head: &[(&str, &str)], body_rows: &[Vec<String>]) -> (r: String)
    ensures
        r@ == table_of(head.deep_view(), body_rows.deep_view(), "data"@),
{
    table_classed(head, body_rows, "data")
}

/// Same, but every header cell sorts the table (see /table.js).
pub fn table_sortable(head: &[(&str, &str)], body_rows: &[Vec<String>]) -> (r: String)
    ensures
        r@ == table_of(head.deep_view(), body_rows.deep_view(), "data sortable"@)
            + "<script src=\"/table.js\"></script>"@,
{
    let mut out = table_classed(head, body_rows, "data sortable");
    out.append("<script src=\"/table.js\"></script>");
    out
}

/// Same as `table`, in a vertically scrolling box with a sticky header: the
/// table's wrapper gains the `table-scroll` class.
pub fn table_scroll(head: &[(&str, &str)], body_rows: &[Vec<String>]) -> (r: String)
    ensures
        r@ == replace_first(
            table_of(head.deep_view(), body_rows.deep_view(), "data"@),
            "<div class=\"table-wrap\">"@,
            "<div class=\"table-wrap table-scroll\">"@,
        ),
{
    let mut out = owned("<div class=\"table-wrap table-scroll\">");
    push_table_tail(&mut out, head, body_rows, "data");
    proof {
        let t = table_of(head.deep_view(), body_rows.deep_view(), "data"@);
        let p = "<div class=\"table-wrap\">"@;
        assert(t.subrange(0, p.len() as int) =~= p);
        lemma_find_seq_is(t, p, 0);
        assert(t.subrange(0, 0) =~= Seq::<char>::empty());
        assert(t.subrange(p.len() as int, t.len() as int) =~= table_tail(
            head.deep_view(),
            body_rows.deep_view(),
            "data"@,
        ));
        let q = "<div class=\"table-wrap table-scroll\">"@;
        assert(Seq::<char>::empty() + q =~= q);
    }
    out
}

// ---------------------------------------------------------------------------
// Cells and timestamps
// ---------------------------------------------------------------------------

/// One CSV cell → display HTML: opaque ids (>28 chars, ASCII alphanumeric)
/// are abbreviated to their first 8 and last 4 characters, with the full value
/// in the title attribute.
pub open spec fn cell_text_of(cell: Seq<char>) -> Seq<char> {
    let n = cell.len();
    if n > 28 && (forall|i: int| 0 <= i < n ==> is_alnum(#[trigger] cell[i])) {
        "<span class=\"mono\" title=\""@ + escaped(cell) + "\">"@ + escaped(cell.subrange(0, 8))
            + "\u{2026}"@ + escaped(cell.subrange(n - 4, n as int)) + "</span>"@
    } else {
        escaped(cell)
    }
}

pub fn cell_text(cell: &str) -> (r: String)
    ensures
        r@ == cell_text_of(cell@),
{
    let cs = chars_of(cell);
    let n = cs.len();
    let mut all = true;
    let mut i: usize = 0;
    while i < n
        invariant
            i <= n == cs@.len(),
            all == (forall|j: int| 0 <= j < i ==> is_alnum(#[trigger] cs@[j])),
        decreases n - i,
    {
        if !crate::text::alnum(cs[i]) {
            all = false;
        }
        i += 1;
    }
    if n > 28 && all {
        let mut out = owned("<span class=\"mono\" title=\"");
        push_esc(&mut out, cell);
        out.append("\">");
        push_esc_window(&mut out, &cs, 0, 8);
        out.append("\u{2026}");
        push_esc_window(&mut out, &cs, n - 4, n);
        out.append("</span>");
        out
    } else {
        esc(cell)
    }
}

/// `2026-07-25T01:52:10Z` → `2026-07-25 01:52`: the first 16 bytes with `T`
/// read as a space, for a string of at least 16 bytes holding a `T`; anything
/// else passes through.
pub open spec fn fmt_ts_of(ts: Seq<char>) -> Seq<char> {
    if byte_len(ts) >= 16 && contains_seq(ts, seq!['T']) {
        match char_at_byte(ts, 16) {
            Some(k) => replace_char(ts.subrange(0, k), 'T', ' '),
            None => ts,
        }
    } else {
        ts
    }
}

/// The timestamps `fmt_ts` can cut: byte 16 is a character boundary whenever
/// the cut is taken.
pub open spec fn fmt_ts_ok(ts: Seq<char>) -> bool {
    byte_len(ts) >= 16 && contains_seq(ts, seq!['T']) ==> char_at_byte(ts, 16) is Some
}

pub fn fmt_ts(ts: &str) -> (r: String)
    requires
        fmt_ts_ok(ts@),
    ensures
        r@ == fmt_ts_of(ts@),
{
    let cs = chars_of(ts);
    let n = cs.len();
    proof {
        assert(cs@.subrange(0, n as int) =~= cs@);
    }
    let blen = crate::text::byte_len_capped(&cs, 0, n, 16);
    let tee = ['T'];
    let has_t = crate::text::find_in(&cs, 0, n, &tee).is_some();
    proof {
        assert(tee@ =~= seq!['T']);
    }
    if blen >= 16 && has_t {
        let k = match crate::text::char_index_of_byte(&cs, 0, n, 16) {
            Some(k) => k,
            None => {
                return owned(ts);
            },
        };
        let mut out = String::new();
        let mut i: usize = 0;
        while i < k
            invariant
                i <= k <= n == cs@.len(),
                out@ == replace_char(cs@.subrange(0, i as int), 'T', ' '),
            decreases k - i,
        {
            let c = if cs[i] == 'T' {
                ' '
            } else {
                cs[i]
            };
            push_char(&mut out, c);
            proof {
                assert(replace_char(cs@.subrange(0, i + 1), 'T', ' ') =~= replace_char(
                    cs@.subrange(0, i as int),
                    'T',
                    ' ',
                ).push(c));
            }
            i += 1;
        }
        out
    } else {
        owned(ts)
    }
}

// ---------------------------------------------------------------------------
// Icons — a closed set of 16px stroke glyphs.
// ---------------------------------------------------------------------------

/// The glyph's path data for an icon name (a plain circle for an unknown one).
pub open spec fn icon_body_of(name: Seq<char>) -> Seq<char> {
    if name == "gauge"@ {
        r#"<path d="M12 14a2 2 0 1 0 0-4 2 2 0 0 0 0 4Z"/><path d="m13.4 10.6 3.6-3.6"/><path d="M3.05 13a9 9 0 1 1 17.9 0"/>"#@
    } else if name == "calendar"@ {
        r#"<rect x="3" y="5" width="18" height="16" rx="2"/><path d="M8 3v4M16 3v4M3 10h18"/>"#@
    } else if name == "play"@ {
        r#"<circle cx="12" cy="12" r="9"/><path d="m10 8.5 6 3.5-6 3.5z"/>"#@
    } else if name == "flask"@ {
        r#"<path d="M9 3v6.5L4.3 17A2 2 0 0 0 6 20h12a2 2 0 0 0 1.7-3L15 9.5V3"/><path d="M8 3h8M7.5 14h9"/>"#@
    } else if name == "bulb"@ {
        r#"<path d="M9 18h6M10 21h4"/><path d="M12 3a6 6 0 0 0-3.5 10.9c.5.4.8 1 .9 1.6h5.2c.1-.6.4-1.2.9-1.6A6 6 0 0 0 12 3Z"/>"#@
    } else if name == "list"@ {
        r#"<path d="M8 6h13M8 12h13M8 18h13M3 6h.01M3 12h.01M3 18h.01"/>"#@
    } else if name == "database"@ {
        r#"<ellipse cx="12" cy="6" rx="8" ry="3"/><path d="M4 6v6c0 1.7 3.6 3 8 3s8-1.3 8-3V6"/><path d="M4 12v6c0 1.7 3.6 3 8 3s8-1.3 8-3v-6"/>"#@
    } else if name == "inbox"@ {
        r#"<path d="M21 12H16l-2 3h-4l-2-3H3"/><path d="M5.5 5.5 3 12v6a2 2 0 0 0 2 2h14a2 2 0 0 0 2-2v-6l-2.5-6.5A2 2 0 0 0 16.6 4H7.4a2 2 0 0 0-1.9 1.5Z"/>"#@
    } else if name == "gavel"@ {
        r#"<path d="M14 4 20 10M17 7l-7 7M4 20l6-6M8 10l6 6"/>"#@
    } else if name == "book"@ {
        r#"<path d="M4 19.5A2.5 2.5 0 0 1 6.5 17H20"/><path d="M6.5 2H20v20H6.5A2.5 2.5 0 0 1 4 19.5v-15A2.5 2.5 0 0 1 6.5 2Z"/>"#@
    } else if name == "chart"@ {
        r#"<path d="M3 3v18h18"/><path d="m7 14 3-4 3 3 4-6"/>"#@
    } else if name == "plug"@ {
        r#"<path d="M9 2v6M15 2v6"/><path d="M6 8h12v3a6 6 0 0 1-12 0V8Z"/><path d="M12 17v5"/>"#@
    } else if name == "settings"@ {
        r#"<circle cx="12" cy="12" r="3"/><path d="M19.4 15a1.6 1.6 0 0 0 .3 1.8l.1.1a2 2 0 1 1-2.8 2.8l-.1-.1a1.6 1.6 0 0 0-2.7 1.1V21a2 2 0 1 1-4 0v-.1A1.6 1.6 0 0 0 7.5 19l-.1.1a2 2 0 1 1-2.8-2.8l.1-.1A1.6 1.6 0 0 0 3 13.6H3a2 2 0 1 1 0-4h.1A1.6 1.6 0 0 0 4.7 7l-.1-.1a2 2 0 1 1 2.8-2.8l.1.1a1.6 1.6 0 0 0 2.7-1.1V3a2 2 0 1 1 4 0v.1a1.6 1.6 0 0 0 2.7 1.1l.1-.1a2 2 0 1 1 2.8 2.8l-.1.1a1.6 1.6 0 0 0 1.1 2.7H21a2 2 0 1 1 0 4h-.1a1.6 1.6 0 0 0-1.5 1.3Z"/>"#@
    } else if name == "sliders"@ {
        r#"<path d="M4 6h10M18 6h2M4 12h4M12 12h8M4 18h10M18 18h2"/><circle cx="16" cy="6" r="2"/><circle cx="10" cy="12" r="2"/><circle cx="16" cy="18" r="2"/>"#@
    } else if name == "target"@ {
        r#"<circle cx="12" cy="12" r="9"/><circle cx="12" cy="12" r="5"/><circle cx="12" cy="12" r="1.4"/>"#@
    } else if name == "trend-up"@ {
        r#"<path d="m3 17 6-6 4 4 8-8"/><path d="M15 7h6v6"/>"#@
    } else if name == "layers"@ {
        r#"<path d="m12 2 9 5-9 5-9-5 9-5Z"/><path d="m3 12 9 5 9-5"/><path d="m3 17 9 5 9-5"/>"#@
    } else if name == "bolt"@ {
        r#"<path d="M13 2 4 14h7l-1 8 9-12h-7l1-8Z"/>"#@
    } else if name == "clock"@ {
        r#"<circle cx="12" cy="12" r="9"/><path d="M12 7v5l3.5 2"/>"#@
    } else if name == "alert"@ {
        r#"<path d="M10.3 3.9 1.8 18a2 2 0 0 0 1.7 3h17a2 2 0 0 0 1.7-3L13.7 3.9a2 2 0 0 0-3.4 0Z"/><path d="M12 9v4M12 17h.01"/>"#@
    } else if name == "check"@ {
        r#"<path d="m5 13 4 4 10-10"/>"#@
    } else if name == "sun"@ {
        r#"<circle cx="12" cy="12" r="4"/><path d="M12 2v2M12 20v2M4.9 4.9l1.4 1.4M17.7 17.7l1.4 1.4M2 12h2M20 12h2M4.9 19.1l1.4-1.4M17.7 6.3l1.4-1.4"/>"#@
    } else if name == "moon"@ {
        r#"<path d="M20 14.5A8.5 8.5 0 0 1 9.5 4a8.5 8.5 0 1 0 10.5 10.5Z"/>"#@
    } else if name == "monitor"@ {
        r#"<rect x="3" y="4" width="18" height="12" rx="2"/><path d="M8 20h8M12 16v4"/>"#@
    } else if name == "chevron"@ {
        r#"<path d="m6 9 6 6 6-6"/>"#@
    } else if name == "burger"@ {
        r#"<path d="M4 6h16M4 12h16M4 18h16"/>"#@
    } else if name == "external"@ {
        r#"<path d="M15 3h6v6"/><path d="M10 14 21 3"/><path d="M21 14v5a2 2 0 0 1-2 2H5a2 2 0 0 1-2-2V5a2 2 0 0 1 2-2h5"/>"#@
    } else if name == "arrow-left"@ {
        r#"<path d="M19 12H5"/><path d="m12 19-7-7 7-7"/>"#@
    } else {
        r#"<circle cx="12" cy="12" r="9"/>"#@
    }
}

fn icon_body(name: &str) -> (r: &'static str)
    ensures
        r@ == icon_body_of(name@),
{
    if str_eq(name, "gauge") {
        r#"<path d="M12 14a2 2 0 1 0 0-4 2 2 0 0 0 0 4Z"/><path d="m13.4 10.6 3.6-3.6"/><path d="M3.05 13a9 9 0 1 1 17.9 0"/>"#
    } else if str_eq(name, "calendar") {
        r#"<rect x="3" y="5" width="18" height="16" rx="2"/><path d="M8 3v4M16 3v4M3 10h18"/>"#
    } else if str_eq(name, "play") {
        r#"<circle cx="12" cy="12" r="9"/><path d="m10 8.5 6 3.5-6 3.5z"/>"#
    } else if str_eq(name, "flask") {
        r#"<path d="M9 3v6.5L4.3 17A2 2 0 0 0 6 20h12a2 2 0 0 0 1.7-3L15 9.5V3"/><path d="M8 3h8M7.5 14h9"/>"#
    } else if str_eq(name, "bulb") {
        r#"<path d="M9 18h6M10 21h4"/><path d="M12 3a6 6 0 0 0-3.5 10.9c.5.4.8 1 .9 1.6h5.2c.1-.6.4-1.2.9-1.6A6 6 0 0 0 12 3Z"/>"#
    } else if str_eq(name, "list") {
        r#"<path d="M8 6h13M8 12h13M8 18h13M3 6h.01M3 12h.01M3 18h.01"/>"#
    } else if str_eq(name, "database") {
        r#"<ellipse cx="12" cy="6" rx="8" ry="3"/><path d="M4 6v6c0 1.7 3.6 3 8 3s8-1.3 8-3V6"/><path d="M4 12v6c0 1.7 3.6 3 8 3s8-1.3 8-3v-6"/>"#
    } else if str_eq(name, "inbox") {
        r#"<path d="M21 12H16l-2 3h-4l-2-3H3"/><path d="M5.5 5.5 3 12v6a2 2 0 0 0 2 2h14a2 2 0 0 0 2-2v-6l-2.5-6.5A2 2 0 0 0 16.6 4H7.4a2 2 0 0 0-1.9 1.5Z"/>"#
    } else if str_eq(name, "gavel") {
        r#"<path d="M14 4 20 10M17 7l-7 7M4 20l6-6M8 10l6 6"/>"#
    } else if str_eq(name, "book") {
        r#"<path d="M4 19.5A2.5 2.5 0 0 1 6.5 17H20"/><path d="M6.5 2H20v20H6.5A2.5 2.5 0 0 1 4 19.5v-15A2.5 2.5 0 0 1 6.5 2Z"/>"#
    } else if str_eq(name, "chart") {
        r#"<path d="M3 3v18h18"/><path d="m7 14 3-4 3 3 4-6"/>"#
    } else if str_eq(name, "plug") {
        r#"<path d="M9 2v6M15 2v6"/><path d="M6 8h12v3a6 6 0 0 1-12 0V8Z"/><path d="M12 17v5"/>"#
    } else if str_eq(name, "settings") {
        r#"<circle cx="12" cy="12" r="3"/><path d="M19.4 15a1.6 1.6 0 0 0 .3 1.8l.1.1a2 2 0 1 1-2.8 2.8l-.1-.1a1.6 1.6 0 0 0-2.7 1.1V21a2 2 0 1 1-4 0v-.1A1.6 1.6 0 0 0 7.5 19l-.1.1a2 2 0 1 1-2.8-2.8l.1-.1A1.6 1.6 0 0 0 3 13.6H3a2 2 0 1 1 0-4h.1A1.6 1.6 0 0 0 4.7 7l-.1-.1a2 2 0 1 1 2.8-2.8l.1.1a1.6 1.6 0 0 0 2.7-1.1V3a2 2 0 1 1 4 0v.1a1.6 1.6 0 0 0 2.7 1.1l.1-.1a2 2 0 1 1 2.8 2.8l-.1.1a1.6 1.6 0 0 0 1.1 2.7H21a2 2 0 1 1 0 4h-.1a1.6 1.6 0 0 0-1.5 1.3Z"/>"#
    } else if str_eq(name, "sliders") {
        r#"<path d="M4 6h10M18 6h2M4 12h4M12 12h8M4 18h10M18 18h2"/><circle cx="16" cy="6" r="2"/><circle cx="10" cy="12" r="2"/><circle cx="16" cy="18" r="2"/>"#
    } else if str_eq(name, "target") {
        r#"<circle cx="12" cy="12" r="9"/><circle cx="12" cy="12" r="5"/><circle cx="12" cy="12" r="1.4"/>"#
    } else if str_eq(name, "trend-up") {
        r#"<path d="m3 17 6-6 4 4 8-8"/><path d="M15 7h6v6"/>"#
    } else if str_eq(name, "layers") {
        r#"<path d="m12 2 9 5-9 5-9-5 9-5Z"/><path d="m3 12 9 5 9-5"/><path d="m3 17 9 5 9-5"/>"#
    } else if str_eq(name, "bolt") {
        r#"<path d="M13 2 4 14h7l-1 8 9-12h-7l1-8Z"/>"#
    } else if str_eq(name, "clock") {
        r#"<circle cx="12" cy="12" r="9"/><path d="M12 7v5l3.5 2"/>"#
    } else if str_eq(name, "alert") {
        r#"<path d="M10.3 3.9 1.8 18a2 2 0 0 0 1.7 3h17a2 2 0 0 0 1.7-3L13.7 3.9a2 2 0 0 0-3.4 0Z"/><path d="M12 9v4M12 17h.01"/>"#
    } else if str_eq(name, "check") {
        r#"<path d="m5 13 4 4 10-10"/>"#
    } else if str_eq(name, "sun") {
        r#"<circle cx="12" cy="12" r="4"/><path d="M12 2v2M12 20v2M4.9 4.9l1.4 1.4M17.7 17.7l1.4 1.4M2 12h2M20 12h2M4.9 19.1l1.4-1.4M17.7 6.3l1.4-1.4"/>"#
    } else if str_eq(name, "moon") {
        r#"<path d="M20 14.5A8.5 8.5 0 0 1 9.5 4a8.5 8.5 0 1 0 10.5 10.5Z"/>"#
    } else if str_eq(name, "monitor") {
        r#"<rect x="3" y="4" width="18" height="12" rx="2"/><path d="M8 20h8M12 16v4"/>"#
    } else if str_eq(name, "chevron") {
        r#"<path d="m6 9 6 6 6-6"/>"#
    } else if str_eq(name, "burger") {
        r#"<path d="M4 6h16M4 12h16M4 18h16"/>"#
    } else if str_eq(name, "external") {
        r#"<path d="M15 3h6v6"/><path d="M10 14 21 3"/><path d="M21 14v5a2 2 0 0 1-2 2H5a2 2 0 0 1-2-2V5a2 2 0 0 1 2-2h5"/>"#
    } else if str_eq(name, "arrow-left") {
        r#"<path d="M19 12H5"/><path d="m12 19-7-7 7-7"/>"#
    } else {
        r#"<circle cx="12" cy="12" r="9"/>"#
    }
}

pub open spec fn svg_size_attrs() -> Seq<char> {
    "width=\"14\" height=\"14\""@
}

pub open spec fn svg_rest() -> Seq<char> {
    " viewBox=\"0 0 24 24\" fill=\"none\" stroke=\"currentColor\" stroke-width=\"1.8\" stroke-linecap=\"round\" stroke-linejoin=\"round\" aria-hidden=\"true\">"@
}

/// The full `<svg>` element of an icon, 14px square.
pub open spec fn icon_svg(name: Seq<char>) -> Seq<char> {
    "<svg "@ + svg_size_attrs() + svg_rest() + icon_body_of(name) + "</svg>"@
}

pub fn icon(name: &str) -> (r: String)
    ensures
        r@ == icon_svg(name@),
{
    let mut out = owned("<svg ");
    out.append("width=\"14\" height=\"14\"");
    out.append(" viewBox=\"0 0 24 24\" fill=\"none\" stroke=\"currentColor\" stroke-width=\"1.8\" stroke-linecap=\"round\" stroke-linejoin=\"round\" aria-hidden=\"true\">");
    out.append(icon_body(name));
    out.append("</svg>");
    out
}

/// An icon drawn at `size` pixels: the icon with its size attributes replaced.
pub open spec fn icon_sized_svg(name: Seq<char>, size: nat) -> Seq<char> {
    replace_first(
        icon_svg(name),
        svg_size_attrs(),
        "width=\""@ + dec(size) + "\" height=\""@ + dec(size) + "\""@,
    )
}

pub fn icon_sized(name: &str, size: u32) -> (r: String)
    ensures
        r@ == icon_sized_svg(name@, size as nat),
{
    let mut out = owned("<svg ");
    let ghost s0 = out@;
    out.append("width=\"");
    push_dec(&mut out, size as u64);
    out.append("\" height=\"");
    push_dec(&mut out, size as u64);
    out.append("\"");
    let ghost s1 = out@;
    out.append(" viewBox=\"0 0 24 24\" fill=\"none\" stroke=\"currentColor\" stroke-width=\"1.8\" stroke-linecap=\"round\" stroke-linejoin=\"round\" aria-hidden=\"true\">");
    out.append(icon_body(name));
    out.append("</svg>");
    proof {
        let s = icon_svg(name@);
        let p = svg_size_attrs();
        let q = "width=\""@ + dec(size as nat) + "\" height=\""@ + dec(size as nat) + "\""@;
        reveal_strlit("<svg ");
        reveal_strlit("width=\"14\" height=\"14\"");
        let pre = "<svg "@;
        let tail = svg_rest() + icon_body_of(name@) + "</svg>"@;
        assert(s =~= pre + p + tail);
        assert(s.subrange(5, 5 + p.len() as int) =~= p);
        assert forall|j: int| 0 <= j < 5 implies !at(s, j, p) by {
            if at(s, j, p) {
                assert(s.subrange(j, j + p.len())[0] == s[j]);
                assert(s[j] == pre[j]);
            }
        }
        lemma_find_seq_is(s, p, 5);
        assert(s.subrange(0, 5) =~= pre);
        assert(s.subrange(5 + p.len() as int, s.len() as int) =~= tail);
        assert(s1 =~= s0 + q);
        assert(out@ =~= pre + q + tail);
    }
    out
}

/// The wordmark: the sea-shell mark and the firm's name.
pub open spec fn wordmark_html(class: Seq<char>) -> Seq<char> {
    "<a class=\""@ + class + "\" href=\"/\"><svg class=\"mark\" viewBox=\"0 0 24 24\" fill=\"none\" stroke=\"currentColor\" stroke-width=\"1.5\" stroke-linecap=\"round\" stroke-linejoin=\"round\" aria-hidden=\"true\"><path d=\"M11.5 12A2.5 2.5 0 0 0 7 13.5c0 1.38 1 3.5 3.5 3.5c3 0 4.5-2.5 4.5-4.5c0-3-2-5.5-5.5-5.5S3 9.5 3 14c0 3.314 2.5 8 9 8c4.97 0 9-5.03 9-10S17 2 13 2a2 2 0 0 0-2 2v3\"/></svg>orakel</a>"@
}

pub fn wordmark(class: &str) -> (r: String)
    ensures
        r@ == wordmark_html(class@),
{
    let mut out = owned("<a class=\"");
    out.append(class);
    out.append("\" href=\"/\"><svg class=\"mark\" viewBox=\"0 0 24 24\" fill=\"none\" stroke=\"currentColor\" stroke-width=\"1.5\" stroke-linecap=\"round\" stroke-linejoin=\"round\" aria-hidden=\"true\"><path d=\"M11.5 12A2.5 2.5 0 0 0 7 13.5c0 1.38 1 3.5 3.5 3.5c3 0 4.5-2.5 4.5-4.5c0-3-2-5.5-5.5-5.5S3 9.5 3 14c0 3.314 2.5 8 9 8c4.97 0 9-5.03 9-10S17 2 13 2a2 2 0 0 0-2 2v3\"/></svg>orakel</a>");
    out
}

// ---------------------------------------------------------------------------
// Markdown
// ---------------------------------------------------------------------------

/// What pulldown-cmark renders a markdown source to, with tables and
/// strikethrough enabled.
pub uninterp spec fn markdown_html(src: Seq<char>) -> Seq<char>;

/// Markdown → HTML via pulldown-cmark (tables + strikethrough on).
///
/// Trusted: `pulldown_cmark::html::push_html` over `Parser::new_ext(src, opts)`
/// with `ENABLE_TABLES | ENABLE_STRIKETHROUGH`. The contract only claims that
/// the output is a function of the source text (`markdown_html`); nothing is
/// claimed about the HTML itself.
#[verifier::external_body]
pub fn markdown(src: &str) -> (r: String)
    ensures
        r@ == markdown_html(src@),
{
    let mut opts = pulldown_cmark::Options::empty();
    opts.insert(pulldown_cmark::Options::ENABLE_TABLES);
    opts.insert(pulldown_cmark::Options::ENABLE_STRIKETHROUGH);
    let parser = pulldown_cmark::Parser::new_ext(src, opts);
    let mut out = String::with_capacity(src.len() * 2);
    pulldown_cmark::html::push_html(&mut out, parser);
    out
}

pub open spec fn nonblank(ls: Seq<Seq<char>>) -> spec_fn(int) -> bool {
    |i: int| trim(ls[i]).len() > 0
}

/// The document's leading `# ` heading, if it has one.
pub open spec fn md_title_of(src: Seq<char>) -> Option<Seq<char>> {
    let ls = lines(src);
    match first_index(ls.len() as int, nonblank(ls)) {
        Some(i) => if starts_with(ls[i], "# "@) {
            Some(trim(ls[i].subrange(2, ls[i].len() as int)))
        } else {
            None
        },
        None => None,
    }
}

/// The index of the first line of `ls` that is not blank.
fn first_nonblank(s: &[char], ls: &Vec<(usize, usize)>) -> (r: Option<usize>)
    requires
        windows_ok(s@, ls@),
    ensures
        match r {
            Some(i) => first_index(ls@.len() as int, nonblank(wins(s@, ls@))) == Some(i as int),
            None => first_index(ls@.len() as int, nonblank(wins(s@, ls@))) is None,
        },
        r matches Some(i) ==> i < ls@.len(),
{
    let ghost v = wins(s@, ls@);
    let ghost p = nonblank(v);
    let mut i: usize = 0;
    while i < ls.len()
        invariant
            i <= ls@.len(),
            windows_ok(s@, ls@),
            v == wins(s@, ls@),
            p == nonblank(v),
            forall|j: int| 0 <= j < i ==> !#[trigger] p(j),
        decreases ls.len() - i,
    {
        let (a, b) = ls[i];
        assert(ls@[i as int].0 <= ls@[i as int].1 <= s@.len());
        let (x, y) = trim_window(s, a, b);
        proof {
            assert(v[i as int] == win(s@, ls@[i as int]));
        }
        if x < y {
            proof {
                lemma_first_index_is(ls@.len() as int, p, i as int);
            }
            return Some(i);
        }
        i += 1;
    }
    proof {
        lemma_first_index_none(ls@.len() as int, p);
    }
    None
}

/// The document's leading `# ` heading, if it has one. Sections use it as their
/// title so the same words aren't printed twice.
#[verifier::rlimit(40)]
pub fn md_title(src: &str) -> (r: Option<String>)
    ensures
        match r {
            Some(t) => md_title_of(src@) == Some(t@),
            None => md_title_of(src@) is None,
        },
{
    let s = chars_of(src);
    let ls = lines_in(&s, 0, s.len());
    let ghost v = wins(s@, ls@);
    proof {
        assert(s@.subrange(0, s@.len() as int) =~= src@);
        assert(v == lines(src@));
    }
    match first_nonblank(&s, &ls) {
        None => None,
        Some(i) => {
            let (a, b) = ls[i];
            let ghost l = v[i as int];
            proof {
                assert(ls@[i as int].0 <= ls@[i as int].1 <= s@.len());
                assert(l == s@.subrange(a as int, b as int));
            }
            title_of_line(&s, a, b)
        },
    }
}

/// `line.strip_prefix("# ").map(|t| t.trim())` for the line `s[a..b]`.
fn title_of_line(s: &[char], a: usize, b: usize) -> (r: Option<String>)
    requires
        a <= b <= s@.len(),
    ensures
        ({
            let l = s@.subrange(a as int, b as int);
            match r {
                Some(t) => starts_with(l, "# "@) && t@ == trim(l.subrange(2, l.len() as int)),
                None => !starts_with(l, "# "@),
            }
        }),
{
    let hash = ['#', ' '];
    let starts = at_in(s, a, b, a, &hash);
    proof {
        reveal_strlit("# ");
        assert(hash@ =~= "# "@);
    }
    if !starts {
        return None;
    }
    let (x, y) = trim_window(s, a + 2, b);
    proof {
        let l = s@.subrange(a as int, b as int);
        assert(l.subrange(2, l.len() as int) =~= s@.subrange(a + 2, b as int));
    }
    Some(string_of(s, x, y))
}

/// Markdown source with the leading `# ` heading removed, when there is one:
/// everything after the heading's line, without the line breaks that open it.
pub open spec fn markdown_body_src(src: Seq<char>) -> Seq<char> {
    match md_title_of(src) {
        Some(_) => {
            let trimmed = trim_start_by(src, set_pred(seq!['\r', '\n', ' ', '\t']));
            let after = match split_once(trimmed, '\n') {
                Some((_, r)) => r,
                None => Seq::empty(),
            };
            trim_start_by(after, set_pred(seq!['\r', '\n']))
        },
        None => src,
    }
}

/// Markdown → HTML with the leading `# ` heading removed. Use wherever the
/// surrounding section or breadcrumb already names the document.
pub fn markdown_body(src: &str) -> (r: String)
    ensures
        r@ == markdown_html(markdown_body_src(src@)),
{
    match md_title(src) {
        None => markdown(src),
        Some(_) => {
            let s = chars_of(src);
            let n = s.len();
            proof {
                assert(s@.subrange(0, n as int) =~= src@);
            }
            let lead = ['\r', '\n', ' ', '\t'];
            let a = skip_set(&s, 0, n, &lead);
            proof {
                assert(lead@ =~= seq!['\r', '\n', ' ', '\t']);
            }
            let start = match find_char_in(&s, a, n, '\n') {
                Some(i) => i + 1,
                None => n,
            };
            proof {
                let t = s@.subrange(a as int, n as int);
                match find_char(t, '\n') {
                    Some(i) => {
                        assert(t.subrange(i + 1, t.len() as int) =~= s@.subrange(start as int, n as int));
                    },
                    None => {
                        assert(s@.subrange(n as int, n as int) =~= Seq::<char>::empty());
                    },
                }
            }
            let crlf = ['\r', '\n'];
            let b = skip_set(&s, start, n, &crlf);
            proof {
                assert(crlf@ =~= seq!['\r', '\n']);
            }
            let body = string_of(&s, b, n);
            markdown(body.as_str())
        },
    }
}

// ---------------------------------------------------------------------------
// Frontmatter
// ---------------------------------------------------------------------------

/// A value without an inline ` #` comment.
pub open spec fn before_hash(v: Seq<char>) -> Seq<char> {
    match find_seq(v, " #"@) {
        Some(h) => v.subrange(0, h),
        None => v,
    }
}

/// A `key: value` line's value: trimmed, comment dropped, trimmed again.
pub open spec fn fm_value(v0: Seq<char>) -> Seq<char> {
    trim(before_hash(trim(v0)))
}

/// A YAML block scalar marker (`>`, `>-`, `|`, `|-`).
pub open spec fn is_block(v: Seq<char>) -> bool {
    v.len() > 0 && (v[0] == '>' || v[0] == '|')
}

/// A continuation line of a block scalar: blank, or indented.
pub open spec fn cont_line(l: Seq<char>) -> bool {
    trim(l).len() == 0 || (l.len() > 0 && is_ws(l[0]))
}

pub open spec fn not_cont(ls: Seq<Seq<char>>) -> spec_fn(int) -> bool {
    |k: int| !cont_line(ls[k])
}

/// Where the continuation lines starting at `j` end.
pub open spec fn block_end(ls: Seq<Seq<char>>, j: int) -> int {
    match first_from(j, ls.len() as int, not_cont(ls)) {
        Some(e) => e,
        None => ls.len() as int,
    }
}

/// `parts.join(sep)`.
pub open spec fn join(parts: Seq<Seq<char>>, sep: Seq<char>) -> Seq<char>
    decreases parts.len(),
{
    if parts.len() == 0 {
        Seq::empty()
    } else if parts.len() == 1 {
        parts[0]
    } else {
        join(parts.drop_last(), sep) + sep + parts.last()
    }
}

/// Appends `parts` joined by `sep`.
pub fn push_join(out: &mut String, parts: &Vec<String>, sep: &str)
    ensures
        final(out)@ == old(out)@ + join(views(parts@), sep@),
{
    let ghost ps = views(parts@);
    let ghost start = out@;
    let mut i: usize = 0;
    while i < parts.len()
        invariant
            i <= parts@.len(),
            ps == views(parts@),
            out@ == start + join(ps.take(i as int), sep@),
        decreases parts.len() - i,
    {
        proof {
            assert(ps.take(i + 1).drop_last() =~= ps.take(i as int));
            assert(ps.take(i + 1).last() == parts@[i as int]@);
        }
        if i > 0 {
            out.append(sep);
        }
        out.append(parts[i].as_str());
        proof {
            if i == 0 {
                assert(ps.take(1).len() == 1);
                assert(Seq::<char>::empty() + parts@[0]@ =~= parts@[0]@);
                assert(join(ps.take(0), sep@) =~= Seq::<char>::empty());
            }
        }
        i += 1;
    }
    proof {
        assert(ps.take(parts@.len() as int) =~= ps);
    }
}

pub open spec fn trimmed_lines(ls: Seq<Seq<char>>, j: int, e: int) -> Seq<Seq<char>> {
    ls.subrange(j, e).map_values(|l: Seq<char>| trim(l))
}

/// The `key: value` fields of frontmatter lines `ls[i..]`; a block scalar's
/// continuation lines are folded into its value (spaces for `>`, newlines for
/// `|`), and lines without a `:` are skipped.
pub open spec fn fm_fields(ls: Seq<Seq<char>>, i: int) -> Seq<(Seq<char>, Seq<char>)>
    decreases ls.len() - i,
{
    if i < 0 || i >= ls.len() {
        seq![]
    } else {
        match split_once(ls[i], ':') {
            None => fm_fields(ls, i + 1),
            Some((k, v0)) => {
                let v = fm_value(v0);
                if is_block(v) {
                    let e = block_end(ls, i + 1);
                    let sep = if v[0] == '|' {
                        seq!['\n']
                    } else {
                        seq![' ']
                    };
                    if i < e <= ls.len() {
                        seq![(trim(k), trim(join(trimmed_lines(ls, i + 1, e), sep)))] + fm_fields(
                            ls,
                            e,
                        )
                    } else {
                        seq![]
                    }
                } else {
                    seq![(trim(k), v)] + fm_fields(ls, i + 1)
                }
            },
        }
    }
}

/// Optional `---` frontmatter split into (fields, body).
pub open spec fn frontmatter_of(src: Seq<char>) -> (Seq<(Seq<char>, Seq<char>)>, Seq<char>) {
    if starts_with(src, "---"@) {
        let rest = src.subrange(3, src.len() as int);
        match find_seq(rest, "\n---"@) {
            Some(e) => (
                fm_fields(lines(rest.subrange(0, e)), 0),
                trim_start_by(rest.subrange(e + 4, rest.len() as int), set_pred(seq!['\r', '\n'])),
            ),
            None => (seq![], src),
        }
    } else {
        (seq![], src)
    }
}

pub proof fn lemma_first_from_is(from: int, n: int, p: spec_fn(int) -> bool, i: int)
    requires
        0 <= from <= i < n,
        p(i),
        forall|j: int| from <= j < i ==> !#[trigger] p(j),
    ensures
        first_from(from, n, p) == Some(i),
{
    lemma_first_from(from, n, p);
}

pub proof fn lemma_first_from_none(from: int, n: int, p: spec_fn(int) -> bool)
    requires
        0 <= from,
        forall|j: int| from <= j < n ==> !#[trigger] p(j),
    ensures
        first_from(from, n, p) is None,
{
    lemma_first_from(from, n, p);
}

/// Whether the line `s[a..b]` continues a block scalar.
fn is_cont(s: &[char], a: usize, b: usize) -> (r: bool)
    requires
        a <= b <= s@.len(),
    ensures
        r == cont_line(s@.subrange(a as int, b as int)),
{
    let (x, y) = trim_window(s, a, b);
    x == y || (a < b && crate::text::ws(s[a]))
}

/// The end of the continuation lines starting at line `j`.
fn block_end_exec(s: &[char], ls: &Vec<(usize, usize)>, j: usize) -> (e: usize)
    requires
        windows_ok(s@, ls@),
        j <= ls@.len(),
    ensures
        j <= e <= ls@.len(),
        e == block_end(wins(s@, ls@), j as int),
{
    let ghost v = wins(s@, ls@);
    let ghost p = not_cont(v);
    let mut k = j;
    while k < ls.len()
        invariant
            j <= k <= ls@.len(),
            windows_ok(s@, ls@),
            v == wins(s@, ls@),
            p == not_cont(v),
            forall|t: int| j <= t < k ==> !#[trigger] p(t),
        decreases ls.len() - k,
    {
        let (a, b) = ls[k];
        proof {
            assert(ls@[k as int].0 <= ls@[k as int].1 <= s@.len());
            assert(v[k as int] == win(s@, ls@[k as int]));
        }
        if !is_cont(s, a, b) {
            proof {
                lemma_first_from_is(j as int, v.len() as int, p, k as int);
            }
            return k;
        }
        k += 1;
    }
    proof {
        lemma_first_from_none(j as int, v.len() as int, p);
    }
    k
}

/// The trimmed lines `j..e` joined with `sep`, trimmed.
fn join_block(s: &[char], ls: &Vec<(usize, usize)>, j: usize, e: usize, sep: char) -> (r: String)
    requires
        windows_ok(s@, ls@),
        j <= e <= ls@.len(),
    ensures
        r@ == trim(join(trimmed_lines(wins(s@, ls@), j as int, e as int), seq![sep])),
{
    let ghost v = wins(s@, ls@);
    let ghost parts = trimmed_lines(v, j as int, e as int);
    let mut out = String::new();
    let mut k = j;
    while k < e
        invariant
            j <= k <= e <= ls@.len(),
            windows_ok(s@, ls@),
            v == wins(s@, ls@),
            parts == trimmed_lines(v, j as int, e as int),
            out@ == join(parts.take(k - j), seq![sep]),
        decreases e - k,
    {
        let (a, b) = ls[k];
        proof {
            assert(ls@[k as int].0 <= ls@[k as int].1 <= s@.len());
            assert(v[k as int] == win(s@, ls@[k as int]));
            assert(parts[k - j] == trim(v[k as int]));
        }
        let (x, y) = trim_window(s, a, b);
        let ghost before = out@;
        if k > j {
            push_char(&mut out, sep);
        }
        push_window(&mut out, s, x, y);
        proof {
            let t = parts.take(k - j + 1);
            assert(t.drop_last() =~= parts.take(k - j));
            if k > j {
                assert(out@ =~= before + seq![sep] + parts[k - j]);
            } else {
                assert(t.len() == 1);
                assert(out@ =~= parts[0]);
            }
        }
        k += 1;
    }
    proof {
        assert(parts.take(e - j) =~= parts);
    }
    let cs = chars_of(out.as_str());
    let (x, y) = trim_window(&cs, 0, cs.len());
    proof {
        assert(cs@.subrange(0, cs@.len() as int) =~= cs@);
    }
    string_of(&cs, x, y)
}

pub open spec fn fields_view(v: Seq<(String, String)>) -> Seq<(Seq<char>, Seq<char>)> {
    v.map_values(|f: (String, String)| (f.0@, f.1@))
}

/// `fm_value` of the window `s[a..b]`, as a window.
fn value_window(s: &[char], a: usize, b: usize) -> (r: (usize, usize))
    requires
        a <= b <= s@.len(),
    ensures
        r.0 <= r.1 <= s@.len(),
        s@.subrange(r.0 as int, r.1 as int) == fm_value(s@.subrange(a as int, b as int)),
{
    let (x, y) = trim_window(s, a, b);
    let pat = [' ', '#'];
    proof {
        reveal_strlit(" #");
        assert(pat@ =~= " #"@);
    }
    match crate::text::find_in(s, x, y, &pat) {
        Some(h) => {
            proof {
                let t = s@.subrange(x as int, y as int);
                assert(t.subrange(0, h - x) =~= s@.subrange(x as int, h as int));
            }
            trim_window(s, x, h)
        },
        None => trim_window(s, x, y),
    }
}

/// The frontmatter fields of the lines `ls`.
#[verifier::rlimit(40)]
fn fm_fields_exec(s: &[char], ls: &Vec<(usize, usize)>) -> (r: Vec<(String, String)>)
    requires
        windows_ok(s@, ls@),
    ensures
        fields_view(r@) == fm_fields(wins(s@, ls@), 0),
{
    let ghost v = wins(s@, ls@);
    let mut out: Vec<(String, String)> = Vec::new();
    let mut i: usize = 0;
    while i < ls.len()
        invariant
            i <= ls@.len(),
            windows_ok(s@, ls@),
            v == wins(s@, ls@),
            fm_fields(v, 0) == fields_view(out@) + fm_fields(v, i as int),
        decreases ls.len() - i,
    {
        let (a, b) = ls[i];
        proof {
            assert(ls@[i as int].0 <= ls@[i as int].1 <= s@.len());
            assert(v[i as int] == win(s@, ls@[i as int]));
        }
        let ghost l = s@.subrange(a as int, b as int);
        match find_char_in(s, a, b, ':') {
            None => {
                i += 1;
            },
            Some(c) => {
                proof {
                    assert(l.subrange(0, c - a) =~= s@.subrange(a as int, c as int));
                    assert(l.subrange(c - a + 1, l.len() as int) =~= s@.subrange(c + 1, b as int));
                }
                let (ka, kb) = trim_window(s, a, c);
                let key = string_of(s, ka, kb);
                let (x, y) = value_window(s, c + 1, b);
                let block = x < y && (s[x] == '>' || s[x] == '|');
                if block {
                    let e = block_end_exec(s, ls, i + 1);
                    let sep = if s[x] == '|' {
                        '\n'
                    } else {
                        ' '
                    };
                    let val = join_block(s, ls, i + 1, e, sep);
                    proof {
                        let f = (key@, val@);
                        assert(fields_view(out@.push((key, val))) =~= fields_view(out@).push(f));
                        assert(fields_view(out@) + fm_fields(v, i as int) =~= fields_view(out@).push(f)
                            + fm_fields(v, e as int));
                    }
                    out.push((key, val));
                    i = e;
                } else {
                    let val = string_of(s, x, y);
                    proof {
                        let f = (key@, val@);
                        assert(fields_view(out@.push((key, val))) =~= fields_view(out@).push(f));
                        assert(fields_view(out@) + fm_fields(v, i as int) =~= fields_view(out@).push(f)
                            + fm_fields(v, i + 1));
                    }
                    out.push((key, val));
                    i += 1;
                }
            },
        }
    }
    proof {
        assert(fm_fields(v, i as int) =~= Seq::<(Seq<char>, Seq<char>)>::empty());
        assert(fields_view(out@) + Seq::<(Seq<char>, Seq<char>)>::empty() =~= fields_view(out@));
    }
    out
}

/// Split optional `---` frontmatter into (fields, body). Values keep only the
/// part before an inline ` #` comment; YAML block scalars (`>`, `|`) are folded
/// into their value.
pub fn split_frontmatter(src: &str) -> (r: (Vec<(String, String)>, &str))
    ensures
        fields_view(r.0@) == frontmatter_of(src@).0,
        r.1@ == frontmatter_of(src@).1,
{
    let s = chars_of(src);
    let n = s.len();
    let dashes = ['-', '-', '-'];
    proof {
        reveal_strlit("---");
        assert(dashes@ =~= "---"@);
        assert(s@.subrange(0, n as int) =~= s@);
        assert(fields_view(Seq::<(String, String)>::empty()) =~= Seq::<(Seq<char>, Seq<char>)>::empty());
    }
    if !at_in(&s, 0, n, 0, &dashes) {
        return (Vec::new(), src);
    }
    let pat = ['\n', '-', '-', '-'];
    proof {
        reveal_strlit("\n---");
        assert(pat@ =~= "\n---"@);
    }
    let e = match crate::text::find_in(&s, 3, n, &pat) {
        Some(e) => e,
        None => return (Vec::new(), src),
    };
    let ghost rest = s@.subrange(3, n as int);
    let ls = lines_in(&s, 3, e);
    let fields = fm_fields_exec(&s, &ls);
    let crlf = ['\r', '\n'];
    let b = skip_set(&s, e + 4, n, &crlf);
    proof {
        assert(crlf@ =~= seq!['\r', '\n']);
        assert(rest.subrange(0, e - 3) =~= s@.subrange(3, e as int));
        assert(rest.subrange(e - 3 + 4, rest.len() as int) =~= s@.subrange(e + 4, n as int));
    }
    let body = src.substring_char(b, n);
    (fields, body)
}

} // verus!
