//! The firm's own documents: the decision log split into dated entries, and
//! an inbox message rendered as a collapsible document.
use vstd::prelude::*;

use crate::render::{
    badge_html, chip_row, chips, concat, doc, doc_html, escaped, fields_view, frontmatter_of,
    markdown, markdown_html, push_esc, row, row_html, rows, split_frontmatter, status_badge,
    status_tone_of,
};
use crate::sort::views;
use crate::text::{
    byte_len, byte_len_capped, chars_of, first_index, lemma_first_index_is, lemma_first_index_none,
    lines, lines_in, owned, push_char, push_window, set_pred, skip_set, skip_set_back, split_char,
    split_in, starts_with, str_eq, string_of, strip_prefix, strip_prefix_in, trim, trim_end_by,
    trim_start_by, trim_window, win, window_eq, wins, windows_ok,
};

verus! {

// ---------------------------------------------------------------------------
// Decision log entries
// ---------------------------------------------------------------------------

pub open spec fn dash_at(s: Seq<char>) -> spec_fn(int) -> bool {
    |i: int| s[i] == '—' || s[i] == '-'
}

/// How many times `c` occurs in `s`.
pub open spec fn count_char(s: Seq<char>, c: char) -> nat
    decreases s.len(),
{
    if s.len() == 0 {
        0
    } else {
        count_char(s.drop_last(), c) + if s.last() == c {
            1nat
        } else {
            0nat
        }
    }
}

/// A heading `<date> — <what changed>` → (date, what). The date is what
/// precedes the first dash when that is ten bytes once trimmed; failing that,
/// the heading's first ten characters when they are ten bytes with two `-`
/// among them (the what then starts after those ten bytes); failing that, there is no date and the heading is the what.
pub open spec fn heading_parts(head: Seq<char>) -> (Seq<char>, Seq<char>) {
    let split = match first_index(head.len() as int, dash_at(head)) {
        Some(i) => if byte_len(trim(head.take(i))) == 10 {
            Some((trim(head.take(i)), trim(head.skip(i + 1))))
        } else {
            None
        },
        None => None,
    };
    match split {
        Some(p) => p,
        None => {
            let maybe = if head.len() >= 10 {
                head.take(10)
            } else {
                head
            };
            if byte_len(maybe) == 10 && count_char(maybe, '-') == 2 {
                (
                    maybe,
                    trim(trim_start_by(head.skip(maybe.len() as int), set_pred(seq![' ', '—', '-']))),
                )
            } else {
                (Seq::empty(), head)
            }
        },
    }
}

/// One line of the decision log: a `## ` heading opens an entry; any other
/// line goes to the open entry's body (a `---` rule excepted); lines before
/// the first heading are dropped.
pub open spec fn entries_step(
    out: Seq<(Seq<char>, Seq<char>, Seq<char>)>,
    line: Seq<char>,
) -> Seq<(Seq<char>, Seq<char>, Seq<char>)> {
    match strip_prefix(line, "## "@) {
        Some(h) => {
            let p = heading_parts(trim(h));
            out.push((p.0, p.1, Seq::empty()))
        },
        None => if out.len() == 0 || trim(line) == "---"@ {
            out
        } else {
            let last = out.last();
            out.drop_last().push((last.0, last.1, last.2 + line + "\n"@))
        },
    }
}

pub open spec fn entries_of(ls: Seq<Seq<char>>) -> Seq<(Seq<char>, Seq<char>, Seq<char>)>
    decreases ls.len(),
{
    if ls.len() == 0 {
        Seq::empty()
    } else {
        entries_step(entries_of(ls.drop_last()), ls.last())
    }
}

pub open spec fn triple_views(v: Seq<(String, String, String)>) -> Seq<
    (Seq<char>, Seq<char>, Seq<char>),
> {
    v.map_values(|t: (String, String, String)| (t.0@, t.1@, t.2@))
}

/// The number of `c` in `s[lo..hi]`, capped at 3.
fn count_in(s: &[char], lo: usize, hi: usize, c: char) -> (r: usize)
    requires
        lo <= hi <= s@.len(),
    ensures
        r == count_char(s@.subrange(lo as int, hi as int), c),
{
    let ghost w = s@.subrange(lo as int, hi as int);
    let mut i = lo;
    let mut n: usize = 0;
    proof {
        assert(w.take(0) =~= Seq::<char>::empty());
    }
    while i < hi
        invariant
            lo <= i <= hi <= s@.len(),
            w == s@.subrange(lo as int, hi as int),
            n == count_char(w.take(i - lo), c),
            n <= i - lo,
        decreases hi - i,
    {
        proof {
            assert(w.take(i - lo + 1).drop_last() =~= w.take(i - lo));
            assert(w.take(i - lo + 1).last() == s@[i as int]);
        }
        if s[i] == c {
            n += 1;
        }
        i += 1;
    }
    proof {
        assert(w.take(hi - lo) =~= w);
    }
    n
}

/// `heading_parts` of the window `s[a..b]`.
fn heading_parts_exec(s: &[char], a: usize, b: usize) -> (r: (String, String))
    requires
        a <= b <= s@.len(),
    ensures
        r.0@ == heading_parts(s@.subrange(a as int, b as int)).0,
        r.1@ == heading_parts(s@.subrange(a as int, b as int)).1,
{
    let ghost head = s@.subrange(a as int, b as int);
    let ghost p = dash_at(head);
    let mut i = a;
    while i < b && s[i] != '—' && s[i] != '-'
        invariant
            a <= i <= b <= s@.len(),
            head == s@.subrange(a as int, b as int),
            p == dash_at(head),
            forall|j: int| 0 <= j < i - a ==> !#[trigger] p(j),
        decreases b - i,
    {
        i += 1;
    }
    if i < b {
        proof {
            lemma_first_index_is(head.len() as int, p, i - a);
            assert(head.take(i - a) =~= s@.subrange(a as int, i as int));
            assert(head.skip(i - a + 1) =~= s@.subrange(i + 1, b as int));
        }
        let (x, y) = trim_window(s, a, i);
        if byte_len_capped(s, x, y, 10) == 10 {
            let (u, v) = trim_window(s, i + 1, b);
            return (string_of(s, x, y), string_of(s, u, v));
        }
    } else {
        proof {
            lemma_first_index_none(head.len() as int, p);
        }
    }
    let m = if b - a >= 10 {
        a + 10
    } else {
        b
    };
    proof {
        if b - a >= 10 {
            assert(head.take(10) =~= s@.subrange(a as int, m as int));
        } else {
            assert(head =~= s@.subrange(a as int, m as int));
        }
    }
    if byte_len_capped(s, a, m, 10) == 10 && count_in(s, a, m, '-') == 2 {
        proof {
            assert(head.skip(m - a) =~= s@.subrange(m as int, b as int));
        }
        let set = [' ', '—', '-'];
        let c = skip_set(s, m, b, &set);
        proof {
            assert(set@ =~= seq![' ', '—', '-']);
        }
        let (u, v) = trim_window(s, c, b);
        (string_of(s, a, m), string_of(s, u, v))
    } else {
        (String::new(), string_of(s, a, b))
    }
}

/// `## <date> — <what changed>` sections → (date, what, body). Anything before
/// the first heading (the file's own preamble) is dropped.
pub fn split_entries(src: &str) -> (r: Vec<(String, String, String)>)
    ensures
        triple_views(r@) == entries_of(lines(src@)),
{
    let s = chars_of(src);
    proof {
        assert(s@.subrange(0, s@.len() as int) =~= s@);
    }
    let ls = lines_in(&s, 0, s.len());
    let ghost v = wins(s@, ls@);
    let hh = chars_of("## ");
    let rule = chars_of("---");
    let mut out: Vec<(String, String, String)> = Vec::new();
    let mut k: usize = 0;
    proof {
        assert(v.take(0) =~= Seq::<Seq<char>>::empty());
        assert(triple_views(out@) =~= Seq::<(Seq<char>, Seq<char>, Seq<char>)>::empty());
    }
    while k < ls.len()
        invariant
            k <= ls@.len(),
            windows_ok(s@, ls@),
            v == wins(s@, ls@),
            v == lines(src@),
            hh@ == "## "@,
            rule@ == "---"@,
            triple_views(out@) == entries_of(v.take(k as int)),
        decreases ls.len() - k,
    {
        let (a, b) = ls[k];
        let ghost line = v[k as int];
        proof {
            assert(ls@[k as int].0 <= ls@[k as int].1 <= s@.len());
            assert(line == win(s@, ls@[k as int]));
            assert(v.take(k + 1).drop_last() =~= v.take(k as int));
            assert(v.take(k + 1).last() == line);
        }
        let ghost before = triple_views(out@);
        match strip_prefix_in(&s, a, b, &hh) {
            Some(h) => {
                let (x, y) = trim_window(&s, h, b);
                let (date, what) = heading_parts_exec(&s, x, y);
                let e = (date, what, String::new());
                out.push(e);
                proof {
                    assert(triple_views(out@) =~= before.push((e.0@, e.1@, Seq::<char>::empty())));
                }
            },
            None => {
                let (x, y) = trim_window(&s, a, b);
                if out.len() > 0 && !window_eq(&s, x, y, &rule) {
                    let mut last = out.pop().unwrap();
                    let ghost l0 = last.2@;
                    push_window(&mut last.2, &s, a, b);
                    push_char(&mut last.2, '\n');
                    proof {
                        reveal_strlit("\n");
                        assert(last.2@ =~= l0 + line + "\n"@);
                        assert(before.last() == (last.0@, last.1@, l0));
                    }
                    out.push(last);
                    proof {
                        assert(triple_views(out@) =~= before.drop_last().push(
                            (last.0@, last.1@, last.2@),
                        ));
                    }
                }
            },
        }
        k += 1;
    }
    proof {
        assert(v.take(ls@.len() as int) =~= v);
    }
    out
}

// ---------------------------------------------------------------------------
// Inbox messages
// ---------------------------------------------------------------------------

pub open spec fn field_is(fs: Seq<(Seq<char>, Seq<char>)>, k: Seq<char>) -> spec_fn(int) -> bool {
    |i: int| fs[i].0 == k
}

/// The value of the first frontmatter field called `k`.
pub open spec fn field(fs: Seq<(Seq<char>, Seq<char>)>, k: Seq<char>) -> Option<Seq<char>> {
    match first_index(fs.len() as int, field_is(fs, k)) {
        Some(i) => Some(fs[i].1),
        None => None,
    }
}

/// The fields shown elsewhere than in the document's rows.
pub open spec fn headline_key(k: Seq<char>) -> bool {
    k == "subject"@ || k == "slug"@ || k == "status"@ || k == "from"@ || k == "to"@ || k
        == "date"@
}

/// `s` without leading and trailing characters of `set`.
pub open spec fn trim_set(s: Seq<char>, set: Seq<char>) -> Seq<char> {
    trim_end_by(trim_start_by(s, set_pred(set)), set_pred(set))
}

/// The items of a `[a, "b", c]` list value: split at commas, each trimmed
/// and unquoted, empty ones dropped.
pub open spec fn list_entries(parts: Seq<Seq<char>>) -> Seq<Seq<char>>
    decreases parts.len(),
{
    if parts.len() == 0 {
        Seq::empty()
    } else {
        let t = trim_set(trim(parts.last()), seq!['"']);
        if t.len() > 0 {
            list_entries(parts.drop_last()).push(t)
        } else {
            list_entries(parts.drop_last())
        }
    }
}

pub open spec fn list_value(v: Seq<char>) -> Seq<Seq<char>> {
    list_entries(split_char(trim_set(v, seq!['[', ']']), ','))
}

pub open spec fn chip_row_html(items: Seq<Seq<char>>) -> Seq<char> {
    "<div class=\"chip-row\">"@ + concat(chips(items)) + "</div>"@
}

/// One row per remaining field: a list value as chips, anything else as
/// escaped text.
pub open spec fn extra_rows(fs: Seq<(Seq<char>, Seq<char>)>) -> Seq<char>
    decreases fs.len(),
{
    if fs.len() == 0 {
        Seq::empty()
    } else {
        let (k, v) = fs.last();
        let prev = extra_rows(fs.drop_last());
        if headline_key(k) {
            prev
        } else if starts_with(v, "["@) {
            prev + row_html(k, chip_row_html(list_value(v)))
        } else {
            prev + row_html(k, escaped(v))
        }
    }
}

/// Sender → recipient, date, and the file name, joined by ` · `.
pub open spec fn message_meta(fs: Seq<(Seq<char>, Seq<char>)>, filename: Seq<char>) -> Seq<char> {
    let m1 = match (field(fs, "from"@), field(fs, "to"@)) {
        (Some(f), Some(t)) => escaped(f) + " → "@ + escaped(t),
        _ => Seq::empty(),
    };
    let m2 = match field(fs, "date"@) {
        Some(d) => (if m1.len() > 0 {
            m1 + " · "@
        } else {
            m1
        }) + escaped(d),
        None => m1,
    };
    (if m2.len() > 0 {
        m2 + " · "@
    } else {
        m2
    }) + "<span class=\"mono\">"@ + escaped(filename) + "</span>"@
}

/// A frontmattered markdown file as a collapsible document: the subject (or
/// slug, or file name) and its status badge as the summary, the meta line,
/// the other fields as rows, and the body rendered from markdown.
pub open spec fn message_doc_of(filename: Seq<char>, src: Seq<char>) -> Seq<char> {
    let (fs, body) = frontmatter_of(src);
    let title = match field(fs, "subject"@) {
        Some(t) => t,
        None => match field(fs, "slug"@) {
            Some(t) => t,
            None => filename,
        },
    };
    let status = match field(fs, "status"@) {
        Some(st) => badge_html(st, status_tone_of(st)),
        None => Seq::empty(),
    };
    let extra = extra_rows(fs);
    let rows_html = if extra.len() > 0 {
        "<div class=\"rows\">"@ + extra + "</div>"@
    } else {
        Seq::empty()
    };
    doc_html(
        escaped(title) + status,
        message_meta(fs, filename),
        rows_html + "<div class=\"prose\">"@ + markdown_html(body) + "</div>"@,
        false,
    )
}

fn find_field(fields: &Vec<(String, String)>, k: &str) -> (r: Option<usize>)
    ensures
        match r {
            Some(i) => field(fields_view(fields@), k@) == Some(fields@[i as int].1@) && i
                < fields@.len(),
            None => field(fields_view(fields@), k@) is None,
        },
{
    let ghost fs = fields_view(fields@);
    let ghost p = field_is(fs, k@);
    let mut i: usize = 0;
    while i < fields.len()
        invariant
            i <= fields@.len(),
            fs == fields_view(fields@),
            p == field_is(fs, k@),
            forall|j: int| 0 <= j < i ==> !#[trigger] p(j),
        decreases fields.len() - i,
    {
        proof {
            assert(fs[i as int] == (fields@[i as int].0@, fields@[i as int].1@));
        }
        if str_eq(fields[i].0.as_str(), k) {
            proof {
                lemma_first_index_is(fs.len() as int, p, i as int);
            }
            return Some(i);
        }
        i += 1;
    }
    proof {
        lemma_first_index_none(fs.len() as int, p);
    }
    None
}

/// The items of a list value, as strings.
fn list_exec(v: &str) -> (r: Vec<String>)
    ensures
        views(r@) == list_value(v@),
{
    let s = chars_of(v);
    let n = s.len();
    proof {
        assert(s@.subrange(0, n as int) =~= s@);
    }
    let br = ['[', ']'];
    let q = ['"'];
    proof {
        assert(br@ =~= seq!['[', ']']);
        assert(q@ =~= seq!['"']);
    }
    let a = skip_set(&s, 0, n, &br);
    let b = skip_set_back(&s, a, n, &br);
    proof {
        assert(s@.subrange(a as int, n as int).subrange(0, b - a) =~= s@.subrange(
            a as int,
            b as int,
        ));
    }
    let parts = split_in(&s, a, b, ',');
    let ghost pv = wins(s@, parts@);
    let mut out: Vec<String> = Vec::new();
    let mut i: usize = 0;
    proof {
        assert(pv.take(0) =~= Seq::<Seq<char>>::empty());
        assert(views(out@) =~= Seq::<Seq<char>>::empty());
    }
    while i < parts.len()
        invariant
            i <= parts@.len(),
            windows_ok(s@, parts@),
            pv == wins(s@, parts@),
            q@ == seq!['"'],
            views(out@) == list_entries(pv.take(i as int)),
        decreases parts.len() - i,
    {
        let (x, y) = parts[i];
        proof {
            assert(parts@[i as int].0 <= parts@[i as int].1 <= s@.len());
            assert(pv[i as int] == win(s@, parts@[i as int]));
            assert(pv.take(i + 1).drop_last() =~= pv.take(i as int));
            assert(pv.take(i + 1).last() == pv[i as int]);
        }
        let (u, w) = trim_window(&s, x, y);
        let c = skip_set(&s, u, w, &q);
        let d = skip_set_back(&s, c, w, &q);
        proof {
            assert(s@.subrange(c as int, w as int).subrange(0, d - c) =~= s@.subrange(
                c as int,
                d as int,
            ));
        }
        if c < d {
            let t = string_of(&s, c, d);
            proof {
                assert(views(out@.push(t)) =~= views(out@).push(t@));
            }
            out.push(t);
        }
        i += 1;
    }
    proof {
        assert(pv.take(parts@.len() as int) =~= pv);
    }
    out
}

/// The rows of the fields not shown in the headline.
fn extra_exec(fields: &Vec<(String, String)>) -> (r: String)
    ensures
        r@ == extra_rows(fields_view(fields@)),
{
    let ghost fs = fields_view(fields@);
    let mut out = String::new();
    let mut i: usize = 0;
    proof {
        assert(fs.take(0) =~= Seq::<(Seq<char>, Seq<char>)>::empty());
    }
    while i < fields.len()
        invariant
            i <= fields@.len(),
            fs == fields_view(fields@),
            out@ == extra_rows(fs.take(i as int)),
        decreases fields.len() - i,
    {
        let k = fields[i].0.as_str();
        let v = fields[i].1.as_str();
        proof {
            assert(fs.take(i + 1).drop_last() =~= fs.take(i as int));
            assert(fs.take(i + 1).last() == (k@, v@));
            reveal_strlit("[");
        }
        let skip = str_eq(k, "subject") || str_eq(k, "slug") || str_eq(k, "status") || str_eq(
            k,
            "from",
        ) || str_eq(k, "to") || str_eq(k, "date");
        if !skip {
            let vc = chars_of(v);
            let open = ['['];
            proof {
                assert(open@ =~= "["@);
                assert(vc@.subrange(0, vc@.len() as int) =~= vc@);
            }
            if at_in_start(&vc, &open) {
                let list = list_exec(v);
                let chips_html = chip_row(&list);
                proof {
                    assert(list@.map_values(|s: String| s@) =~= views(list@));
                }
                let r = row(k, chips_html.as_str());
                out.append(r.as_str());
            } else {
                let e = crate::render::esc(v);
                let r = row(k, e.as_str());
                out.append(r.as_str());
            }
        }
        i += 1;
    }
    proof {
        assert(fs.take(fields@.len() as int) =~= fs);
    }
    out
}

/// Whether `s` starts with `p`.
fn at_in_start(s: &Vec<char>, p: &[char]) -> (r: bool)
    ensures
        r == starts_with(s@, p@),
{
    proof {
        assert(s@.subrange(0, s@.len() as int) =~= s@);
    }
    crate::text::at_in(s, 0, s.len(), 0, p)
}

/// A frontmattered markdown file as a collapsible document.
pub fn message_doc(filename: &str, src: &str) -> (r: String)
    ensures
        r@ == message_doc_of(filename@, src@),
{
    let (fields, body) = split_frontmatter(src);
    let ghost fs = fields_view(fields@);
    let subject = find_field(&fields, "subject");
    let slug = find_field(&fields, "slug");
    let title: &str = match subject {
        Some(i) => fields[i].1.as_str(),
        None => match slug {
            Some(i) => fields[i].1.as_str(),
            None => filename,
        },
    };
    let status = match find_field(&fields, "status") {
        Some(i) => status_badge(fields[i].1.as_str()),
        None => String::new(),
    };
    let mut meta = String::new();
    match (find_field(&fields, "from"), find_field(&fields, "to")) {
        (Some(f), Some(t)) => {
            push_esc(&mut meta, fields[f].1.as_str());
            meta.append(" → ");
            push_esc(&mut meta, fields[t].1.as_str());
        },
        _ => {},
    }
    let ghost m1 = meta@;
    proof {
        assert(m1 == match (field(fs, "from"@), field(fs, "to"@)) {
            (Some(f), Some(t)) => escaped(f) + " → "@ + escaped(t),
            _ => Seq::<char>::empty(),
        });
    }
    match find_field(&fields, "date") {
        Some(d) => {
            if !meta.as_str().is_empty() {
                meta.append(" · ");
            }
            push_esc(&mut meta, fields[d].1.as_str());
        },
        None => {},
    }
    if !meta.as_str().is_empty() {
        meta.append(" · ");
    }
    meta.append("<span class=\"mono\">");
    push_esc(&mut meta, filename);
    meta.append("</span>");
    let extra = extra_exec(&fields);
    let mut summary = crate::render::esc(title);
    summary.append(status.as_str());
    let mut body_html = if !extra.as_str().is_empty() {
        let mut r = owned("<div class=\"rows\">");
        r.append(extra.as_str());
        r.append("</div>");
        r
    } else {
        String::new()
    };
    body_html.append("<div class=\"prose\">");
    let md = markdown(body);
    body_html.append(md.as_str());
    body_html.append("</div>");
    proof {
        assert(meta@ =~= message_meta(fs, filename@));
        assert(body_html@ =~= (if extra@.len() > 0 {
            "<div class=\"rows\">"@ + extra@ + "</div>"@
        } else {
            Seq::<char>::empty()
        }) + "<div class=\"prose\">"@ + markdown_html(body@) + "</div>"@);
    }
    doc(summary.as_str(), meta.as_str(), body_html.as_str(), false)
}

} // verus!
