//! Shared page plumbing: the missing-data banner, breadcrumb trails, the
//! top bar's failure reason, and JSON string literals for inline scripts.
use vstd::prelude::*;

use crate::number::{dec, push_dec};
use crate::render::{crumb, escaped, icon, icon_svg, join, push_esc, push_str, Crumb};
use crate::sort::views;
use crate::text::{chars_of, owned, push_char};

verus! {

// ---------------------------------------------------------------------------
// Banner and trail
// ---------------------------------------------------------------------------

/// The banner's markup around an already-escaped reason.
pub open spec fn banner_html(reason: Seq<char>) -> Seq<char> {
    "<div class=\"banner banner-bad\">"@ + icon_svg("alert"@)
        + " <strong>Some of this page is missing.</strong> "@ + escaped(reason)
        + " Nothing below is a cached or older copy — the dashboard reads <span class=\"mono\">main</span> at request time and shows only what it could read.</div>"@
}

/// Shown at the top of a page that could not read everything it needed: an
/// error naming what is missing and why, never a notice.
pub fn fetch_error_banner(reason: &str) -> (r: String)
    ensures
        r@ == banner_html(reason@),
{
    let mut out = owned("<div class=\"banner banner-bad\">");
    let ic = icon("alert");
    push_str(&mut out, &ic);
    out.append(" <strong>Some of this page is missing.</strong> ");
    push_esc(&mut out, reason);
    out.append(
        " Nothing below is a cached or older copy — the dashboard reads <span class=\"mono\">main</span> at request time and shows only what it could read.</div>",
    );
    out
}

/// Breadcrumb trail helper: section → page [→ detail…], one crumb per
/// (label, href) pair, in order.
pub fn trail(parts: &[(&str, &str)]) -> (r: Vec<Crumb>)
    ensures
        r@.len() == parts@.len(),
        forall|i: int|
            0 <= i < parts@.len() ==> (#[trigger] r@[i]).label@ == parts@[i].0@ && r@[i].href@
                == parts@[i].1@,
{
    let mut out: Vec<Crumb> = Vec::new();
    let mut i: usize = 0;
    while i < parts.len()
        invariant
            i <= parts@.len(),
            out@.len() == i,
            forall|j: int|
                0 <= j < i ==> (#[trigger] out@[j]).label@ == parts@[j].0@ && out@[j].href@
                    == parts@[j].1@,
        decreases parts.len() - i,
    {
        let (label, href) = parts[i];
        out.push(crumb(label, href));
        i += 1;
    }
    out
}

// ---------------------------------------------------------------------------
// Why the page is incomplete
// ---------------------------------------------------------------------------

/// What the top bar says when the repository answered but some reads on the
/// page did not: the files by name.
pub open spec fn failure_reason_of(failed: Seq<Seq<char>>) -> Seq<char> {
    if failed.len() == 0 {
        "A file this page needs could not be read from the repository."@
    } else if failed.len() == 1 {
        "Could not read "@ + failed[0] + " from the repository."@
    } else {
        "Could not read "@ + dec(failed.len()) + " files from the repository: "@ + join(failed, ", "@) + "."@
    }
}

/// The reason shown when some reads on a page failed, naming the files.
pub fn failure_reason(failed: &[String]) -> (r: String)
    ensures
        r@ == failure_reason_of(views(failed@)),
{
    let ghost v = views(failed@);
    if failed.len() == 0 {
        return owned("A file this page needs could not be read from the repository.");
    }
    if failed.len() == 1 {
        let mut out = owned("Could not read ");
        out.append(failed[0].as_str());
        out.append(" from the repository.");
        return out;
    }
    let mut out = owned("Could not read ");
    push_dec(&mut out, failed.len() as u64);
    out.append(" files from the repository: ");
    let ghost head = out@;
    out.append(failed[0].as_str());
    let mut i: usize = 1;
    proof {
        assert(v.take(1).drop_last() =~= Seq::<Seq<char>>::empty());
        assert(join(v.take(1), ", "@) == v[0]);
    }
    while i < failed.len()
        invariant
            1 <= i <= failed@.len(),
            v == views(failed@),
            out@ == head + join(v.take(i as int), ", "@),
        decreases failed.len() - i,
    {
        out.append(", ");
        out.append(failed[i].as_str());
        proof {
            assert(v.take(i + 1).drop_last() =~= v.take(i as int));
            assert(v.take(i + 1).last() == v[i as int]);
        }
        i += 1;
    }
    out.append(".");
    proof {
        assert(v.take(failed@.len() as int) =~= v);
    }
    out
}

// ---------------------------------------------------------------------------
// JSON string literals
// ---------------------------------------------------------------------------

pub open spec fn hex_digit(d: int) -> char {
    seq!['0', '1', '2', '3', '4', '5', '6', '7', '8', '9', 'a', 'b', 'c', 'd', 'e', 'f'][d]
}

/// One character inside a JSON string that may stand in a `<script>` block.
pub open spec fn json_char(c: char) -> Seq<char> {
    if c == '"' {
        "\\\""@
    } else if c == '\\' {
        "\\\\"@
    } else if c == '<' {
        "\\u003c"@
    } else if c == '>' {
        "\\u003e"@
    } else if c == '&' {
        "\\u0026"@
    } else if c == '\n' {
        "\\n"@
    } else if c == '\r' {
        "\\r"@
    } else if c == '\t' {
        "\\t"@
    } else if (c as u32) < 0x20 {
        "\\u00"@ + seq![hex_digit((c as u32) as int / 16), hex_digit((c as u32) as int % 16)]
    } else {
        seq![c]
    }
}

pub open spec fn json_body(s: Seq<char>) -> Seq<char>
    decreases s.len(),
{
    if s.len() == 0 {
        Seq::empty()
    } else {
        json_body(s.drop_last()) + json_char(s.last())
    }
}

/// `s` as a quoted JSON string literal.
pub open spec fn json_str_of(s: Seq<char>) -> Seq<char> {
    seq!['"'] + json_body(s) + seq!['"']
}

/// A JSON string literal, safe to inline inside a `<script>` block.
pub fn json_str(s: &str) -> (r: String)
    ensures
        r@ == json_str_of(s@),
{
    let cs = chars_of(s);
    let digits = ['0', '1', '2', '3', '4', '5', '6', '7', '8', '9', 'a', 'b', 'c', 'd', 'e', 'f'];
    let mut out = String::new();
    push_char(&mut out, '"');
    let ghost open = out@;
    let mut i: usize = 0;
    proof {
        assert(cs@.take(0) =~= Seq::<char>::empty());
        assert(open + json_body(cs@.take(0)) =~= open);
    }
    while i < cs.len()
        invariant
            i <= cs@.len(),
            cs@ == s@,
            open == seq!['"'],
            digits@ == seq!['0', '1', '2', '3', '4', '5', '6', '7', '8', '9', 'a', 'b', 'c', 'd', 'e', 'f'],
            out@ == open + json_body(cs@.take(i as int)),
        decreases cs.len() - i,
    {
        let c = cs[i];
        let ghost before = out@;
        if c == '"' {
            out.append("\\\"");
        } else if c == '\\' {
            out.append("\\\\");
        } else if c == '<' {
            out.append("\\u003c");
        } else if c == '>' {
            out.append("\\u003e");
        } else if c == '&' {
            out.append("\\u0026");
        } else if c == '\n' {
            out.append("\\n");
        } else if c == '\r' {
            out.append("\\r");
        } else if c == '\t' {
            out.append("\\t");
        } else if (c as u32) < 0x20 {
            out.append("\\u00");
            let u = c as u32;
            push_char(&mut out, digits[(u / 16) as usize]);
            push_char(&mut out, digits[(u % 16) as usize]);
            proof {
                assert(out@ =~= before + ("\\u00"@ + seq![hex_digit(u as int / 16), hex_digit(u as int % 16)]));
            }
        } else {
            push_char(&mut out, c);
            proof {
                assert(before.push(c) =~= before + seq![c]);
            }
        }
        proof {
            assert(cs@.take(i + 1).drop_last() =~= cs@.take(i as int));
            assert(cs@.take(i + 1).last() == c);
            assert(out@ == before + json_char(c));
        }
        i += 1;
    }
    push_char(&mut out, '"');
    proof {
        assert(cs@.take(cs@.len() as int) =~= s@);
        assert(out@ =~= json_str_of(s@));
    }
    out
}

/// The value of a hex digit (either case).
pub open spec fn hex_value(c: char) -> int {
    if '0' <= c <= '9' {
        c as int - 48
    } else if 'a' <= c <= 'f' {
        c as int - 87
    } else if 'A' <= c <= 'F' {
        c as int - 55
    } else {
        0
    }
}

/// The characters a JSON string body stands for (RFC 8259): `\"`, `\\`,
/// `\/`, `\b`, `\f`, `\n`, `\r`, `\t` and `\uXXXX` read back, every other
/// character standing for itself.
pub open spec fn json_decode(s: Seq<char>) -> Seq<char>
    decreases s.len(),
{
    if s.len() == 0 {
        Seq::empty()
    } else if s[0] == '\\' && s.len() >= 6 && s[1] == 'u' {
        seq![(hex_value(s[2]) * 4096 + hex_value(s[3]) * 256 + hex_value(s[4]) * 16 + hex_value(s[5])) as char]
            + json_decode(s.skip(6))
    } else if s[0] == '\\' && s.len() >= 2 && (s[1] == '"' || s[1] == '\\' || s[1] == '/') {
        seq![s[1]] + json_decode(s.skip(2))
    } else if s[0] == '\\' && s.len() >= 2 && s[1] == 'n' {
        seq!['\n'] + json_decode(s.skip(2))
    } else if s[0] == '\\' && s.len() >= 2 && s[1] == 'r' {
        seq!['\r'] + json_decode(s.skip(2))
    } else if s[0] == '\\' && s.len() >= 2 && s[1] == 't' {
        seq!['\t'] + json_decode(s.skip(2))
    } else if s[0] == '\\' && s.len() >= 2 && s[1] == 'b' {
        seq!['\u{8}'] + json_decode(s.skip(2))
    } else if s[0] == '\\' && s.len() >= 2 && s[1] == 'f' {
        seq!['\u{c}'] + json_decode(s.skip(2))
    } else {
        seq![s[0]] + json_decode(s.skip(1))
    }
}

proof fn lemma_json_body_append(a: Seq<char>, b: Seq<char>)
    ensures
        json_body(a + b) == json_body(a) + json_body(b),
    decreases b.len(),
{
    if b.len() == 0 {
        assert(a + b =~= a);
        assert(json_body(a) + json_body(b) =~= json_body(a));
    } else {
        lemma_json_body_append(a, b.drop_last());
        assert((a + b).drop_last() =~= a + b.drop_last());
        assert((a + b).last() == b.last());
    }
}

proof fn lemma_json_decode_char(c: char, rest: Seq<char>)
    ensures
        json_decode(json_char(c) + rest) == seq![c] + json_decode(rest),
{
    reveal_strlit("\\\"");
    reveal_strlit("\\\\");
    reveal_strlit("\\u003c");
    reveal_strlit("\\u003e");
    reveal_strlit("\\u0026");
    reveal_strlit("\\n");
    reveal_strlit("\\r");
    reveal_strlit("\\t");
    reveal_strlit("\\u00");
    let j = json_char(c);
    let e = j + rest;
    assert(e.skip(j.len() as int) =~= rest);
    if c == '"' || c == '\\' || c == '\n' || c == '\r' || c == '\t' {
        assert(e[0] == '\\');
        assert(e[1] == j[1]);
    } else if c == '<' || c == '>' || c == '&' {
        assert(e[0] == '\\' && e[1] == 'u' && e[2] == '0' && e[3] == '0');
        assert(e[4] == j[4] && e[5] == j[5]);
        assert((c as int) < 128);
    } else if (c as u32) < 0x20 {
        let u = (c as u32) as int;
        let t = seq!['0', '1', '2', '3', '4', '5', '6', '7', '8', '9', 'a', 'b', 'c', 'd', 'e', 'f'];
        assert(j[4] == t[u / 16] && j[5] == t[u % 16]);
        assert(e[0] == '\\' && e[1] == 'u' && e[2] == '0' && e[3] == '0');
        assert(e[4] == j[4] && e[5] == j[5]);
        assert(hex_value(t[u / 16]) == u / 16);
        assert(hex_value(t[u % 16]) == u % 16);
        assert(u == (u / 16) * 16 + u % 16);
        vstd::utf8::char_u32_cast(c, c as u32);
    } else {
        assert(e[0] == c);
    }
}

/// A JSON string literal reads back as its text: `json_str`'s output is
/// quoted, and its body decodes (by the JSON string rules) to the input.
pub proof fn law_json_str_reads_back(s: Seq<char>)
    ensures
        json_str_of(s).len() >= 2,
        json_str_of(s)[0] == '"',
        json_str_of(s).last() == '"',
        json_decode(json_str_of(s).subrange(1, json_str_of(s).len() - 1)) == s,
{
    let lit = json_str_of(s);
    assert(lit.subrange(1, lit.len() - 1) =~= json_body(s));
    lemma_json_decodes(s);
}

proof fn lemma_json_decodes(s: Seq<char>)
    ensures
        json_decode(json_body(s)) == s,
    decreases s.len(),
{
    if s.len() > 0 {
        let rest = s.skip(1);
        lemma_json_decodes(rest);
        assert(s =~= seq![s[0]] + rest);
        lemma_json_body_append(seq![s[0]], rest);
        assert(seq![s[0]].drop_last() =~= Seq::<char>::empty());
        assert(json_body(seq![s[0]]) == json_body(Seq::<char>::empty()) + json_char(s[0]));
        assert(json_body(seq![s[0]]) =~= json_char(s[0]));
        lemma_json_decode_char(s[0], json_body(rest));
    } else {
        assert(json_body(s) =~= Seq::<char>::empty());
    }
}

/// What `json_str` writes can be inlined in a `<script>` block: the body of
/// the literal holds no `<`, `>` or `&`, no unescaped quote, and no control
/// character.
pub proof fn law_json_body_is_inert(s: Seq<char>)
    ensures
        forall|i: int|
            0 <= i < json_body(s).len() ==> {
                let c = #[trigger] json_body(s)[i];
                c != '<' && c != '>' && c != '&' && (c as u32) >= 0x20
            },
    decreases s.len(),
{
    reveal_strlit("\\\"");
    reveal_strlit("\\\\");
    reveal_strlit("\\u003c");
    reveal_strlit("\\u003e");
    reveal_strlit("\\u0026");
    reveal_strlit("\\n");
    reveal_strlit("\\r");
    reveal_strlit("\\t");
    reveal_strlit("\\u00");
    if s.len() > 0 {
        law_json_body_is_inert(s.drop_last());
        let a = json_body(s.drop_last());
        let b = json_char(s.last());
        let c = s.last();
        let u = c as u32;
        if u < 0x20 && c != '\n' && c != '\r' && c != '\t' {
            assert(u / 16 < 16 && u % 16 < 16);
        }
        assert forall|i: int| 0 <= i < (a + b).len() implies {
            let c = #[trigger] (a + b)[i];
            c != '<' && c != '>' && c != '&' && (c as u32) >= 0x20
        } by {
            if i >= a.len() {
                assert((a + b)[i] == b[i - a.len()]);
            } else {
                assert((a + b)[i] == a[i]);
            }
        }
    }
}

} // verus!
