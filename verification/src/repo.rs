//! Repository structure discovered from a path listing (strategy variants,
//! families, run manifests, wiki pages), market slug labels, and the path
//! safety checks for user-supplied segments.
use vstd::prelude::*;

use vstd::relations::sorted_by;
use crate::sort::{pair_views, pairs_le, sort_pairs, sort_strings, str_le, views};
use crate::runs::{stem_key, stem_key_window};
use crate::sort::{lemma_lex_antisym, lemma_lex_total, lemma_lex_trans, lex_le_exec, lex_lt};
use crate::text::{
    alnum, at_in, byte_len, contains_seq, find_in, is_alnum, is_digit, push_char, push_window,
    split_in, win, wins, windows_ok, byte_len_capped, chars_of, ends_with, ends_with_in, find_char,
    find_char_in, first_index, lemma_first_index, lemma_first_index_is, lemma_first_index_none,
    owned, set_pred, skip_set_back, slice_vec, split_char, split_once, starts_with, str_eq,
    string_of, strip_prefix, strip_prefix_in, strip_suffix, strip_suffix_in, trim_end_by,
    trim_prefix_all, trim_prefix_all_in, trim_suffix_all, trim_suffix_all_in, window_eq,
};

verus! {

// ---------------------------------------------------------------------------
// Filtering a listing
// ---------------------------------------------------------------------------

/// `s.iter().filter_map(f)`.
pub open spec fn filter_map<A, B>(s: Seq<A>, f: spec_fn(A) -> Option<B>) -> Seq<B>
    decreases s.len(),
{
    if s.len() == 0 {
        Seq::empty()
    } else {
        match f(s.last()) {
            Some(b) => filter_map(s.drop_last(), f).push(b),
            None => filter_map(s.drop_last(), f),
        }
    }
}

pub proof fn lemma_filter_map_step<A, B>(s: Seq<A>, f: spec_fn(A) -> Option<B>, i: int)
    requires
        0 <= i < s.len(),
    ensures
        filter_map(s.take(i + 1), f) == match f(s[i]) {
            Some(b) => filter_map(s.take(i), f).push(b),
            None => filter_map(s.take(i), f),
        },
{
    assert(s.take(i + 1).drop_last() =~= s.take(i));
    assert(s.take(i + 1).last() == s[i]);
}

pub proof fn lemma_find_char_contains(s: Seq<char>, c: char)
    ensures
        (find_char(s, c) is Some) == s.contains(c),
{
    lemma_first_index(s.len() as int, crate::text::char_is(s, c));
    if s.contains(c) {
        let j = choose|j: int| 0 <= j < s.len() && s[j] == c;
        assert(crate::text::char_is(s, c)(j));
    }
}

// ---------------------------------------------------------------------------
// Strategy variants and families
// ---------------------------------------------------------------------------

/// `strategies/<family>/<variant>/strategy.toml` → (family, variant). The
/// `_template` scaffold is not a real variant.
pub open spec fn variant_of(p: Seq<char>) -> Option<(Seq<char>, Seq<char>)> {
    match strip_prefix(p, "strategies/"@) {
        Some(r) => match strip_suffix(r, "/strategy.toml"@) {
            Some(rest) => match split_once(rest, '/') {
                Some((f, v)) => if f == "_template"@ || v.contains('/') {
                    None
                } else {
                    Some((f, v))
                },
                None => None,
            },
            None => None,
        },
        None => None,
    }
}

pub open spec fn variant_fn() -> spec_fn(Seq<char>) -> Option<(Seq<char>, Seq<char>)> {
    |p: Seq<char>| variant_of(p)
}

fn variant_in(p: &str) -> (r: Option<(String, String)>)
    ensures
        match r {
            Some(x) => variant_of(p@) == Some((x.0@, x.1@)),
            None => variant_of(p@) is None,
        },
{
    let s = chars_of(p);
    let n = s.len();
    proof {
        assert(s@.subrange(0, n as int) =~= s@);
    }
    let pre = chars_of("strategies/");
    let suf = chars_of("/strategy.toml");
    let a = match strip_prefix_in(&s, 0, n, &pre) {
        Some(a) => a,
        None => return None,
    };
    let b = match strip_suffix_in(&s, a, n, &suf) {
        Some(b) => b,
        None => return None,
    };
    let ghost rest = s@.subrange(a as int, b as int);
    proof {
        assert(s@.subrange(a as int, n as int).subrange(0, b - a) =~= rest);
    }
    let k = match find_char_in(&s, a, b, '/') {
        Some(k) => k,
        None => return None,
    };
    let ghost f = s@.subrange(a as int, k as int);
    let ghost v = s@.subrange(k + 1, b as int);
    proof {
        assert(rest.subrange(0, k - a) =~= f);
        assert(rest.subrange(k - a + 1, rest.len() as int) =~= v);
        lemma_find_char_contains(v, '/');
    }
    let tmpl = chars_of("_template");
    if window_eq(&s, a, k, &tmpl) {
        return None;
    }
    if find_char_in(&s, k + 1, b, '/').is_some() {
        return None;
    }
    Some((string_of(&s, a, k), string_of(&s, k + 1, b)))
}

/// `strategies/<family>/<variant>/strategy.toml` → (family, variant), sorted.
pub fn variants(paths: &[String]) -> (r: Vec<(String, String)>)
    ensures
        sorted_by(pair_views(r@), pairs_le()),
        pair_views(r@).to_multiset() == filter_map(views(paths@), variant_fn()).to_multiset(),
{
    let ghost v = views(paths@);
    let mut out: Vec<(String, String)> = Vec::new();
    let mut i: usize = 0;
    proof {
        assert(pair_views(out@) =~= filter_map(v.take(0), variant_fn()));
    }
    while i < paths.len()
        invariant
            i <= paths@.len(),
            v == views(paths@),
            pair_views(out@) == filter_map(v.take(i as int), variant_fn()),
        decreases paths.len() - i,
    {
        proof {
            lemma_filter_map_step(v, variant_fn(), i as int);
            assert(v[i as int] == paths@[i as int]@);
        }
        match variant_in(paths[i].as_str()) {
            Some(x) => {
                proof {
                    assert(pair_views(out@.push(x)) =~= pair_views(out@).push((x.0@, x.1@)));
                }
                out.push(x);
            },
            None => {},
        }
        i += 1;
    }
    proof {
        assert(v.take(paths@.len() as int) =~= v);
    }
    sort_pairs(out)
}

/// `strategies/<family>/FAMILY.md` → the family name.
pub open spec fn family_of(p: Seq<char>) -> Option<Seq<char>> {
    match strip_prefix(p, "strategies/"@) {
        Some(r) => match strip_suffix(r, "/FAMILY.md"@) {
            Some(rest) => if rest.contains('/') || rest == "_template"@ {
                None
            } else {
                Some(rest)
            },
            None => None,
        },
        None => None,
    }
}

pub open spec fn family_fn() -> spec_fn(Seq<char>) -> Option<Seq<char>> {
    |p: Seq<char>| family_of(p)
}

fn family_in(p: &str) -> (r: Option<String>)
    ensures
        match r {
            Some(x) => family_of(p@) == Some(x@),
            None => family_of(p@) is None,
        },
{
    let s = chars_of(p);
    let n = s.len();
    proof {
        assert(s@.subrange(0, n as int) =~= s@);
    }
    let pre = chars_of("strategies/");
    let suf = chars_of("/FAMILY.md");
    let a = match strip_prefix_in(&s, 0, n, &pre) {
        Some(a) => a,
        None => return None,
    };
    let b = match strip_suffix_in(&s, a, n, &suf) {
        Some(b) => b,
        None => return None,
    };
    proof {
        assert(s@.subrange(a as int, n as int).subrange(0, b - a) =~= s@.subrange(
            a as int,
            b as int,
        ));
        lemma_find_char_contains(s@.subrange(a as int, b as int), '/');
    }
    if find_char_in(&s, a, b, '/').is_some() {
        return None;
    }
    let tmpl = chars_of("_template");
    if window_eq(&s, a, b, &tmpl) {
        return None;
    }
    Some(string_of(&s, a, b))
}

/// `strategies/<family>/FAMILY.md` → family names, sorted.
pub fn families(paths: &[String]) -> (r: Vec<String>)
    ensures
        sorted_by(views(r@), str_le()),
        views(r@).to_multiset() == filter_map(views(paths@), family_fn()).to_multiset(),
{
    let ghost v = views(paths@);
    let mut out: Vec<String> = Vec::new();
    let mut i: usize = 0;
    proof {
        assert(views(out@) =~= filter_map(v.take(0), family_fn()));
    }
    while i < paths.len()
        invariant
            i <= paths@.len(),
            v == views(paths@),
            views(out@) == filter_map(v.take(i as int), family_fn()),
        decreases paths.len() - i,
    {
        proof {
            lemma_filter_map_step(v, family_fn(), i as int);
            assert(v[i as int] == paths@[i as int]@);
        }
        match family_in(paths[i].as_str()) {
            Some(x) => {
                proof {
                    assert(views(out@.push(x)) =~= views(out@).push(x@));
                }
                out.push(x);
            },
            None => {},
        }
        i += 1;
    }
    proof {
        assert(v.take(paths@.len() as int) =~= v);
    }
    sort_strings(out)
}

// ---------------------------------------------------------------------------
// Files of a directory, wiki pages
// ---------------------------------------------------------------------------

/// `dir` without its trailing `/`s, then one `/`.
pub open spec fn dir_prefix(dir: Seq<char>) -> Seq<char> {
    trim_end_by(dir, set_pred(seq!['/'])).push('/')
}

/// A path directly under the directory `prefix` (no further `/`) ending in
/// `ext`.
pub open spec fn directly_in(p: Seq<char>, prefix: Seq<char>, ext: Seq<char>) -> bool {
    &&& starts_with(p, prefix)
    &&& ends_with(p, ext)
    &&& !p.subrange(prefix.len() as int, p.len() as int).contains('/')
}

pub open spec fn in_dir_fn(prefix: Seq<char>, ext: Seq<char>) -> spec_fn(Seq<char>) -> Option<Seq<char>> {
    |p: Seq<char>| if directly_in(p, prefix, ext) { Some(p) } else { None }
}

fn directly_in_exec(p: &str, prefix: &[char], ext: &[char]) -> (r: bool)
    ensures
        r == directly_in(p@, prefix@, ext@),
{
    let s = chars_of(p);
    let n = s.len();
    proof {
        assert(s@.subrange(0, n as int) =~= s@);
    }
    if !at_in(&s, 0, n, 0, prefix) || !ends_with_in(&s, 0, n, ext) {
        return false;
    }
    proof {
        lemma_find_char_contains(s@.subrange(prefix@.len() as int, n as int), '/');
    }
    find_char_in(&s, prefix.len(), n, '/').is_none()
}

/// Files directly under `dir` ending in `ext`, sorted ascending.
pub fn files_in(paths: &[String], dir: &str, ext: &str) -> (r: Vec<String>)
    ensures
        sorted_by(views(r@), str_le()),
        views(r@).to_multiset() == filter_map(
            views(paths@),
            in_dir_fn(dir_prefix(dir@), ext@),
        ).to_multiset(),
{
    let d = chars_of(dir);
    let slash = ['/'];
    let e = skip_set_back(&d, 0, d.len(), &slash);
    proof {
        assert(slash@ =~= seq!['/']);
        assert(d@.subrange(0, d@.len() as int) =~= d@);
    }
    let mut prefix = slice_vec(&d, 0, e);
    prefix.push('/');
    let x = chars_of(ext);
    let ghost f = in_dir_fn(dir_prefix(dir@), ext@);
    let ghost v = views(paths@);
    let mut out: Vec<String> = Vec::new();
    let mut i: usize = 0;
    proof {
        assert(views(out@) =~= filter_map(v.take(0), f));
    }
    while i < paths.len()
        invariant
            i <= paths@.len(),
            v == views(paths@),
            prefix@ == dir_prefix(dir@),
            x@ == ext@,
            f == in_dir_fn(dir_prefix(dir@), ext@),
            views(out@) == filter_map(v.take(i as int), f),
        decreases paths.len() - i,
    {
        proof {
            lemma_filter_map_step(v, f, i as int);
            assert(v[i as int] == paths@[i as int]@);
        }
        if directly_in_exec(paths[i].as_str(), &prefix, &x) {
            let c = owned(paths[i].as_str());
            proof {
                assert(views(out@.push(c)) =~= views(out@).push(c@));
            }
            out.push(c);
        }
        i += 1;
    }
    proof {
        assert(v.take(paths@.len() as int) =~= v);
    }
    sort_strings(out)
}

/// A wiki page other than the index.
pub open spec fn wiki_page_of(p: Seq<char>) -> Option<Seq<char>> {
    if starts_with(p, "wiki/"@) && ends_with(p, ".md"@) && p != "wiki/index.md"@ {
        Some(p)
    } else {
        None
    }
}

pub open spec fn wiki_fn() -> spec_fn(Seq<char>) -> Option<Seq<char>> {
    |p: Seq<char>| wiki_page_of(p)
}

/// Every wiki page path except the index, sorted.
pub fn wiki_pages(paths: &[String]) -> (r: Vec<String>)
    ensures
        sorted_by(views(r@), str_le()),
        views(r@).to_multiset() == filter_map(views(paths@), wiki_fn()).to_multiset(),
{
    let pre = chars_of("wiki/");
    let ext = chars_of(".md");
    let ghost v = views(paths@);
    let mut out: Vec<String> = Vec::new();
    let mut i: usize = 0;
    proof {
        assert(views(out@) =~= filter_map(v.take(0), wiki_fn()));
    }
    while i < paths.len()
        invariant
            i <= paths@.len(),
            v == views(paths@),
            pre@ == "wiki/"@,
            ext@ == ".md"@,
            views(out@) == filter_map(v.take(i as int), wiki_fn()),
        decreases paths.len() - i,
    {
        proof {
            lemma_filter_map_step(v, wiki_fn(), i as int);
            assert(v[i as int] == paths@[i as int]@);
        }
        let s = chars_of(paths[i].as_str());
        let n = s.len();
        proof {
            assert(s@.subrange(0, n as int) =~= s@);
        }
        if at_in(&s, 0, n, 0, &pre) && ends_with_in(&s, 0, n, &ext) && !str_eq(
            paths[i].as_str(),
            "wiki/index.md",
        ) {
            let c = owned(paths[i].as_str());
            proof {
                assert(views(out@.push(c)) =~= views(out@).push(c@));
            }
            out.push(c);
        }
        i += 1;
    }
    proof {
        assert(v.take(paths@.len() as int) =~= v);
    }
    sort_strings(out)
}

// ---------------------------------------------------------------------------
// Run manifests
// ---------------------------------------------------------------------------

/// `ops/runs/*.toml`.
pub open spec fn manifest_of(p: Seq<char>) -> Option<Seq<char>> {
    if starts_with(p, "ops/runs/"@) && ends_with(p, ".toml"@) {
        Some(p)
    } else {
        None
    }
}

pub open spec fn manifest_fn() -> spec_fn(Seq<char>) -> Option<Seq<char>> {
    |p: Seq<char>| manifest_of(p)
}

/// The manifest's name: the path without its leading `ops/runs/`s and
/// trailing `.toml`s.
pub open spec fn run_stem(p: Seq<char>) -> Seq<char> {
    trim_suffix_all(trim_prefix_all(p, "ops/runs/"@), ".toml"@)
}

/// What manifests are ordered by: the key of the manifest's name.
pub open spec fn run_key(p: Seq<char>) -> (Seq<char>, u32) {
    stem_key(run_stem(p))
}

/// Keys in tuple order: by date, then by run number.
pub open spec fn key_le(a: (Seq<char>, u32), b: (Seq<char>, u32)) -> bool {
    lex_lt(a.0, b.0) || (a.0 == b.0 && a.1 <= b.1)
}

pub open spec fn after_key(s: Seq<Seq<char>>, x: Seq<char>) -> spec_fn(int) -> bool {
    |k: int| !key_le(run_key(s[k]), run_key(x))
}

/// `x` placed after every element of `s` whose key is not above its own.
pub open spec fn insert_stable(s: Seq<Seq<char>>, x: Seq<char>) -> Seq<Seq<char>> {
    match first_index(s.len() as int, after_key(s, x)) {
        Some(k) => s.insert(k, x),
        None => s.push(x),
    }
}

/// Stable sort by `run_key`: insertion, each element after its equals.
pub open spec fn stable_sort(s: Seq<Seq<char>>) -> Seq<Seq<char>>
    decreases s.len(),
{
    if s.len() == 0 {
        Seq::empty()
    } else {
        insert_stable(stable_sort(s.drop_last()), s.last())
    }
}

/// The manifests, newest first: stably sorted by key, then reversed.
pub open spec fn run_paths_of(paths: Seq<Seq<char>>) -> Seq<Seq<char>> {
    stable_sort(filter_map(paths, manifest_fn())).reverse()
}

fn run_key_exec(p: &[char]) -> (r: (Vec<char>, u32))
    ensures
        r.0@ == run_key(p@).0,
        r.1 == run_key(p@).1,
{
    let n = p.len();
    proof {
        assert(p@.subrange(0, n as int) =~= p@);
    }
    let pre = chars_of("ops/runs/");
    let suf = chars_of(".toml");
    let a = trim_prefix_all_in(p, 0, n, &pre);
    let b = trim_suffix_all_in(p, a, n, &suf);
    stem_key_window(p, a, b)
}

fn key_le_exec(a: &(Vec<char>, u32), b: &(Vec<char>, u32)) -> (r: bool)
    ensures
        r == key_le((a.0@, a.1), (b.0@, b.1)),
{
    proof {
        assert(a.0@.subrange(0, a.0@.len() as int) =~= a.0@);
    }
    if window_eq(&a.0, 0, a.0.len(), &b.0) {
        a.1 <= b.1
    } else {
        lex_le_exec(&a.0, &b.0)
    }
}

/// The manifests among `paths`, in their listing order.
fn manifests(paths: &[String]) -> (r: Vec<String>)
    ensures
        views(r@) == filter_map(views(paths@), manifest_fn()),
{
    let pre = chars_of("ops/runs/");
    let ext = chars_of(".toml");
    let ghost v = views(paths@);
    let mut out: Vec<String> = Vec::new();
    let mut i: usize = 0;
    proof {
        assert(views(out@) =~= filter_map(v.take(0), manifest_fn()));
    }
    while i < paths.len()
        invariant
            i <= paths@.len(),
            v == views(paths@),
            pre@ == "ops/runs/"@,
            ext@ == ".toml"@,
            views(out@) == filter_map(v.take(i as int), manifest_fn()),
        decreases paths.len() - i,
    {
        proof {
            lemma_filter_map_step(v, manifest_fn(), i as int);
            assert(v[i as int] == paths@[i as int]@);
        }
        let s = chars_of(paths[i].as_str());
        let n = s.len();
        proof {
            assert(s@.subrange(0, n as int) =~= s@);
        }
        if at_in(&s, 0, n, 0, &pre) && ends_with_in(&s, 0, n, &ext) {
            let c = owned(paths[i].as_str());
            proof {
                assert(views(out@.push(c)) =~= views(out@).push(c@));
            }
            out.push(c);
        }
        i += 1;
    }
    proof {
        assert(v.take(paths@.len() as int) =~= v);
    }
    out
}

pub open spec fn keys_match(s: Seq<Seq<char>>, keys: Seq<(Vec<char>, u32)>) -> bool {
    &&& keys.len() == s.len()
    &&& forall|j: int| 0 <= j < s.len() ==> (#[trigger] keys[j]).0@ == run_key(s[j]).0 && keys[j].1 == run_key(s[j]).1
}

/// Where `x` goes in `sorted`: before the first element whose key is above
/// its own.
fn stable_pos(sorted: &Vec<String>, keys: &Vec<(Vec<char>, u32)>, xk: &(Vec<char>, u32), x: Ghost<Seq<char>>) -> (k: usize)
    requires
        keys_match(views(sorted@), keys@),
        xk.0@ == run_key(x@).0,
        xk.1 == run_key(x@).1,
    ensures
        k <= sorted@.len(),
        insert_stable(views(sorted@), x@) == views(sorted@).insert(k as int, x@),
{
    let ghost s = views(sorted@);
    let ghost p = after_key(s, x@);
    let mut k: usize = 0;
    while k < keys.len()
        invariant
            k <= keys@.len(),
            keys_match(s, keys@),
            s == views(sorted@),
            p == after_key(s, x@),
            xk.0@ == run_key(x@).0,
            xk.1 == run_key(x@).1,
            forall|j: int| 0 <= j < k ==> !#[trigger] p(j),
        decreases keys.len() - k,
    {
        let ghost kk = keys@[k as int];
        if !key_le_exec(&keys[k], xk) {
            proof {
                assert(p(k as int));
                lemma_first_index_is(s.len() as int, p, k as int);
            }
            return k;
        }
        k += 1;
    }
    proof {
        lemma_first_index_none(s.len() as int, p);
        assert(s.insert(s.len() as int, x@) =~= s.push(x@));
    }
    k
}

proof fn lemma_key_total(a: (Seq<char>, u32), b: (Seq<char>, u32))
    ensures
        key_le(a, b) || key_le(b, a),
{
    lemma_lex_total(a.0, b.0);
}

proof fn lemma_key_trans(a: (Seq<char>, u32), b: (Seq<char>, u32), c: (Seq<char>, u32))
    requires
        key_le(a, b),
        key_le(b, c),
    ensures
        key_le(a, c),
{
    if lex_lt(a.0, b.0) && lex_lt(b.0, c.0) {
        lemma_lex_trans(a.0, b.0, c.0);
        if a.0 == c.0 {
            lemma_lex_antisym(a.0, b.0);
        }
    }
}

/// Manifests in order of their keys, earliest first.
pub open spec fn keys_sorted(s: Seq<Seq<char>>) -> bool {
    forall|i: int, j: int| 0 <= i < j < s.len() ==> key_le(run_key(#[trigger] s[i]), run_key(#[trigger] s[j]))
}

proof fn lemma_insert_stable_sorted(s: Seq<Seq<char>>, x: Seq<char>)
    requires
        keys_sorted(s),
    ensures
        keys_sorted(insert_stable(s, x)),
{
    let p = after_key(s, x);
    lemma_first_index(s.len() as int, p);
    match first_index(s.len() as int, p) {
        Some(k) => {
            let t = s.insert(k, x);
            assert(key_le(run_key(x), run_key(s[k]))) by {
                lemma_key_total(run_key(s[k]), run_key(x));
            }
            assert forall|i: int, j: int| 0 <= i < j < t.len() implies key_le(
                run_key(#[trigger] t[i]),
                run_key(#[trigger] t[j]),
            ) by {
                if i < k && j < k {
                    assert(t[i] == s[i] && t[j] == s[j]);
                } else if i < k && j == k {
                    assert(t[i] == s[i] && t[j] == x);
                    assert(!p(i));
                } else if i < k {
                    assert(t[i] == s[i] && t[j] == s[j - 1]);
                } else if i == k {
                    assert(t[i] == x && t[j] == s[j - 1]);
                    if j - 1 > k {
                        lemma_key_trans(run_key(x), run_key(s[k]), run_key(s[j - 1]));
                    }
                } else {
                    assert(t[i] == s[i - 1] && t[j] == s[j - 1]);
                }
            }
        },
        None => {
            let t = s.push(x);
            assert forall|i: int, j: int| 0 <= i < j < t.len() implies key_le(
                run_key(#[trigger] t[i]),
                run_key(#[trigger] t[j]),
            ) by {
                if j < s.len() {
                    assert(t[i] == s[i] && t[j] == s[j]);
                } else {
                    assert(t[i] == s[i] && t[j] == x);
                    assert(!p(i));
                }
            }
        },
    }
}

proof fn lemma_stable_sort_sorted(s: Seq<Seq<char>>)
    ensures
        keys_sorted(stable_sort(s)),
    decreases s.len(),
{
    if s.len() > 0 {
        lemma_stable_sort_sorted(s.drop_last());
        lemma_insert_stable_sorted(stable_sort(s.drop_last()), s.last());
    }
}

/// Newest first: of any two manifests `run_paths` lists, the earlier one's
/// key is not below the later one's.
pub proof fn law_run_paths_newest_first(paths: Seq<Seq<char>>)
    ensures
        forall|i: int, j: int|
            0 <= i < j < run_paths_of(paths).len() ==> key_le(
                run_key(#[trigger] run_paths_of(paths)[j]),
                run_key(#[trigger] run_paths_of(paths)[i]),
            ),
{
    let s = stable_sort(filter_map(paths, manifest_fn()));
    lemma_stable_sort_sorted(filter_map(paths, manifest_fn()));
    let r = run_paths_of(paths);
    assert forall|i: int, j: int| 0 <= i < j < r.len() implies key_le(
        run_key(#[trigger] r[j]),
        run_key(#[trigger] r[i]),
    ) by {
        assert(r[i] == s[s.len() - 1 - i]);
        assert(r[j] == s[s.len() - 1 - j]);
    }
}

/// `ops/runs/*.toml` manifests, NEWEST FIRST. `<date>.toml` is run 1 of the
/// day, `<date>-N.toml` run N.
pub fn run_paths(paths: &[String]) -> (r: Vec<String>)
    ensures
        views(r@) == run_paths_of(views(paths@)),
{
    let m = manifests(paths);
    let ghost mv = views(m@);
    let mut sorted: Vec<String> = Vec::new();
    let mut keys: Vec<(Vec<char>, u32)> = Vec::new();
    let mut i: usize = 0;
    proof {
        assert(views(sorted@) =~= stable_sort(mv.take(0)));
    }
    while i < m.len()
        invariant
            i <= m@.len(),
            mv == views(m@),
            views(sorted@) == stable_sort(mv.take(i as int)),
            keys_match(views(sorted@), keys@),
        decreases m.len() - i,
    {
        let x = owned(m[i].as_str());
        let xs = chars_of(m[i].as_str());
        let xk = run_key_exec(&xs);
        proof {
            assert(mv[i as int] == x@);
            assert(mv.take(i + 1).drop_last() =~= mv.take(i as int));
            assert(mv.take(i + 1).last() == x@);
        }
        let k = stable_pos(&sorted, &keys, &xk, Ghost(x@));
        let ghost old_s = views(sorted@);
        let ghost old_k = keys@;
        sorted.insert(k, x);
        keys.insert(k, xk);
        proof {
            assert(views(sorted@) =~= old_s.insert(k as int, x@));
            assert forall|j: int| 0 <= j < views(sorted@).len() implies (#[trigger] keys@[j]).0@
                == run_key(views(sorted@)[j]).0 && keys@[j].1 == run_key(views(sorted@)[j]).1 by {
                if j < k {
                    assert(keys@[j] == old_k[j]);
                } else if j > k {
                    assert(keys@[j] == old_k[j - 1]);
                }
            }
        }
        i += 1;
    }
    proof {
        assert(mv.take(m@.len() as int) =~= mv);
    }
    let ghost sv = views(sorted@);
    let total = sorted.len();
    let mut out: Vec<String> = Vec::new();
    while sorted.len() > 0
        invariant
            total == sv.len(),
            sorted@.len() <= total,
            views(sorted@) == sv.take(sorted@.len() as int),
            out@.len() == total - sorted@.len(),
            forall|j: int| 0 <= j < out@.len() ==> (#[trigger] out@[j])@ == sv[total - 1 - j],
        decreases sorted.len(),
    {
        let ghost before = views(sorted@);
        let last = sorted.pop().unwrap();
        proof {
            assert(last@ == before.last());
            assert(views(sorted@) =~= sv.take(sorted@.len() as int));
        }
        out.push(last);
    }
    proof {
        assert(views(out@) =~= sv.reverse());
    }
    out
}

// ---------------------------------------------------------------------------
// Market slugs
// ---------------------------------------------------------------------------

/// The asset a market slug belongs to: the token right after `will-`
/// (`will-wti-reach-130-in-july-2026` → `wti`); the whole slug when there is
/// no such token.
pub open spec fn slug_asset(slug: Seq<char>) -> Seq<char> {
    match strip_prefix(slug, "will-"@) {
        Some(body) => {
            let t = split_char(body, '-')[0];
            if t.len() > 0 {
                t
            } else {
                slug
            }
        },
        None => slug,
    }
}

/// The asset a market slug belongs to, for grouping predictions into boards.
pub fn asset_of(slug: &str) -> (r: String)
    ensures
        r@ == slug_asset(slug@),
{
    let s = chars_of(slug);
    let n = s.len();
    proof {
        assert(s@.subrange(0, n as int) =~= s@);
    }
    let pre = chars_of("will-");
    match strip_prefix_in(&s, 0, n, &pre) {
        Some(a) => {
            let ps = split_in(&s, a, n, '-');
            proof {
                assert(wins(s@, ps@)[0] == win(s@, ps@[0]));
            }
            let (x, y) = ps[0];
            if x < y {
                string_of(&s, x, y)
            } else {
                owned(slug)
            }
        },
        None => owned(slug),
    }
}

/// A piece that reads as a price level: starts with a digit, at most six
/// bytes long.
pub open spec fn level_at(parts: Seq<Seq<char>>) -> spec_fn(int) -> bool {
    |i: int| parts[i].len() > 0 && is_digit(parts[i][0]) && byte_len(parts[i]) <= 6
}

/// Short label for a market slug in a dense chart axis: the asset, then the
/// first price level in the slug (`will-spy-dip-to-715-by-july-20-2026` →
/// `spy 715`).
pub open spec fn short_market_of(slug: Seq<char>) -> Seq<char> {
    let body = match strip_prefix(slug, "will-"@) {
        Some(b) => b,
        None => slug,
    };
    let parts = split_char(body, '-');
    match first_index(parts.len() as int, level_at(parts)) {
        Some(i) => parts[0] + " "@ + parts[i],
        None => parts[0],
    }
}

/// Short human label for a market slug.
pub fn short_market(slug: &str) -> (r: String)
    ensures
        r@ == short_market_of(slug@),
{
    let s = chars_of(slug);
    let n = s.len();
    proof {
        assert(s@.subrange(0, n as int) =~= s@);
        reveal_strlit(" ");
    }
    let pre = chars_of("will-");
    let a = match strip_prefix_in(&s, 0, n, &pre) {
        Some(a) => a,
        None => 0,
    };
    let ps = split_in(&s, a, n, '-');
    let ghost parts = wins(s@, ps@);
    let ghost p = level_at(parts);
    proof {
        assert(parts[0] == win(s@, ps@[0]));
    }
    let mut out = string_of(&s, ps[0].0, ps[0].1);
    let mut i: usize = 0;
    while i < ps.len()
        invariant
            short_market_of(slug@) == match first_index(parts.len() as int, p) {
                Some(k) => parts[0] + " "@ + parts[k],
                None => parts[0],
            },
            i <= ps@.len(),
            windows_ok(s@, ps@),
            parts == wins(s@, ps@),
            p == level_at(parts),
            out@ == parts[0],
            forall|j: int| 0 <= j < i ==> !#[trigger] p(j),
        decreases ps.len() - i,
    {
        let (x, y) = ps[i];
        proof {
            assert(parts[i as int] == win(s@, ps@[i as int]));
            assert(ps@[i as int].0 <= ps@[i as int].1 <= s@.len());
        }
        if x < y && s[x] <= '9' && s[x] >= '0' && byte_len_capped(&s, x, y, 6) <= 6 {
            proof {
                assert(p(i as int));
                lemma_first_index_is(parts.len() as int, p, i as int);
                reveal_strlit(" ");
            }
            push_char(&mut out, ' ');
            push_window(&mut out, &s, x, y);
            proof {
                assert(out@ =~= parts[0] + " "@ + parts[i as int]);
            }
            return out;
        }
        proof {
            assert(!p(i as int));
        }
        i += 1;
    }
    proof {
        lemma_first_index_none(parts.len() as int, p);
    }
    out
}

// ---------------------------------------------------------------------------
// Path safety (user-supplied slugs / families / variants / wiki paths)
// ---------------------------------------------------------------------------

pub open spec fn segment_char(c: char) -> bool {
    is_alnum(c) || c == '-' || c == '_' || c == '.'
}

pub open spec fn path_char(c: char) -> bool {
    segment_char(c) || c == '/'
}

/// A single path segment that may be interpolated into a repo path: 1 to
/// 128 bytes of ASCII letters, digits, `-`, `_` and `.`, never `..`, and not
/// the `_template` scaffold.
pub open spec fn is_safe_segment(s: Seq<char>) -> bool {
    &&& s.len() > 0
    &&& byte_len(s) <= 128
    &&& s != "_template"@
    &&& forall|j: int| 0 <= j < s.len() ==> segment_char(#[trigger] s[j])
    &&& !contains_seq(s, ".."@)
}

/// A relative path under a known directory: 1 to 200 bytes of ASCII
/// letters, digits, `-`, `_`, `.` and `/`, never `..`, not starting at `/`.
pub open spec fn is_safe_path(s: Seq<char>) -> bool {
    &&& s.len() > 0
    &&& byte_len(s) <= 200
    &&& !contains_seq(s, ".."@)
    &&& s[0] != '/'
    &&& forall|j: int| 0 <= j < s.len() ==> path_char(#[trigger] s[j])
}

/// Whether every character of `s` satisfies the segment rule (or, with
/// `slash`, the path rule).
fn all_chars(s: &[char], slash: bool) -> (r: bool)
    ensures
        r == forall|j: int| 0 <= j < s@.len() ==> (if slash {
            path_char(#[trigger] s@[j])
        } else {
            segment_char(s@[j])
        }),
{
    let mut i: usize = 0;
    while i < s.len()
        invariant
            i <= s@.len(),
            forall|j: int| 0 <= j < i ==> (if slash {
                path_char(#[trigger] s@[j])
            } else {
                segment_char(s@[j])
            }),
        decreases s.len() - i,
    {
        let c = s[i];
        let ok = alnum(c) || c == '-' || c == '_' || c == '.' || (slash && c == '/');
        if !ok {
            return false;
        }
        i += 1;
    }
    true
}

/// A single path segment we are willing to interpolate into a repo path. A
/// safe segment never names another directory or climbs out of its own.
pub fn safe_segment(s: &str) -> (r: bool)
    ensures
        r == is_safe_segment(s@),
        r ==> !s@.contains('/') && !contains_seq(s@, ".."@),
{
    let c = chars_of(s);
    let n = c.len();
    proof {
        assert(c@.subrange(0, n as int) =~= c@);
    }
    if n == 0 || byte_len_capped(&c, 0, n, 128) > 128 || str_eq(s, "_template") {
        return false;
    }
    if !all_chars(&c, false) {
        return false;
    }
    let dots = chars_of("..");
    find_in(&c, 0, n, &dots).is_none()
}

/// A relative path (may contain `/`) under a known directory. A safe path
/// never climbs out of that directory and never starts at the root.
pub fn safe_path(s: &str) -> (r: bool)
    ensures
        r == is_safe_path(s@),
        r ==> !contains_seq(s@, ".."@) && !starts_with(s@, "/"@),
{
    let c = chars_of(s);
    let n = c.len();
    proof {
        assert(c@.subrange(0, n as int) =~= c@);
        reveal_strlit("/");
    }
    if n == 0 || byte_len_capped(&c, 0, n, 200) > 200 {
        return false;
    }
    let dots = chars_of("..");
    if find_in(&c, 0, n, &dots).is_some() || c[0] == '/' {
        return false;
    }
    all_chars(&c, true)
}

} // verus!
