//! Ordering of strings the way `String: Ord` orders them (lexicographically by
//! code point, which is the byte order of UTF-8), and insertion sorts whose
//! results are the unique sorted arrangement of their input.
use vstd::prelude::*;
use vstd::relations::{sorted_by, total_ordering};

use crate::text::chars_of;

verus! {

/// `a <= b` for strings: lexicographic by code point.
pub open spec fn lex_le(a: Seq<char>, b: Seq<char>) -> bool
    decreases a.len(),
{
    if a.len() == 0 {
        true
    } else if b.len() == 0 {
        false
    } else if (a[0] as u32) < (b[0] as u32) {
        true
    } else if (a[0] as u32) > (b[0] as u32) {
        false
    } else {
        lex_le(a.drop_first(), b.drop_first())
    }
}

pub open spec fn lex_lt(a: Seq<char>, b: Seq<char>) -> bool {
    lex_le(a, b) && a != b
}

pub proof fn lemma_lex_refl(a: Seq<char>)
    ensures
        lex_le(a, a),
    decreases a.len(),
{
    if a.len() > 0 {
        lemma_lex_refl(a.drop_first());
    }
}

pub proof fn lemma_lex_total(a: Seq<char>, b: Seq<char>)
    ensures
        lex_le(a, b) || lex_le(b, a),
    decreases a.len(),
{
    if a.len() > 0 && b.len() > 0 && (a[0] as u32) == (b[0] as u32) {
        lemma_lex_total(a.drop_first(), b.drop_first());
    }
}

pub proof fn lemma_lex_antisym(a: Seq<char>, b: Seq<char>)
    requires
        lex_le(a, b),
        lex_le(b, a),
    ensures
        a == b,
    decreases a.len(),
{
    if a.len() > 0 && b.len() > 0 {
        assert((a[0] as u32) == (b[0] as u32));
        vstd::utf8::char_u32_cast(a[0], a[0] as u32);
        vstd::utf8::char_u32_cast(b[0], b[0] as u32);
        lemma_lex_antisym(a.drop_first(), b.drop_first());
        assert(a =~= seq![a[0]] + a.drop_first());
        assert(b =~= seq![b[0]] + b.drop_first());
    } else {
        assert(a =~= b);
    }
}

pub proof fn lemma_lex_trans(a: Seq<char>, b: Seq<char>, c: Seq<char>)
    requires
        lex_le(a, b),
        lex_le(b, c),
    ensures
        lex_le(a, c),
    decreases a.len(),
{
    if a.len() > 0 && b.len() > 0 && c.len() > 0 && a[0] == b[0] && b[0] == c[0] {
        lemma_lex_trans(a.drop_first(), b.drop_first(), c.drop_first());
    } else if a.len() > 0 && b.len() > 0 && c.len() > 0 {
        if (a[0] as u32) == (b[0] as u32) {
            vstd::utf8::char_u32_cast(a[0], a[0] as u32);
            vstd::utf8::char_u32_cast(b[0], b[0] as u32);
        }
        if (b[0] as u32) == (c[0] as u32) {
            vstd::utf8::char_u32_cast(b[0], b[0] as u32);
            vstd::utf8::char_u32_cast(c[0], c[0] as u32);
        }
    }
}

pub open spec fn str_le() -> spec_fn(Seq<char>, Seq<char>) -> bool {
    |a: Seq<char>, b: Seq<char>| lex_le(a, b)
}

pub proof fn lemma_str_le_total()
    ensures
        total_ordering(str_le()),
{
    assert forall|a: Seq<char>| #[trigger] str_le()(a, a) by {
        lemma_lex_refl(a);
    }
    assert forall|a: Seq<char>, b: Seq<char>| #[trigger]
        str_le()(a, b) && #[trigger] str_le()(b, a) implies a == b by {
        lemma_lex_antisym(a, b);
    }
    assert forall|a: Seq<char>, b: Seq<char>, c: Seq<char>| #[trigger]
        str_le()(a, b) && #[trigger] str_le()(b, c) implies str_le()(a, c) by {
        lemma_lex_trans(a, b, c);
    }
    assert forall|a: Seq<char>, b: Seq<char>| #[trigger]
        str_le()(a, b) || #[trigger] str_le()(b, a) by {
        lemma_lex_total(a, b);
    }
}

/// `(a.0, a.1) <= (b.0, b.1)` as tuples of strings compare.
pub open spec fn pair_le(a: (Seq<char>, Seq<char>), b: (Seq<char>, Seq<char>)) -> bool {
    lex_lt(a.0, b.0) || (a.0 == b.0 && lex_le(a.1, b.1))
}

pub open spec fn pairs_le() -> spec_fn((Seq<char>, Seq<char>), (Seq<char>, Seq<char>)) -> bool {
    |a: (Seq<char>, Seq<char>), b: (Seq<char>, Seq<char>)| pair_le(a, b)
}

pub proof fn lemma_pair_le_total()
    ensures
        total_ordering(pairs_le()),
{
    assert forall|a: (Seq<char>, Seq<char>)| #[trigger] pairs_le()(a, a) by {
        lemma_lex_refl(a.1);
    }
    assert forall|a: (Seq<char>, Seq<char>), b: (Seq<char>, Seq<char>)| #[trigger]
        pairs_le()(a, b) && #[trigger] pairs_le()(b, a) implies a == b by {
        if a.0 == b.0 {
            lemma_lex_antisym(a.1, b.1);
        } else {
            lemma_lex_antisym(a.0, b.0);
        }
    }
    assert forall|a: (Seq<char>, Seq<char>), b: (Seq<char>, Seq<char>), c: (Seq<char>, Seq<char>)|
        #[trigger] pairs_le()(a, b) && #[trigger] pairs_le()(b, c) implies pairs_le()(a, c) by {
        if a.0 == b.0 && b.0 == c.0 {
            lemma_lex_trans(a.1, b.1, c.1);
        } else if a.0 == b.0 {
        } else if b.0 == c.0 {
        } else {
            lemma_lex_trans(a.0, b.0, c.0);
            if a.0 == c.0 {
                lemma_lex_antisym(a.0, b.0);
            }
        }
    }
    assert forall|a: (Seq<char>, Seq<char>), b: (Seq<char>, Seq<char>)| #[trigger]
        pairs_le()(a, b) || #[trigger] pairs_le()(b, a) by {
        lemma_lex_total(a.0, b.0);
        lemma_lex_total(a.1, b.1);
    }
}

proof fn lemma_lex_le_skip(a: Seq<char>, b: Seq<char>, i: int)
    requires
        0 <= i <= a.len(),
        i <= b.len(),
        forall|j: int| 0 <= j < i ==> a[j] == b[j],
    ensures
        lex_le(a, b) == lex_le(a.subrange(i, a.len() as int), b.subrange(i, b.len() as int)),
    decreases i,
{
    if i > 0 {
        assert(a.drop_first().subrange(i - 1, a.len() - 1) =~= a.subrange(i, a.len() as int));
        assert(b.drop_first().subrange(i - 1, b.len() - 1) =~= b.subrange(i, b.len() as int));
        lemma_lex_le_skip(a.drop_first(), b.drop_first(), i - 1);
    } else {
        assert(a.subrange(0, a.len() as int) =~= a);
        assert(b.subrange(0, b.len() as int) =~= b);
    }
}

/// `a <= b` on character slices.
pub fn lex_le_exec(a: &[char], b: &[char]) -> (r: bool)
    ensures
        r == lex_le(a@, b@),
{
    let mut i: usize = 0;
    while i < a.len() && i < b.len() && a[i] == b[i]
        invariant
            i <= a@.len(),
            i <= b@.len(),
            forall|j: int| 0 <= j < i ==> a@[j] == b@[j],
        decreases a.len() - i,
    {
        i += 1;
    }
    proof {
        lemma_lex_le_skip(a@, b@, i as int);
        let x = a@.subrange(i as int, a@.len() as int);
        let y = b@.subrange(i as int, b@.len() as int);
        if i < a@.len() && i < b@.len() {
            assert(x[0] == a@[i as int]);
            assert(y[0] == b@[i as int]);
            if (a@[i as int] as u32) == (b@[i as int] as u32) {
                vstd::utf8::char_u32_cast(a@[i as int], a@[i as int] as u32);
                vstd::utf8::char_u32_cast(b@[i as int], b@[i as int] as u32);
            }
        }
    }
    if i == a.len() {
        true
    } else if i == b.len() {
        false
    } else {
        (a[i] as u32) < (b[i] as u32)
    }
}

/// `a <= b` on strings.
pub fn str_le_exec(a: &str, b: &str) -> (r: bool)
    ensures
        r == lex_le(a@, b@),
{
    let x = chars_of(a);
    let y = chars_of(b);
    lex_le_exec(&x, &y)
}

pub proof fn lemma_insert_multiset<A>(s: Seq<A>, k: int, x: A)
    requires
        0 <= k <= s.len(),
    ensures
        s.insert(k, x).to_multiset() =~= s.to_multiset().insert(x),
{
    broadcast use vstd::multiset::group_multiset_axioms;
    broadcast use vstd::seq_lib::group_to_multiset_ensures;

    let t = s.insert(k, x);
    assert(t.remove(k) =~= s);
    assert(t[k] == x);
    assert(t.contains(x));
}

pub open spec fn views(v: Seq<String>) -> Seq<Seq<char>> {
    v.map_values(|s: String| s@)
}

pub open spec fn pair_views(v: Seq<(String, String)>) -> Seq<(Seq<char>, Seq<char>)> {
    v.map_values(|p: (String, String)| (p.0@, p.1@))
}

/// The first position of `out` holding a string greater than `x`.
fn insert_pos(out: &Vec<String>, x: &String) -> (k: usize)
    ensures
        k <= out@.len(),
        forall|j: int| 0 <= j < k ==> lex_le(#[trigger] views(out@)[j], x@),
        k < out@.len() ==> !lex_le(views(out@)[k as int], x@),
{
    let xs = chars_of(x.as_str());
    let mut k: usize = 0;
    while k < out.len()
        invariant
            k <= out@.len(),
            xs@ == x@,
            forall|j: int| 0 <= j < k ==> lex_le(#[trigger] views(out@)[j], x@),
        decreases out.len() - k,
    {
        let ys = chars_of(out[k].as_str());
        if !lex_le_exec(&ys, &xs) {
            return k;
        }
        k += 1;
    }
    k
}

/// The first position of `out` holding a pair greater than `x`.
fn insert_pos_pair(out: &Vec<(String, String)>, x: &(String, String)) -> (k: usize)
    ensures
        k <= out@.len(),
        forall|j: int| 0 <= j < k ==> pair_le(#[trigger] pair_views(out@)[j], (x.0@, x.1@)),
        k < out@.len() ==> !pair_le(pair_views(out@)[k as int], (x.0@, x.1@)),
{
    let ghost xv = (x.0@, x.1@);
    let mut k: usize = 0;
    while k < out.len()
        invariant
            k <= out@.len(),
            xv == (x.0@, x.1@),
            forall|j: int| 0 <= j < k ==> pair_le(#[trigger] pair_views(out@)[j], xv),
        decreases out.len() - k,
    {
        let a0 = str_le_exec(out[k].0.as_str(), x.0.as_str());
        let b0 = str_le_exec(x.0.as_str(), out[k].0.as_str());
        let le1 = str_le_exec(out[k].1.as_str(), x.1.as_str());
        proof {
            let y = pair_views(out@)[k as int];
            if a0 && b0 {
                lemma_lex_antisym(y.0, xv.0);
            }
            lemma_lex_refl(y.0);
        }
        let le = (a0 && !b0) || (a0 && b0 && le1);
        if !le {
            return k;
        }
        k += 1;
    }
    k
}

/// The strings in ascending order.
pub fn sort_strings(v: Vec<String>) -> (r: Vec<String>)
    ensures
        sorted_by(views(r@), str_le()),
        views(r@).to_multiset() == views(v@).to_multiset(),
{
    let mut out: Vec<String> = Vec::new();
    let mut i: usize = 0;
    let ghost vv = views(v@);
    proof {
        assert(views(out@) =~= vv.take(0));
    }
    while i < v.len()
        invariant
            i <= v@.len(),
            vv == views(v@),
            sorted_by(views(out@), str_le()),
            views(out@).to_multiset() == vv.take(i as int).to_multiset(),
        decreases v.len() - i,
    {
        let x = v[i].clone();
        let k = insert_pos(&out, &x);
        let ghost before = views(out@);
        proof {
            lemma_str_le_total();
            if k < out@.len() {
                assert(!lex_le(before[k as int], x@));
                lemma_lex_total(before[k as int], x@);
                assert forall|j: int| k <= j < before.len() implies lex_le(x@, #[trigger] before[j]) by {
                    if j > k {
                        assert(str_le()(before[k as int], before[j]));
                        lemma_lex_trans(x@, before[k as int], before[j]);
                    }
                }
            }
        }
        out.insert(k, x);
        proof {
            assert(views(out@) =~= before.insert(k as int, x@));
            before.insert_ensures(k as int, x@);
            let nv = views(out@);
            assert forall|a: int, b: int| 0 <= a < b < nv.len() implies #[trigger] str_le()(
                nv[a],
                nv[b],
            ) by {
                if a < k && b < k {
                    assert(str_le()(before[a], before[b]));
                } else if a < k && b == k {
                } else if a < k {
                    assert(str_le()(before[a], before[b - 1]));
                } else if a == k {
                } else {
                    assert(str_le()(before[a - 1], before[b - 1]));
                }
            }
            lemma_insert_multiset(before, k as int, x@);
            assert(vv.take(i + 1) =~= vv.take(i as int).push(vv[i as int]));
            broadcast use vstd::seq_lib::group_to_multiset_ensures;
        }
        i += 1;
    }
    proof {
        assert(vv.take(v@.len() as int) =~= vv);
    }
    out
}

/// The pairs in ascending order, comparing first components, then second.
pub fn sort_pairs(v: Vec<(String, String)>) -> (r: Vec<(String, String)>)
    ensures
        sorted_by(pair_views(r@), pairs_le()),
        pair_views(r@).to_multiset() == pair_views(v@).to_multiset(),
{
    let mut out: Vec<(String, String)> = Vec::new();
    let mut i: usize = 0;
    let ghost vv = pair_views(v@);
    proof {
        assert(pair_views(out@) =~= vv.take(0));
    }
    while i < v.len()
        invariant
            i <= v@.len(),
            vv == pair_views(v@),
            sorted_by(pair_views(out@), pairs_le()),
            pair_views(out@).to_multiset() == vv.take(i as int).to_multiset(),
        decreases v.len() - i,
    {
        let x = (v[i].0.clone(), v[i].1.clone());
        let ghost xv = (x.0@, x.1@);
        let k = insert_pos_pair(&out, &x);
        let ghost before = pair_views(out@);
        proof {
            lemma_pair_le_total();
            if k < out@.len() {
                assert(!pair_le(before[k as int], xv));
                assert(pairs_le()(xv, before[k as int]) || pairs_le()(before[k as int], xv));
                assert forall|j: int| k <= j < before.len() implies pair_le(xv, #[trigger] before[j]) by {
                    if j > k {
                        assert(pairs_le()(before[k as int], before[j]));
                        assert(pairs_le()(xv, before[k as int]));
                    }
                }
            }
        }
        out.insert(k, x);
        proof {
            assert(pair_views(out@) =~= before.insert(k as int, xv));
            before.insert_ensures(k as int, xv);
            let nv = pair_views(out@);
            assert forall|a: int, b: int| 0 <= a < b < nv.len() implies #[trigger] pairs_le()(
                nv[a],
                nv[b],
            ) by {
                if a < k && b < k {
                    assert(pairs_le()(before[a], before[b]));
                } else if a < k && b == k {
                } else if a < k {
                    assert(pairs_le()(before[a], before[b - 1]));
                } else if a == k {
                } else {
                    assert(pairs_le()(before[a - 1], before[b - 1]));
                }
            }
            lemma_insert_multiset(before, k as int, xv);
            assert(vv.take(i + 1) =~= vv.take(i as int).push(vv[i as int]));
            broadcast use vstd::seq_lib::group_to_multiset_ensures;
        }
        i += 1;
    }
    proof {
        assert(vv.take(v@.len() as int) =~= vv);
    }
    out
}

} // verus!
