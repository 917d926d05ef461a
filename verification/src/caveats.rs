//! The "what this sample cannot tell us" list of a report: the caveats every
//! policy's result carries, with the ones that differ only in their numbers
//! collapsed into one bullet.
use vstd::prelude::*;

use crate::engine::{first_number, mask_digits, mask_fold, number_from};
use crate::signal::joined;
use crate::text::{owned, str_eq};

verus! {

/// A caveat's grouping key: its text with every number masked.
pub open spec fn key_of(note: Seq<char>) -> Seq<char> {
    mask_fold(note).0
}

/// `(policy, caveat)` pairs as text.
pub open spec fn pairs(v: Seq<(String, String)>) -> Seq<(Seq<char>, Seq<char>)> {
    v.map_values(|p: (String, String)| (p.0@, p.1@))
}

/// The grouping keys, in the order they are first seen.
pub open spec fn keys_seen(ns: Seq<(Seq<char>, Seq<char>)>) -> Seq<Seq<char>>
    decreases ns.len(),
{
    if ns.len() == 0 {
        Seq::empty()
    } else {
        let prev = keys_seen(ns.drop_last());
        let k = key_of(ns.last().1);
        if prev.contains(k) {
            prev
        } else {
            prev.push(k)
        }
    }
}

/// The pairs whose caveat has key `k`, in order.
pub open spec fn under(ns: Seq<(Seq<char>, Seq<char>)>, k: Seq<char>) -> Seq<
    (Seq<char>, Seq<char>),
>
    decreases ns.len(),
{
    if ns.len() == 0 {
        Seq::empty()
    } else {
        let prev = under(ns.drop_last(), k);
        if key_of(ns.last().1) == k {
            prev.push(ns.last())
        } else {
            prev
        }
    }
}

pub open spec fn all_same_text(es: Seq<(Seq<char>, Seq<char>)>) -> bool {
    forall|i: int| 0 <= i < es.len() ==> #[trigger] es[i].1 == es[0].1
}

pub open spec fn policies_of(es: Seq<(Seq<char>, Seq<char>)>) -> Seq<Seq<char>> {
    es.map_values(|e: (Seq<char>, Seq<char>)| e.0)
}

/// A policy with the first number of its caveat, or the policy alone.
pub open spec fn tagged(e: (Seq<char>, Seq<char>)) -> Seq<char> {
    match number_from(e.1, 0, Seq::empty()) {
        Some(v) => e.0 + " "@ + v,
        None => e.0,
    }
}

pub open spec fn tags_of(es: Seq<(Seq<char>, Seq<char>)>) -> Seq<Seq<char>> {
    es.map_values(|e: (Seq<char>, Seq<char>)| tagged(e))
}

pub open spec fn bullet(names: Seq<char>, text: Seq<char>) -> Seq<char> {
    "- **"@ + names + "** \u{2014} "@ + text + "\n"@
}

/// One bullet for one key. Identical caveats name their policies ("all
/// policies" when every row has it); differing ones show the first in full
/// and the rest by policy and number.
pub open spec fn block(es: Seq<(Seq<char>, Seq<char>)>, n_rows: nat) -> Seq<char> {
    if all_same_text(es) {
        let names = if es.len() == n_rows {
            "all policies"@
        } else {
            joined(policies_of(es))
        };
        bullet(names, es[0].1)
    } else {
        let rest = es.skip(1);
        if rest.len() == 0 {
            bullet(es[0].0, es[0].1)
        } else {
            bullet(es[0].0, es[0].1) + "  - same for: "@ + joined(tags_of(rest)) + "\n"@
        }
    }
}

pub open spec fn blocks(ns: Seq<(Seq<char>, Seq<char>)>, ks: Seq<Seq<char>>, n_rows: nat) -> Seq<
    char,
>
    decreases ks.len(),
{
    if ks.len() == 0 {
        Seq::empty()
    } else {
        blocks(ns, ks.drop_last(), n_rows) + block(under(ns, ks.last()), n_rows)
    }
}

/// The whole section under heading marks `h`.
pub open spec fn cannot_tell_text(ns: Seq<(Seq<char>, Seq<char>)>, n_rows: nat, h: Seq<char>) -> Seq<
    char,
> {
    h + " What this sample cannot tell us\n\n"@ + blocks(ns, keys_seen(ns), n_rows) + "\n"@
}

/// Appends `parts` joined by `, `.
fn push_joined(out: &mut String, parts: &Vec<String>)
    ensures
        final(out)@ == old(out)@ + joined(parts@.map_values(|s: String| s@)),
{
    let ghost ps = parts@.map_values(|s: String| s@);
    let ghost start = out@;
    let mut i: usize = 0;
    while i < parts.len()
        invariant
            i <= parts@.len(),
            ps == parts@.map_values(|s: String| s@),
            out@ == start + joined(ps.take(i as int)),
        decreases parts.len() - i,
    {
        proof {
            assert(ps.take(i + 1).drop_last() =~= ps.take(i as int));
            assert(ps.take(i + 1).last() == parts@[i as int]@);
        }
        if i > 0 {
            out.append(", ");
        }
        out.append(parts[i].as_str());
        proof {
            if i == 0 {
                assert(ps.take(1).len() == 1);
                assert(Seq::<char>::empty() + parts@[0]@ =~= parts@[0]@);
                assert(joined(ps.take(0)) =~= Seq::<char>::empty());
            }
        }
        i += 1;
    }
    proof {
        assert(ps.take(parts@.len() as int) =~= ps);
    }
}

/// Whether `k` is one of `keys`.
fn has_key(keys: &Vec<String>, k: &str) -> (r: bool)
    ensures
        r == keys@.map_values(|s: String| s@).contains(k@),
{
    let ghost ks = keys@.map_values(|s: String| s@);
    let mut i: usize = 0;
    while i < keys.len()
        invariant
            i <= keys@.len(),
            ks == keys@.map_values(|s: String| s@),
            forall|j: int| 0 <= j < i ==> ks[j] != k@,
        decreases keys.len() - i,
    {
        if str_eq(keys[i].as_str(), k) {
            proof {
                assert(ks[i as int] == k@);
            }
            return true;
        }
        i += 1;
    }
    false
}

/// The section of a report that lists what the sample cannot tell: `notes`
/// are `(policy, caveat)` pairs, row by row, and `n_rows` the number of
/// rows (policies) in the report.
pub fn cannot_tell(notes: &Vec<(String, String)>, n_rows: usize, h: &str) -> (r: String)
    ensures
        r@ == cannot_tell_text(pairs(notes@), n_rows as nat, h@),
{
    let ghost ns = pairs(notes@);
    // Grouping keys, first seen first.
    let mut masks: Vec<String> = Vec::new();
    let mut keys: Vec<String> = Vec::new();
    let mut i: usize = 0;
    while i < notes.len()
        invariant
            i <= notes@.len(),
            ns == pairs(notes@),
            masks@.len() == i,
            forall|j: int| 0 <= j < i ==> #[trigger] masks@[j]@ == key_of(ns[j].1),
            keys@.map_values(|s: String| s@) == keys_seen(ns.take(i as int)),
        decreases notes.len() - i,
    {
        let m = mask_digits(notes[i].1.as_str());
        proof {
            assert(ns.take(i + 1).drop_last() =~= ns.take(i as int));
            assert(ns.take(i + 1).last() == ns[i as int]);
            assert(ns[i as int].1 == notes@[i as int].1@);
        }
        if !has_key(&keys, m.as_str()) {
            let ghost before = keys@;
            keys.push(owned(m.as_str()));
            proof {
                assert(keys@.map_values(|s: String| s@) =~= before.map_values(|s: String| s@).push(
                    m@,
                ));
            }
        }
        masks.push(m);
        i += 1;
    }
    proof {
        assert(ns.take(notes@.len() as int) =~= ns);
    }
    let ghost ks = keys_seen(ns);
    let mut out = owned(h);
    out.append(" What this sample cannot tell us\n\n");
    let ghost head = h@ + " What this sample cannot tell us\n\n"@;
    let mut t: usize = 0;
    while t < keys.len()
        invariant
            t <= keys@.len(),
            ns == pairs(notes@),
            masks@.len() == notes@.len(),
            forall|j: int| 0 <= j < notes@.len() ==> #[trigger] masks@[j]@ == key_of(ns[j].1),
            keys@.map_values(|s: String| s@) == ks,
            ks == keys_seen(ns),
            out@ == head + blocks(ns, ks.take(t as int), n_rows as nat),
        decreases keys.len() - t,
    {
        let ghost k = ks[t as int];
        proof {
            assert(keys@[t as int]@ == k);
            assert(ks.take(t + 1).drop_last() =~= ks.take(t as int));
            assert(ks.take(t + 1).last() == k);
        }
        let es = entries_under(notes, &masks, keys[t].as_str());
        proof {
            assert(ks.contains(k)) by {
                assert(ks[t as int] == k);
            }
            lemma_seen_has_entries(ns, k);
        }
        push_block(&mut out, &es, n_rows);
        proof {
            assert(out@ =~= head + blocks(ns, ks.take(t + 1), n_rows as nat));
        }
        t += 1;
    }
    proof {
        assert(ks.take(keys@.len() as int) =~= ks);
    }
    out.append("\n");
    out
}

/// The pairs whose caveat's mask is `k`, copied, in order.
fn entries_under(notes: &Vec<(String, String)>, masks: &Vec<String>, k: &str) -> (r: Vec<
    (String, String),
>)
    requires
        masks@.len() == notes@.len(),
        forall|j: int| 0 <= j < notes@.len() ==> #[trigger] masks@[j]@ == key_of(pairs(notes@)[j].1),
    ensures
        pairs(r@) == under(pairs(notes@), k@),
{
    let ghost ns = pairs(notes@);
    let mut out: Vec<(String, String)> = Vec::new();
    let mut i: usize = 0;
    while i < notes.len()
        invariant
            i <= notes@.len(),
            ns == pairs(notes@),
            masks@.len() == notes@.len(),
            forall|j: int| 0 <= j < notes@.len() ==> #[trigger] masks@[j]@ == key_of(ns[j].1),
            pairs(out@) == under(ns.take(i as int), k@),
        decreases notes.len() - i,
    {
        proof {
            assert(ns.take(i + 1).drop_last() =~= ns.take(i as int));
            assert(ns.take(i + 1).last() == ns[i as int]);
            assert(masks@[i as int]@ == key_of(ns[i as int].1));
        }
        if str_eq(masks[i].as_str(), k) {
            let ghost before = out@;
            let e = (owned(notes[i].0.as_str()), owned(notes[i].1.as_str()));
            out.push(e);
            proof {
                assert(pairs(out@) =~= pairs(before).push(ns[i as int]));
            }
        }
        i += 1;
    }
    proof {
        assert(ns.take(notes@.len() as int) =~= ns);
    }
    out
}

fn push_bullet(out: &mut String, names: &str, text: &str)
    ensures
        final(out)@ == old(out)@ + bullet(names@, text@),
{
    out.append("- **");
    out.append(names);
    out.append("** \u{2014} ");
    out.append(text);
    out.append("\n");
    proof {
        assert(final(out)@ =~= old(out)@ + bullet(names@, text@));
    }
}

/// A key that was seen has at least one entry under it.
proof fn lemma_seen_has_entries(ns: Seq<(Seq<char>, Seq<char>)>, k: Seq<char>)
    requires
        keys_seen(ns).contains(k),
    ensures
        under(ns, k).len() > 0,
    decreases ns.len(),
{
    if ns.len() > 0 {
        let prev = keys_seen(ns.drop_last());
        if prev.contains(k) {
            lemma_seen_has_entries(ns.drop_last(), k);
        } else {
            assert(k == key_of(ns.last().1)) by {
                assert(keys_seen(ns) == prev.push(key_of(ns.last().1)));
                let j = choose|j: int| 0 <= j < keys_seen(ns).len() && keys_seen(ns)[j] == k;
                if j < prev.len() {
                    assert(prev[j] == k);
                }
            }
        }
    }
}

/// The policy with the first number of its caveat.
fn tag(e: &(String, String)) -> (r: String)
    ensures
        r@ == tagged((e.0@, e.1@)),
{
    let mut t = owned(e.0.as_str());
    match first_number(e.1.as_str()) {
        Some(v) => {
            t.append(" ");
            t.append(v.as_str());
        },
        None => {},
    }
    t
}

/// Appends the bullet for one key's entries.
fn push_block(out: &mut String, es: &Vec<(String, String)>, n_rows: usize)
    requires
        es@.len() > 0,
    ensures
        final(out)@ == old(out)@ + block(pairs(es@), n_rows as nat),
{
    let ghost ps = pairs(es@);
    let mut same = true;
    let mut j: usize = 1;
    while j < es.len()
        invariant
            1 <= j <= es@.len(),
            ps == pairs(es@),
            same == (forall|i: int| 0 <= i < j ==> #[trigger] ps[i].1 == ps[0].1),
        decreases es.len() - j,
    {
        let eq = str_eq(es[j].1.as_str(), es[0].1.as_str());
        proof {
            assert(ps[j as int].1 == es@[j as int].1@);
            assert(ps[0].1 == es@[0].1@);
            if same && !eq {
                assert(!(ps[j as int].1 == ps[0].1));
            }
        }
        same = same && eq;
        j += 1;
    }
    proof {
        assert(same == all_same_text(ps));
        assert(ps[0] == (es@[0].0@, es@[0].1@));
    }
    if same {
        if es.len() == n_rows {
            push_bullet(out, "all policies", es[0].1.as_str());
        } else {
            let mut names: Vec<String> = Vec::new();
            let mut i: usize = 0;
            while i < es.len()
                invariant
                    i <= es@.len(),
                    ps == pairs(es@),
                    names@.map_values(|s: String| s@) == policies_of(ps).take(i as int),
                decreases es.len() - i,
            {
                let ghost before = names@;
                names.push(owned(es[i].0.as_str()));
                proof {
                    assert(names@.map_values(|s: String| s@) =~= before.map_values(
                        |s: String| s@,
                    ).push(es@[i as int].0@));
                    assert(policies_of(ps).take(i + 1) =~= policies_of(ps).take(i as int).push(
                        es@[i as int].0@,
                    ));
                }
                i += 1;
            }
            proof {
                assert(policies_of(ps).take(es@.len() as int) =~= policies_of(ps));
            }
            let mut joined_names = String::new();
            push_joined(&mut joined_names, &names);
            proof {
                assert(Seq::<char>::empty() + joined(policies_of(ps)) =~= joined(policies_of(ps)));
            }
            push_bullet(out, joined_names.as_str(), es[0].1.as_str());
        }
    } else {
        push_bullet(out, es[0].0.as_str(), es[0].1.as_str());
        let ghost rest = ps.skip(1);
        if es.len() > 1 {
            let mut tags: Vec<String> = Vec::new();
            let mut i: usize = 1;
            while i < es.len()
                invariant
                    1 <= i <= es@.len(),
                    ps == pairs(es@),
                    rest == ps.skip(1),
                    tags@.map_values(|s: String| s@) == tags_of(rest).take(i - 1),
                decreases es.len() - i,
            {
                let ghost before = tags@;
                let tg = tag(&es[i]);
                tags.push(tg);
                proof {
                    assert(rest[i - 1] == ps[i as int]);
                    assert(ps[i as int] == (es@[i as int].0@, es@[i as int].1@));
                    assert(tags@.map_values(|s: String| s@) =~= before.map_values(|s: String| s@).push(
                        tagged(ps[i as int]),
                    ));
                    assert(tags_of(rest).take(i as int) =~= tags_of(rest).take(i - 1).push(
                        tagged(rest[i - 1]),
                    ));
                }
                i += 1;
            }
            proof {
                assert(tags_of(rest).take(es@.len() - 1) =~= tags_of(rest));
            }
            out.append("  - same for: ");
            push_joined(out, &tags);
            out.append("\n");
        }
    }
}

} // verus!
