//! What the live GitHub reads report: the commit being served, a read's
//! result, the paths whose reads failed during a request, and GitHub's
//! status codes in words a human can act on.
use vstd::prelude::*;

use crate::number::{dec, push_dec};
use crate::sort::views;
use crate::text::{owned, str_eq};

verus! {

/// Which commit `main` is at, plus when it was made.
pub struct Head {
    pub sha: String,
    pub date: String,
}

/// One repo read: the text, and whether it came from GitHub at request time.
pub struct Fetched {
    pub text: String,
    pub live: bool,
}

// ---------------------------------------------------------------------------
// Failed reads of one request
// ---------------------------------------------------------------------------

/// The paths whose read failed during the current request, each once, in the
/// order they first failed — so the banner can name them.
pub struct FailureLog {
    paths: Vec<String>,
}

pub open spec fn no_dups(s: Seq<Seq<char>>) -> bool {
    forall|i: int, j: int| 0 <= i < j < s.len() ==> s[i] != s[j]
}

impl View for FailureLog {
    type V = Seq<Seq<char>>;

    closed spec fn view(&self) -> Seq<Seq<char>> {
        views(self.paths@)
    }
}

impl FailureLog {
    /// A request that has not failed any read yet.
    pub fn new() -> (r: FailureLog)
        ensures
            r@ == Seq::<Seq<char>>::empty(),
    {
        let r = FailureLog { paths: Vec::new() };
        proof {
            assert(views(r.paths@) =~= Seq::<Seq<char>>::empty());
        }
        r
    }

    /// Records that reading `path` failed; a path already recorded is not
    /// recorded twice.
    pub fn note_failure(&mut self, path: &str)
        ensures
            final(self)@ == if old(self)@.contains(path@) {
                old(self)@
            } else {
                old(self)@.push(path@)
            },
            no_dups(old(self)@) ==> no_dups(final(self)@),
    {
        let ghost v = self@;
        let mut i: usize = 0;
        while i < self.paths.len()
            invariant
                i <= self.paths@.len(),
                v == views(self.paths@),
                forall|j: int| 0 <= j < i ==> v[j] != path@,
            decreases self.paths.len() - i,
        {
            proof {
                assert(v[i as int] == self.paths@[i as int]@);
            }
            if str_eq(self.paths[i].as_str(), path) {
                return;
            }
            i += 1;
        }
        proof {
            assert(!v.contains(path@));
        }
        let p = owned(path);
        self.paths.push(p);
        proof {
            assert(views(self.paths@) =~= v.push(path@));
        }
    }

    /// What failed during this request, for the banner.
    pub fn failed_paths(&self) -> (r: Vec<String>)
        ensures
            views(r@) == self@,
    {
        let mut out: Vec<String> = Vec::new();
        let mut i: usize = 0;
        while i < self.paths.len()
            invariant
                i <= self.paths@.len(),
                views(out@) == views(self.paths@).take(i as int),
            decreases self.paths.len() - i,
        {
            let p = owned(self.paths[i].as_str());
            let ghost before = out@;
            out.push(p);
            proof {
                assert(views(self.paths@)[i as int] == self.paths@[i as int]@);
                assert(views(out@) =~= views(before).push(p@));
                assert(views(out@) =~= views(self.paths@).take(i + 1));
            }
            i += 1;
        }
        proof {
            assert(views(self.paths@).take(self.paths@.len() as int) =~= views(self.paths@));
        }
        out
    }
}

// ---------------------------------------------------------------------------
// GitHub status codes
// ---------------------------------------------------------------------------

/// Why a live read failed: each status GitHub answers with maps to its own
/// fix.
pub open spec fn explain_of(status: u16) -> Seq<char> {
    if status == 401 {
        "GitHub rejected the token (401). The GITHUB_TOKEN worker secret is invalid or revoked."@
    } else if status == 403 {
        "GitHub refused the request (403) — rate limit exhausted, or the token lacks access to the repository."@
    } else if status == 404 {
        "GitHub returned 404 for the repository itself. Check the repo name and the token's scope."@
    } else if status == 429 {
        "GitHub rate-limited the dashboard (429). It will recover on its own; reload in a minute."@
    } else if 500 <= status <= 599 {
        "GitHub returned a server error ("@ + dec(status as nat)
            + "). This is upstream; reload shortly."@
    } else {
        "GitHub returned an unexpected status ("@ + dec(status as nat) + ")."@
    }
}

/// Why a live read failed, in words a human can act on.
pub fn explain(status: u16) -> (r: String)
    ensures
        r@ == explain_of(status),
{
    if status == 401 {
        owned(
            "GitHub rejected the token (401). The GITHUB_TOKEN worker secret is invalid or revoked.",
        )
    } else if status == 403 {
        owned(
            "GitHub refused the request (403) — rate limit exhausted, or the token lacks access to the repository.",
        )
    } else if status == 404 {
        owned(
            "GitHub returned 404 for the repository itself. Check the repo name and the token's scope.",
        )
    } else if status == 429 {
        owned(
            "GitHub rate-limited the dashboard (429). It will recover on its own; reload in a minute.",
        )
    } else if 500 <= status && status <= 599 {
        let mut out = owned("GitHub returned a server error (");
        push_dec(&mut out, status as u64);
        out.append("). This is upstream; reload shortly.");
        out
    } else {
        let mut out = owned("GitHub returned an unexpected status (");
        push_dec(&mut out, status as u64);
        out.append(").");
        out
    }
}


/// The log after noting the failures `ps` in order on a fresh one: each
/// failure is added unless its path is already there (what `note_failure`
/// does).
pub open spec fn log_after(ps: Seq<Seq<char>>) -> Seq<Seq<char>>
    decreases ps.len(),
{
    if ps.len() == 0 {
        Seq::empty()
    } else {
        let l = log_after(ps.drop_last());
        if l.contains(ps.last()) {
            l
        } else {
            l.push(ps.last())
        }
    }
}

/// Where `x` first failed among `ps`.
pub open spec fn first_failure(ps: Seq<Seq<char>>, x: Seq<char>) -> int
    decreases ps.len(),
{
    if ps.len() == 0 {
        0
    } else if ps.drop_last().contains(x) {
        first_failure(ps.drop_last(), x)
    } else {
        ps.len() - 1
    }
}

/// The failure log of a request: starting empty and noting the failed
/// reads `ps` one by one, it lists every failed path exactly once and no
/// other, in the order of their first failure.
pub proof fn law_failure_log_lists_each_path_once(ps: Seq<Seq<char>>)
    ensures
        no_dups(log_after(ps)),
        forall|x: Seq<char>| log_after(ps).contains(x) <==> ps.contains(x),
        forall|a: int, b: int|
            0 <= a < b < log_after(ps).len() ==> first_failure(ps, #[trigger] log_after(ps)[a])
                < first_failure(ps, #[trigger] log_after(ps)[b]),
        forall|a: int|
            0 <= a < log_after(ps).len() ==> first_failure(ps, #[trigger] log_after(ps)[a]) < ps.len(),
    decreases ps.len(),
{
    if ps.len() > 0 {
        let pre = ps.drop_last();
        let x = ps.last();
        law_failure_log_lists_each_path_once(pre);
        let l = log_after(pre);
        assert forall|y: Seq<char>| pre.contains(y) implies ps.contains(y) by {
            let k = choose|k: int| 0 <= k < pre.len() && pre[k] == y;
            assert(ps[k] == y);
        }
        assert forall|y: Seq<char>| ps.contains(y) && y != x implies pre.contains(y) by {
            let k = choose|k: int| 0 <= k < ps.len() && ps[k] == y;
            assert(k != ps.len() - 1);
            assert(pre[k] == y);
        }
        assert(ps.contains(x)) by {
            assert(ps[ps.len() - 1] == x);
        }
        assert forall|y: Seq<char>| pre.contains(y) implies first_failure(ps, y) == first_failure(pre, y) by {}
        if l.contains(x) {
            assert(pre.contains(x));
        } else {
            let n = l.push(x);
            assert(!pre.contains(x));
            assert(first_failure(ps, x) == ps.len() - 1);
            assert forall|a: int, b: int| 0 <= a < b < n.len() implies n[a] != n[b] by {
                if b == n.len() - 1 {
                    assert(n[a] == l[a]);
                    assert(l.contains(l[a]));
                } else {
                    assert(n[a] == l[a] && n[b] == l[b]);
                }
            }
            assert forall|y: Seq<char>| n.contains(y) <==> ps.contains(y) by {
                if n.contains(y) && y != x {
                    let k = choose|k: int| 0 <= k < n.len() && n[k] == y;
                    assert(l[k] == y);
                }
                if ps.contains(y) && y != x {
                    assert(l.contains(y));
                    let k = choose|k: int| 0 <= k < l.len() && l[k] == y;
                    assert(n[k] == y);
                }
                if y == x {
                    assert(n[n.len() - 1] == x);
                }
            }
            assert forall|a: int, b: int|
                0 <= a < b < n.len() implies first_failure(ps, #[trigger] n[a]) < first_failure(ps, #[trigger] n[b]) by {
                assert(n[a] == l[a]);
                assert(l.contains(l[a]));
                if b < n.len() - 1 {
                    assert(n[b] == l[b]);
                    assert(l.contains(l[b]));
                }
            }
            assert forall|a: int| 0 <= a < n.len() implies first_failure(ps, #[trigger] n[a]) < ps.len() by {
                if a < n.len() - 1 {
                    assert(n[a] == l[a]);
                    assert(l.contains(l[a]));
                }
            }
        }
    }
}

} // verus!
