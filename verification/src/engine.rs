//! The execution engine's plain-data pieces: trade sides and exit kinds, the
//! signal buckets, the policy defaults, policy names and their reading
//! order, the timestamp conventions (RFC 3339, or a bare date taken at 12:00
//! UTC) and the small text helpers of its reports.
use vstd::prelude::*;

use crate::dates::{lemma_civil_small, civil_date, civil_days, days_from_civil};
use crate::number::digit_char;
use crate::sort::{lemma_lex_refl, lemma_lex_total, lemma_lex_trans, lex_le, str_le_exec, views};
use crate::text::{
    at, at_pred, chars_of, find_char_in, is_digit, last_index, owned, push_char, str_eq, string_of,
    trim, trim_window, at_in, lemma_last_index_is, lemma_last_index_none,
};

verus! {

// ---------------------------------------------------------------------------
// Sides, exits, buckets
// ---------------------------------------------------------------------------

#[derive(Clone, Copy, PartialEq, Eq, Structural, Debug)]
pub enum Side {
    Buy,
    Sell,
}

impl Side {
    pub fn as_str(self) -> (r: &'static str)
        ensures
            r@ == match self {
                Side::Buy => "buy"@,
                Side::Sell => "sell"@,
            },
    {
        match self {
            Side::Buy => "buy",
            Side::Sell => "sell",
        }
    }
}

/// How a trade ended.
#[derive(Clone, Copy, PartialEq, Eq, Structural, Debug)]
pub enum ExitKind {
    Resolution,
    TakeProfit,
}

/// Every signal ends in exactly one terminal bucket (the first block, which
/// sums to `signals`); the second block are reported, non-gating
/// observations.
#[derive(Clone, Copy, Debug)]
pub struct Counts {
    pub signals: usize,
    pub traded: usize,
    pub no_quote: usize,
    pub entry_after_resolution: usize,
    pub delay_unavailable: usize,
    pub no_executable_edge: usize,
    pub side_excluded: usize,
    pub below_min_edge: usize,
    pub below_edge_percentile: usize,
    pub spread_too_wide: usize,
    pub depth_too_thin: usize,
    pub unfundable: usize,
    pub market_cap_full: usize,
    pub stake_too_small: usize,
    /// Of the `delay_unavailable` signals, how many sit on a market that
    /// resolved in favour of the token.
    pub delay_unavailable_token_won: usize,
    /// Rows where the depth gate and the depth cap could not be evaluated.
    pub depth_unknown: usize,
    /// Sell candidates the venue-epsilon screen could not be applied to.
    pub epsilon_unavailable: usize,
    /// Rows whose book had to be synthesized from the midpoint.
    pub book_synthetic: usize,
    /// Trades whose asset had no category entry and were charged the
    /// policy's fallback rate.
    pub fee_rate_unmapped: usize,
}

impl Counts {
    /// The terminal buckets' total.
    pub open spec fn terminal_sum(self) -> int {
        self.traded + self.no_quote + self.entry_after_resolution + self.delay_unavailable
            + self.no_executable_edge + self.side_excluded + self.below_min_edge
            + self.below_edge_percentile + self.spread_too_wide + self.depth_too_thin
            + self.unfundable + self.market_cap_full + self.stake_too_small
    }
}

/// Where a signal ended: traded, or the first gate that stopped it.
#[derive(Clone, Copy, PartialEq, Eq, Structural, Debug)]
pub enum Terminal {
    Traded,
    NoQuote,
    EntryAfterResolution,
    DelayUnavailable,
    NoExecutableEdge,
    SideExcluded,
    BelowMinEdge,
    BelowEdgePercentile,
    SpreadTooWide,
    DepthTooThin,
    Unfundable,
    MarketCapFull,
    StakeTooSmall,
}

/// The count of the terminal bucket `t`.
pub open spec fn bucket(c: Counts, t: Terminal) -> int {
    match t {
        Terminal::Traded => c.traded as int,
        Terminal::NoQuote => c.no_quote as int,
        Terminal::EntryAfterResolution => c.entry_after_resolution as int,
        Terminal::DelayUnavailable => c.delay_unavailable as int,
        Terminal::NoExecutableEdge => c.no_executable_edge as int,
        Terminal::SideExcluded => c.side_excluded as int,
        Terminal::BelowMinEdge => c.below_min_edge as int,
        Terminal::BelowEdgePercentile => c.below_edge_percentile as int,
        Terminal::SpreadTooWide => c.spread_too_wide as int,
        Terminal::DepthTooThin => c.depth_too_thin as int,
        Terminal::Unfundable => c.unfundable as int,
        Terminal::MarketCapFull => c.market_cap_full as int,
        Terminal::StakeTooSmall => c.stake_too_small as int,
    }
}

/// `c` with one more signal in the bucket `t`.
pub open spec fn landed(c: Counts, t: Terminal) -> Counts {
    match t {
        Terminal::Traded => Counts { traded: (c.traded + 1) as usize, ..c },
        Terminal::NoQuote => Counts { no_quote: (c.no_quote + 1) as usize, ..c },
        Terminal::EntryAfterResolution => Counts { entry_after_resolution: (c.entry_after_resolution + 1) as usize, ..c },
        Terminal::DelayUnavailable => Counts { delay_unavailable: (c.delay_unavailable + 1) as usize, ..c },
        Terminal::NoExecutableEdge => Counts { no_executable_edge: (c.no_executable_edge + 1) as usize, ..c },
        Terminal::SideExcluded => Counts { side_excluded: (c.side_excluded + 1) as usize, ..c },
        Terminal::BelowMinEdge => Counts { below_min_edge: (c.below_min_edge + 1) as usize, ..c },
        Terminal::BelowEdgePercentile => Counts { below_edge_percentile: (c.below_edge_percentile + 1) as usize, ..c },
        Terminal::SpreadTooWide => Counts { spread_too_wide: (c.spread_too_wide + 1) as usize, ..c },
        Terminal::DepthTooThin => Counts { depth_too_thin: (c.depth_too_thin + 1) as usize, ..c },
        Terminal::Unfundable => Counts { unfundable: (c.unfundable + 1) as usize, ..c },
        Terminal::MarketCapFull => Counts { market_cap_full: (c.market_cap_full + 1) as usize, ..c },
        Terminal::StakeTooSmall => Counts { stake_too_small: (c.stake_too_small + 1) as usize, ..c },
    }
}

/// `c` after landing the signals `ts`, in order.
pub open spec fn land_all(c: Counts, ts: Seq<Terminal>) -> Counts
    decreases ts.len(),
{
    if ts.len() == 0 {
        c
    } else {
        landed(land_all(c, ts.drop_last()), ts.last())
    }
}

/// How many of `ts` are `t`.
pub open spec fn occurrences(ts: Seq<Terminal>, t: Terminal) -> int
    decreases ts.len(),
{
    if ts.len() == 0 {
        0
    } else {
        occurrences(ts.drop_last(), t) + if ts.last() == t {
            1int
        } else {
            0int
        }
    }
}

/// The observations that are reported but gate nothing.
pub open spec fn same_observations(a: Counts, b: Counts) -> bool {
    &&& a.signals == b.signals
    &&& a.delay_unavailable_token_won == b.delay_unavailable_token_won
    &&& a.depth_unknown == b.depth_unknown
    &&& a.epsilon_unavailable == b.epsilon_unavailable
    &&& a.book_synthetic == b.book_synthetic
    &&& a.fee_rate_unmapped == b.fee_rate_unmapped
}

impl Counts {
    /// How many signals the terminal bucket `t` holds.
    pub fn count_of(&self, t: Terminal) -> (r: usize)
        ensures
            r == bucket(*self, t),
    {
        match t {
            Terminal::Traded => self.traded,
            Terminal::NoQuote => self.no_quote,
            Terminal::EntryAfterResolution => self.entry_after_resolution,
            Terminal::DelayUnavailable => self.delay_unavailable,
            Terminal::NoExecutableEdge => self.no_executable_edge,
            Terminal::SideExcluded => self.side_excluded,
            Terminal::BelowMinEdge => self.below_min_edge,
            Terminal::BelowEdgePercentile => self.below_edge_percentile,
            Terminal::SpreadTooWide => self.spread_too_wide,
            Terminal::DepthTooThin => self.depth_too_thin,
            Terminal::Unfundable => self.unfundable,
            Terminal::MarketCapFull => self.market_cap_full,
            Terminal::StakeTooSmall => self.stake_too_small,
        }
    }

    /// Lands one signal in the terminal bucket `t`.
    pub fn land(&mut self, t: Terminal)
        requires
            bucket(*old(self), t) < usize::MAX,
        ensures
            *final(self) == landed(*old(self), t),
    {
        match t {
            Terminal::Traded => self.traded = self.traded + 1,
            Terminal::NoQuote => self.no_quote = self.no_quote + 1,
            Terminal::EntryAfterResolution => self.entry_after_resolution = self.entry_after_resolution + 1,
            Terminal::DelayUnavailable => self.delay_unavailable = self.delay_unavailable + 1,
            Terminal::NoExecutableEdge => self.no_executable_edge = self.no_executable_edge + 1,
            Terminal::SideExcluded => self.side_excluded = self.side_excluded + 1,
            Terminal::BelowMinEdge => self.below_min_edge = self.below_min_edge + 1,
            Terminal::BelowEdgePercentile => self.below_edge_percentile = self.below_edge_percentile + 1,
            Terminal::SpreadTooWide => self.spread_too_wide = self.spread_too_wide + 1,
            Terminal::DepthTooThin => self.depth_too_thin = self.depth_too_thin + 1,
            Terminal::Unfundable => self.unfundable = self.unfundable + 1,
            Terminal::MarketCapFull => self.market_cap_full = self.market_cap_full + 1,
            Terminal::StakeTooSmall => self.stake_too_small = self.stake_too_small + 1,
        }
    }
}

proof fn lemma_landed_at(c: Counts, t: Terminal, u: Terminal)
    requires
        bucket(c, t) < usize::MAX,
    ensures
        bucket(landed(c, t), u) == bucket(c, u) + if u == t {
            1int
        } else {
            0int
        },
{
    match u {
        Terminal::Traded => {},
        Terminal::NoQuote => {},
        Terminal::EntryAfterResolution => {},
        Terminal::DelayUnavailable => {},
        Terminal::NoExecutableEdge => {},
        Terminal::SideExcluded => {},
        Terminal::BelowMinEdge => {},
        Terminal::BelowEdgePercentile => {},
        Terminal::SpreadTooWide => {},
        Terminal::DepthTooThin => {},
        Terminal::Unfundable => {},
        Terminal::MarketCapFull => {},
        Terminal::StakeTooSmall => {},
    }
}

/// One landing raises its own bucket by one and no other.
pub proof fn lemma_landed(c: Counts, t: Terminal)
    requires
        bucket(c, t) < usize::MAX,
    ensures
        landed(c, t).terminal_sum() == c.terminal_sum() + 1,
        forall|u: Terminal| #[trigger] bucket(landed(c, t), u) == bucket(c, u) + if u == t {
            1int
        } else {
            0int
        },
        same_observations(landed(c, t), c),
{
    assert forall|u: Terminal| #[trigger] bucket(landed(c, t), u) == bucket(c, u) + if u == t {
        1int
    } else {
        0int
    } by {
        lemma_landed_at(c, t, u);
    }
    match t {
        Terminal::Traded => {},
        Terminal::NoQuote => {},
        Terminal::EntryAfterResolution => {},
        Terminal::DelayUnavailable => {},
        Terminal::NoExecutableEdge => {},
        Terminal::SideExcluded => {},
        Terminal::BelowMinEdge => {},
        Terminal::BelowEdgePercentile => {},
        Terminal::SpreadTooWide => {},
        Terminal::DepthTooThin => {},
        Terminal::Unfundable => {},
        Terminal::MarketCapFull => {},
        Terminal::StakeTooSmall => {},
    }
}

/// Every signal lands in exactly one terminal bucket: landing a run of
/// signals raises each bucket by the number landed there and the terminal
/// total by the run's length, and touches none of the reported
/// observations.
pub proof fn law_every_signal_lands_in_exactly_one_bucket(c: Counts, ts: Seq<Terminal>)
    requires
        c.terminal_sum() + ts.len() < usize::MAX,
    ensures
        land_all(c, ts).terminal_sum() == c.terminal_sum() + ts.len(),
        forall|t: Terminal| #[trigger] bucket(land_all(c, ts), t) == bucket(c, t) + occurrences(ts, t),
        same_observations(land_all(c, ts), c),
    decreases ts.len(),
{
    if ts.len() > 0 {
        let rest = ts.drop_last();
        law_every_signal_lands_in_exactly_one_bucket(c, rest);
        let before = land_all(c, rest);
        let t = ts.last();
        assert(bucket(before, t) <= before.terminal_sum());
        lemma_landed(before, t);
        assert forall|u: Terminal| #[trigger] bucket(land_all(c, ts), u) == bucket(c, u)
            + occurrences(ts, u) by {
            assert(bucket(land_all(c, ts), u) == bucket(before, u) + if u == t {
                1int
            } else {
                0int
            });
        }
    }
}


/// Each bucket is the count of the same name: counting `t` reads the field
/// named for `t`, and landing a signal in `t` raises that field by one and
/// leaves every other bucket and every observation as it was.
pub proof fn law_landing_raises_the_bucket_of_its_name(c: Counts, t: Terminal, u: Terminal)
    ensures
        bucket(c, Terminal::Traded) == c.traded,
        bucket(c, Terminal::NoQuote) == c.no_quote,
        bucket(c, Terminal::EntryAfterResolution) == c.entry_after_resolution,
        bucket(c, Terminal::DelayUnavailable) == c.delay_unavailable,
        bucket(c, Terminal::NoExecutableEdge) == c.no_executable_edge,
        bucket(c, Terminal::SideExcluded) == c.side_excluded,
        bucket(c, Terminal::BelowMinEdge) == c.below_min_edge,
        bucket(c, Terminal::BelowEdgePercentile) == c.below_edge_percentile,
        bucket(c, Terminal::SpreadTooWide) == c.spread_too_wide,
        bucket(c, Terminal::DepthTooThin) == c.depth_too_thin,
        bucket(c, Terminal::Unfundable) == c.unfundable,
        bucket(c, Terminal::MarketCapFull) == c.market_cap_full,
        bucket(c, Terminal::StakeTooSmall) == c.stake_too_small,
        c.traded < usize::MAX ==> landed(c, Terminal::Traded).traded == c.traded + 1,
        c.no_quote < usize::MAX ==> landed(c, Terminal::NoQuote).no_quote == c.no_quote + 1,
        c.entry_after_resolution < usize::MAX ==> landed(c, Terminal::EntryAfterResolution).entry_after_resolution == c.entry_after_resolution + 1,
        c.delay_unavailable < usize::MAX ==> landed(c, Terminal::DelayUnavailable).delay_unavailable == c.delay_unavailable + 1,
        c.no_executable_edge < usize::MAX ==> landed(c, Terminal::NoExecutableEdge).no_executable_edge == c.no_executable_edge + 1,
        c.side_excluded < usize::MAX ==> landed(c, Terminal::SideExcluded).side_excluded == c.side_excluded + 1,
        c.below_min_edge < usize::MAX ==> landed(c, Terminal::BelowMinEdge).below_min_edge == c.below_min_edge + 1,
        c.below_edge_percentile < usize::MAX ==> landed(c, Terminal::BelowEdgePercentile).below_edge_percentile == c.below_edge_percentile + 1,
        c.spread_too_wide < usize::MAX ==> landed(c, Terminal::SpreadTooWide).spread_too_wide == c.spread_too_wide + 1,
        c.depth_too_thin < usize::MAX ==> landed(c, Terminal::DepthTooThin).depth_too_thin == c.depth_too_thin + 1,
        c.unfundable < usize::MAX ==> landed(c, Terminal::Unfundable).unfundable == c.unfundable + 1,
        c.market_cap_full < usize::MAX ==> landed(c, Terminal::MarketCapFull).market_cap_full == c.market_cap_full + 1,
        c.stake_too_small < usize::MAX ==> landed(c, Terminal::StakeTooSmall).stake_too_small == c.stake_too_small + 1,
        bucket(c, t) < usize::MAX && u != t ==> bucket(landed(c, t), u) == bucket(c, u),
        bucket(c, t) < usize::MAX ==> same_observations(landed(c, t), c),
{
    if bucket(c, t) < usize::MAX {
        lemma_landed(c, t);
        assert(bucket(landed(c, t), u) == bucket(c, u) + if u == t {
            1int
        } else {
            0int
        });
    }
}

/// The counts of the ten rejections a report ranks, in its order.
pub open spec fn rejection_counts(c: Counts) -> Seq<usize> {
    seq![
        c.no_executable_edge,
        c.below_min_edge,
        c.below_edge_percentile,
        c.side_excluded,
        c.spread_too_wide,
        c.depth_too_thin,
        c.unfundable,
        c.market_cap_full,
        c.delay_unavailable,
        c.stake_too_small,
    ]
}

/// What a report calls each of those rejections.
pub open spec fn rejection_labels() -> Seq<Seq<char>> {
    seq![
        "no executable edge (our p sits inside the spread)"@,
        "min_edge"@,
        "edge_percentile"@,
        "sides"@,
        "min_spread_ok"@,
        "min_depth_usd"@,
        "unfundable depth"@,
        "max_per_market_usd"@,
        "no observation delay_hours later"@,
        "stake below the minimum ticket"@,
    ]
}

/// A report names each rejection by its gate: the count ranked under a
/// gate's name is the count of signals that gate stopped (`min_spread_ok`
/// the spread rejections, `min_depth_usd` the depth ones, and so on), and
/// the ten names are distinct.
pub proof fn law_rejections_are_named_by_their_gate(c: Counts, i: int, j: int)
    ensures
        0 <= i < 10 && rejection_labels()[i] == "no executable edge (our p sits inside the spread)"@ ==> rejection_counts(c)[i] == c.no_executable_edge,
        0 <= i < 10 && rejection_labels()[i] == "min_edge"@ ==> rejection_counts(c)[i] == c.below_min_edge,
        0 <= i < 10 && rejection_labels()[i] == "edge_percentile"@ ==> rejection_counts(c)[i] == c.below_edge_percentile,
        0 <= i < 10 && rejection_labels()[i] == "sides"@ ==> rejection_counts(c)[i] == c.side_excluded,
        0 <= i < 10 && rejection_labels()[i] == "min_spread_ok"@ ==> rejection_counts(c)[i] == c.spread_too_wide,
        0 <= i < 10 && rejection_labels()[i] == "min_depth_usd"@ ==> rejection_counts(c)[i] == c.depth_too_thin,
        0 <= i < 10 && rejection_labels()[i] == "unfundable depth"@ ==> rejection_counts(c)[i] == c.unfundable,
        0 <= i < 10 && rejection_labels()[i] == "max_per_market_usd"@ ==> rejection_counts(c)[i] == c.market_cap_full,
        0 <= i < 10 && rejection_labels()[i] == "no observation delay_hours later"@ ==> rejection_counts(c)[i] == c.delay_unavailable,
        0 <= i < 10 && rejection_labels()[i] == "stake below the minimum ticket"@ ==> rejection_counts(c)[i] == c.stake_too_small,
        0 <= i < 10 && 0 <= j < 10 && i != j ==> rejection_labels()[i] != rejection_labels()[j],
{
    reveal_strlit("no executable edge (our p sits inside the spread)");
    reveal_strlit("min_edge");
    reveal_strlit("edge_percentile");
    reveal_strlit("sides");
    reveal_strlit("min_spread_ok");
    reveal_strlit("min_depth_usd");
    reveal_strlit("unfundable depth");
    reveal_strlit("max_per_market_usd");
    reveal_strlit("no observation delay_hours later");
    reveal_strlit("stake below the minimum ticket");
    let ls = rejection_labels();
    assert(ls[0].len() == 49);
    assert(ls[1].len() == 8);
    assert(ls[2].len() == 15);
    assert(ls[3].len() == 5);
    assert(ls[4].len() == 13);
    assert(ls[5].len() == 13);
    assert(ls[6].len() == 16);
    assert(ls[7].len() == 18);
    assert(ls[8].len() == 32);
    assert(ls[9].len() == 30);
    assert(ls[4][4] == 's' && ls[5][4] == 'd');
    assert(ls[4] != ls[5]);
    if 0 <= i < 10 && 0 <= j < 10 && i != j {
        assert(ls[i] != ls[j]);
    }
}

/// The rejection that swallowed the most signals, and how many; among
/// equals the last in report order.
pub fn dominant_rejection(c: &Counts) -> (r: (&'static str, usize))
    ensures
        exists|i: int|
            0 <= i < 10 && #[trigger] rejection_labels()[i] == r.0@ && rejection_counts(*c)[i]
                == r.1 && forall|j: int| i < j < 10 ==> rejection_counts(*c)[j] < r.1,
        forall|j: int| 0 <= j < 10 ==> rejection_counts(*c)[j] <= r.1,
{
    let labels: [&'static str; 10] = [
        "no executable edge (our p sits inside the spread)",
        "min_edge",
        "edge_percentile",
        "sides",
        "min_spread_ok",
        "min_depth_usd",
        "unfundable depth",
        "max_per_market_usd",
        "no observation delay_hours later",
        "stake below the minimum ticket",
    ];
    let counts: [usize; 10] = [
        c.no_executable_edge,
        c.below_min_edge,
        c.below_edge_percentile,
        c.side_excluded,
        c.spread_too_wide,
        c.depth_too_thin,
        c.unfundable,
        c.market_cap_full,
        c.delay_unavailable,
        c.stake_too_small,
    ];
    proof {
        assert(counts@ =~= rejection_counts(*c));
        assert(labels@.map_values(|l: &'static str| l@) =~= rejection_labels());
    }
    let mut best: usize = 0;
    let mut i: usize = 1;
    while i < 10
        invariant
            1 <= i <= 10,
            best < i,
            counts@ == rejection_counts(*c),
            forall|j: int| 0 <= j < i ==> counts@[j] <= counts@[best as int],
            forall|j: int| best < j < i ==> counts@[j] < counts@[best as int],
        decreases 10 - i,
    {
        if counts[i] >= counts[best] {
            best = i;
        }
        i += 1;
    }
    proof {
        assert(labels@.map_values(|l: &'static str| l@)[best as int] == labels@[best as int]@);
    }
    (labels[best], counts[best])
}

impl Default for Counts {
    /// Nothing counted yet.
    fn default() -> (r: Counts)
        ensures
            r.signals == 0,
            r.terminal_sum() == 0,
            r.delay_unavailable_token_won == 0,
            r.depth_unknown == 0,
            r.epsilon_unavailable == 0,
            r.book_synthetic == 0,
            r.fee_rate_unmapped == 0,
    {
        Counts {
            signals: 0,
            traded: 0,
            no_quote: 0,
            entry_after_resolution: 0,
            delay_unavailable: 0,
            no_executable_edge: 0,
            side_excluded: 0,
            below_min_edge: 0,
            below_edge_percentile: 0,
            spread_too_wide: 0,
            depth_too_thin: 0,
            unfundable: 0,
            market_cap_full: 0,
            stake_too_small: 0,
            delay_unavailable_token_won: 0,
            depth_unknown: 0,
            epsilon_unavailable: 0,
            book_synthetic: 0,
            fee_rate_unmapped: 0,
        }
    }
}

// ---------------------------------------------------------------------------
// Policy defaults
// ---------------------------------------------------------------------------

/// How the venue's trading fee is charged: not at all (what every `-v1`
/// policy assumed, and the default), or Polymarket's taker fee per fill.
#[derive(Clone, Copy, PartialEq, Eq, Structural, Debug)]
pub enum FeeModel {
    /// No venue fee at all.
    Free,
    /// Polymarket's published taker fee, charged per taker fill.
    PolymarketTaker,
}

impl Default for FeeModel {
    fn default() -> (r: FeeModel)
        ensures
            r == FeeModel::Free,
    {
        FeeModel::Free
    }
}

/// How several signals on one token are combined.
pub struct Combine {
    pub method: String,
}

pub fn default_combine() -> (r: String)
    ensures
        r@ == "best-improvement"@,
{
    owned("best-improvement")
}

pub fn default_true() -> (r: bool)
    ensures
        r,
{
    true
}

impl Default for Combine {
    fn default() -> (r: Combine)
        ensures
            r.method@ == "best-improvement"@,
    {
        Combine { method: default_combine() }
    }
}

// ---------------------------------------------------------------------------
// Policy names
// ---------------------------------------------------------------------------

pub open spec fn all_digits(s: Seq<char>) -> bool {
    forall|i: int| 0 <= i < s.len() ==> is_digit(#[trigger] s[i])
}

/// `anchor-v1` → `anchor`: the file stem without its last `-v<digits>`.
pub open spec fn policy_name_of(stem: Seq<char>) -> Seq<char> {
    match last_index(stem.len() + 1 - 2, at_pred(stem, "-v"@)) {
        Some(i) => if all_digits(stem.skip(i + 2)) {
            stem.take(i)
        } else {
            stem
        },
        None => stem,
    }
}

/// Whether every character of `s` from `lo` on is a digit.
fn digits_from(s: &Vec<char>, lo: usize) -> (r: bool)
    requires
        lo <= s@.len(),
    ensures
        r == all_digits(s@.skip(lo as int)),
{
    let mut j = lo;
    while j < s.len()
        invariant
            lo <= j <= s@.len(),
            forall|t: int| lo <= t < j ==> is_digit(#[trigger] s@[t]),
        decreases s.len() - j,
    {
        if !(s[j] >= '0' && s[j] <= '9') {
            proof {
                assert(!is_digit(s@.skip(lo as int)[j - lo]));
            }
            return false;
        }
        j += 1;
    }
    proof {
        assert forall|t: int| 0 <= t < s@.skip(lo as int).len() implies is_digit(
            #[trigger] s@.skip(lo as int)[t],
        ) by {
            assert(s@.skip(lo as int)[t] == s@[lo + t]);
        }
    }
    true
}

/// A policy's name from its file stem.
pub fn policy_name(stem: &str) -> (r: String)
    ensures
        r@ == policy_name_of(stem@),
{
    let s = chars_of(stem);
    let n = s.len();
    let dv = ['-', 'v'];
    proof {
        reveal_strlit("-v");
        assert(dv@ =~= "-v"@);
        assert(s@.subrange(0, n as int) =~= s@);
    }
    let ghost p = at_pred(s@, dv@);
    if n < 2 {
        proof {
            lemma_last_index_none(n + 1 - 2, p);
        }
        return owned(stem);
    }
    let mut i = n - 1;
    while i > 0 && !at_in(&s, 0, n, i - 1, &dv)
        invariant
            1 <= n,
            i <= n - 1,
            n == s@.len(),
            dv@ == "-v"@,
            s@.subrange(0, n as int) == s@,
            p == at_pred(s@, dv@),
            forall|j: int| i <= j < n - 1 ==> !#[trigger] p(j),
        decreases i,
    {
        i -= 1;
    }
    if i == 0 {
        proof {
            lemma_last_index_none(n + 1 - 2, p);
        }
        return owned(stem);
    }
    let k = i - 1;
    proof {
        lemma_last_index_is(n + 1 - 2, p, k as int);
        assert(s@.skip(k + 2) =~= s@.subrange(k + 2, n as int));
    }
    if !digits_from(&s, k + 2) {
        return owned(stem);
    }
    proof {
        assert(s@.take(k as int) =~= s@.subrange(0, k as int));
    }
    string_of(&s, 0, k)
}

/// The order policies are read in.
pub open spec fn policy_order() -> Seq<Seq<char>> {
    seq![
        "mirror"@,
        "gate"@,
        "kelly"@,
        "anchor"@,
        "fade"@,
        "patient"@,
        "sniper"@,
        "harvest"@,
    ]
}

/// A policy's place in the reading order; unknown names come last.
pub open spec fn order_of_spec(name: Seq<char>) -> nat {
    if name == policy_order()[0] {
        0
    } else if name == policy_order()[1] {
        1
    } else if name == policy_order()[2] {
        2
    } else if name == policy_order()[3] {
        3
    } else if name == policy_order()[4] {
        4
    } else if name == policy_order()[5] {
        5
    } else if name == policy_order()[6] {
        6
    } else if name == policy_order()[7] {
        7
    } else {
        8
    }
}

pub fn order_of(name: &str) -> (r: usize)
    ensures
        r == order_of_spec(name@),
{
    if str_eq(name, "mirror") {
        0
    } else if str_eq(name, "gate") {
        1
    } else if str_eq(name, "kelly") {
        2
    } else if str_eq(name, "anchor") {
        3
    } else if str_eq(name, "fade") {
        4
    } else if str_eq(name, "patient") {
        5
    } else if str_eq(name, "sniper") {
        6
    } else if str_eq(name, "harvest") {
        7
    } else {
        8
    }
}

// ---------------------------------------------------------------------------
// Report text
// ---------------------------------------------------------------------------

/// Numbers masked as `#`: a digit starts a number, and `.` or `,` inside one
/// continue it.
pub open spec fn mask_step(st: (Seq<char>, bool), c: char) -> (Seq<char>, bool) {
    if is_digit(c) || (st.1 && (c == '.' || c == ',')) {
        if !st.1 {
            (st.0.push('#'), true)
        } else {
            (st.0, true)
        }
    } else {
        (st.0.push(c), false)
    }
}

pub open spec fn mask_fold(s: Seq<char>) -> (Seq<char>, bool)
    decreases s.len(),
{
    if s.len() == 0 {
        (Seq::empty(), false)
    } else {
        mask_step(mask_fold(s.drop_last()), s.last())
    }
}

/// `s` with every number replaced by one `#`.
pub fn mask_digits(s: &str) -> (r: String)
    ensures
        r@ == mask_fold(s@).0,
{
    let cs = chars_of(s);
    let mut out = String::new();
    let mut in_num = false;
    let mut i: usize = 0;
    proof {
        assert(cs@.take(0) =~= Seq::<char>::empty());
    }
    while i < cs.len()
        invariant
            i <= cs@.len(),
            cs@ == s@,
            (out@, in_num) == mask_fold(cs@.take(i as int)),
        decreases cs.len() - i,
    {
        let c = cs[i];
        proof {
            assert(cs@.take(i + 1).drop_last() =~= cs@.take(i as int));
            assert(cs@.take(i + 1).last() == c);
        }
        if ('0' <= c && c <= '9') || (in_num && (c == '.' || c == ',')) {
            if !in_num {
                push_char(&mut out, '#');
                in_num = true;
            }
        } else {
            in_num = false;
            push_char(&mut out, c);
        }
        i += 1;
    }
    proof {
        assert(cs@.take(cs@.len() as int) =~= s@);
    }
    out
}

/// The first number in `s` from position `i` on, given the digits collected
/// so far: digits, then `.`s and digits, ending at the first other character
/// or just after a `%`.
pub open spec fn number_from(s: Seq<char>, i: int, cur: Seq<char>) -> Option<Seq<char>>
    decreases s.len() - i,
{
    if i >= s.len() {
        if cur.len() > 0 {
            Some(cur)
        } else {
            None
        }
    } else {
        let c = s[i];
        if is_digit(c) || (cur.len() > 0 && (c == '.' || c == '%')) {
            if c == '%' {
                Some(cur.push(c))
            } else {
                number_from(s, i + 1, cur.push(c))
            }
        } else if cur.len() > 0 {
            Some(cur)
        } else {
            number_from(s, i + 1, cur)
        }
    }
}

pub fn first_number(s: &str) -> (r: Option<String>)
    ensures
        match r {
            Some(n) => number_from(s@, 0, Seq::empty()) == Some(n@),
            None => number_from(s@, 0, Seq::empty()) is None,
        },
{
    let cs = chars_of(s);
    let mut cur = String::new();
    let mut i: usize = 0;
    while i < cs.len()
        invariant
            i <= cs@.len(),
            cs@ == s@,
            number_from(s@, 0, Seq::empty()) == number_from(s@, i as int, cur@),
        decreases cs.len() - i,
    {
        let c = cs[i];
        let has = !cur.as_str().is_empty();
        if ('0' <= c && c <= '9') || (has && (c == '.' || c == '%')) {
            push_char(&mut cur, c);
            if c == '%' {
                return Some(cur);
            }
        } else if has {
            return Some(cur);
        }
        i += 1;
    }
    if cur.as_str().is_empty() {
        None
    } else {
        Some(cur)
    }
}

/// One CSV field, quoted (with `"` doubled) when it holds a comma, a quote
/// or a line break.
pub open spec fn csv_field(x: Seq<char>) -> Seq<char> {
    if x.contains(',') || x.contains('"') || x.contains('\n') {
        seq!['"'] + doubled_quotes(x) + seq!['"']
    } else {
        x
    }
}

pub open spec fn doubled_quotes(x: Seq<char>) -> Seq<char>
    decreases x.len(),
{
    if x.len() == 0 {
        Seq::empty()
    } else if x.last() == '"' {
        doubled_quotes(x.drop_last()) + seq!['"', '"']
    } else {
        doubled_quotes(x.drop_last()).push(x.last())
    }
}

pub fn csv_escape(x: &str) -> (r: String)
    ensures
        r@ == csv_field(x@),
{
    let cs = chars_of(x);
    let n = cs.len();
    proof {
        assert(cs@.subrange(0, n as int) =~= cs@);
        crate::repo::lemma_find_char_contains(cs@, ',');
        crate::repo::lemma_find_char_contains(cs@, '"');
        crate::repo::lemma_find_char_contains(cs@, '\n');
    }
    let needs = find_char_in(&cs, 0, n, ',').is_some() || find_char_in(&cs, 0, n, '"').is_some()
        || find_char_in(&cs, 0, n, '\n').is_some();
    if !needs {
        return owned(x);
    }
    let mut out = String::new();
    push_char(&mut out, '"');
    let ghost open = out@;
    let mut i: usize = 0;
    proof {
        assert(cs@.take(0) =~= Seq::<char>::empty());
        assert(open + doubled_quotes(cs@.take(0)) =~= open);
    }
    while i < n
        invariant
            i <= n == cs@.len(),
            open == seq!['"'],
            out@ == open + doubled_quotes(cs@.take(i as int)),
        decreases n - i,
    {
        let c = cs[i];
        let ghost before = out@;
        push_char(&mut out, c);
        if c == '"' {
            push_char(&mut out, '"');
        }
        proof {
            assert(cs@.take(i + 1).drop_last() =~= cs@.take(i as int));
            assert(cs@.take(i + 1).last() == c);
            if c == '"' {
                assert(out@ =~= before + seq!['"', '"']);
            } else {
                assert(out@ =~= before.push(c));
            }
        }
        i += 1;
    }
    push_char(&mut out, '"');
    proof {
        assert(cs@.take(n as int) =~= x@);
        assert(out@ =~= csv_field(x@));
    }
    out
}

// ---------------------------------------------------------------------------
// Spans
// ---------------------------------------------------------------------------

pub open spec fn seq_min(s: Seq<i64>) -> i64
    decreases s.len(),
{
    if s.len() <= 1 {
        s[0]
    } else if s.last() < seq_min(s.drop_last()) {
        s.last()
    } else {
        seq_min(s.drop_last())
    }
}

pub open spec fn seq_max(s: Seq<i64>) -> i64
    decreases s.len(),
{
    if s.len() <= 1 {
        s[0]
    } else if s.last() > seq_max(s.drop_last()) {
        s.last()
    } else {
        seq_max(s.drop_last())
    }
}

fn min_of(s: &[i64]) -> (r: i64)
    requires
        s@.len() > 0,
    ensures
        r == seq_min(s@),
{
    let mut m = s[0];
    let mut i: usize = 1;
    proof {
        assert(s@.take(1) =~= seq![s@[0]]);
    }
    while i < s.len()
        invariant
            1 <= i <= s@.len(),
            m == seq_min(s@.take(i as int)),
        decreases s.len() - i,
    {
        proof {
            assert(s@.take(i + 1).drop_last() =~= s@.take(i as int));
            assert(s@.take(i + 1).last() == s@[i as int]);
        }
        if s[i] < m {
            m = s[i];
        }
        i += 1;
    }
    proof {
        assert(s@.take(s@.len() as int) =~= s@);
    }
    m
}

fn max_of(s: &[i64]) -> (r: i64)
    requires
        s@.len() > 0,
    ensures
        r == seq_max(s@),
{
    let mut m = s[0];
    let mut i: usize = 1;
    proof {
        assert(s@.take(1) =~= seq![s@[0]]);
    }
    while i < s.len()
        invariant
            1 <= i <= s@.len(),
            m == seq_max(s@.take(i as int)),
        decreases s.len() - i,
    {
        proof {
            assert(s@.take(i + 1).drop_last() =~= s@.take(i as int));
            assert(s@.take(i + 1).last() == s@[i as int]);
        }
        if s[i] > m {
            m = s[i];
        }
        i += 1;
    }
    proof {
        assert(s@.take(s@.len() as int) =~= s@);
    }
    m
}

/// The earliest start and the latest end, 0 for an empty list.
pub fn span_i(starts: &[i64], ends: &[i64]) -> (r: (i64, i64))
    ensures
        r.0 == if starts@.len() > 0 {
            seq_min(starts@)
        } else {
            0
        },
        r.1 == if ends@.len() > 0 {
            seq_max(ends@)
        } else {
            0
        },
{
    let lo = if starts.len() > 0 {
        min_of(starts)
    } else {
        0
    };
    let hi = if ends.len() > 0 {
        max_of(ends)
    } else {
        0
    };
    (lo, hi)
}

// ---------------------------------------------------------------------------
// Timestamps
// ---------------------------------------------------------------------------

/// The Unix seconds chrono's RFC 3339 parser reads `s` as, if it accepts it.
pub uninterp spec fn rfc3339_seconds_of(s: Seq<char>) -> Option<i64>;

/// Trusted: `chrono::DateTime::parse_from_rfc3339(s)` and, on success, the
/// instant's `timestamp()` (Unix seconds). The contract only names the
/// result as a function of the text; which texts chrono accepts is not
/// stated.
#[verifier::external_body]
fn rfc3339_seconds(s: &str) -> (r: Option<i64>)
    ensures
        r == rfc3339_seconds_of(s@),
{
    match chrono::DateTime::parse_from_rfc3339(s) {
        Ok(dt) => Some(dt.timestamp()),
        Err(_) => None,
    }
}

/// The calendar date chrono's `NaiveDate::parse_from_str` reads `s` as
/// under `fmt`, or the text of its error.
pub uninterp spec fn date_fields_of(s: Seq<char>, fmt: Seq<char>) -> Result<
    (i32, u32, u32),
    Seq<char>,
>;

/// Trusted: `chrono::NaiveDate::parse_from_str(s, fmt)`; on success the
/// date's year, month and day (`Datelike`), on failure the error's text.
/// Claimed beyond the name: a parsed month lies in 1..=12, a day in 1..=31,
/// and a year within `NaiveDate`'s range, -262143..=262142.
#[verifier::external_body]
fn date_fields(s: &str, fmt: &str) -> (r: Result<(i32, u32, u32), String>)
    ensures
        match r {
            Ok(t) => date_fields_of(s@, fmt@) == Ok::<(i32, u32, u32), Seq<char>>(t) && 1 <= t.1
                <= 12 && 1 <= t.2 <= 31 && -262_143 <= t.0 <= 262_142,
            Err(e) => date_fields_of(s@, fmt@) == Err::<(i32, u32, u32), Seq<char>>(e@),
        },
{
    match chrono::NaiveDate::parse_from_str(s, fmt) {
        Ok(d) => Ok((
            chrono::Datelike::year(&d),
            chrono::Datelike::month(&d),
            chrono::Datelike::day(&d),
        )),
        Err(e) => Err(e.to_string()),
    }
}

/// The text chrono formats the instant `t` (Unix seconds, UTC) to under
/// `fmt`, when `t` is within chrono's range.
pub uninterp spec fn utc_text_of(t: i64, fmt: Seq<char>) -> Option<Seq<char>>;

/// The last `w` decimal digits of `v`, zero-padded.
pub open spec fn digits_of(v: int, w: nat) -> Seq<char>
    decreases w,
{
    if w == 0 {
        Seq::empty()
    } else {
        digits_of(v / 10, (w - 1) as nat).push(digit_char(v % 10))
    }
}

/// The instant `t` (Unix seconds) in UTC as `YYYY-MM-DD`, followed by
/// `THH:MM:SSZ` when `with_time`.
pub open spec fn utc_iso_text(t: int, with_time: bool) -> Seq<char> {
    let (y, m, d) = civil_date(t / 86_400);
    let r = t % 86_400;
    digits_of(y, 4) + "-"@ + digits_of(m, 2) + "-"@ + digits_of(d, 2) + if with_time {
        "T"@ + digits_of(r / 3600, 2) + ":"@ + digits_of(r % 3600 / 60, 2) + ":"@ + digits_of(
            r % 60,
            2,
        ) + "Z"@
    } else {
        Seq::empty()
    }
}

/// The instants of the years 0 to 9999, which `%Y` writes as four digits.
pub open spec fn four_digit_year(t: int) -> bool {
    -62_167_219_200 <= t <= 253_402_300_799
}

/// Trusted: `chrono::DateTime::from_timestamp(t, 0)` formatted with `fmt`;
/// `None` when chrono has no instant for `t`. Only the two formats the
/// engine writes are admitted, so the formatting cannot fail. Claimed beyond
/// the name: in the years 0 to 9999 chrono has the instant, and the text is
/// the proleptic Gregorian date of `t` (days floored) with `%Y` four digits
/// and `%m %d %H %M %S` two, zero-padded (chrono's `write_year`/`write_two`).
/// Outside those years (where `%Y` carries a sign) the text is only named.
#[verifier::external_body]
fn utc_text(t: i64, fmt: &str) -> (r: Option<String>)
    requires
        fmt@ == "%Y-%m-%dT%H:%M:%SZ"@ || fmt@ == "%Y-%m-%d"@,
    ensures
        match r {
            Some(x) => utc_text_of(t, fmt@) == Some(x@),
            None => utc_text_of(t, fmt@) is None,
        },
        four_digit_year(t as int) ==> r is Some && r.unwrap()@ == utc_iso_text(
            t as int,
            fmt@ == "%Y-%m-%dT%H:%M:%SZ"@,
        ),
{
    match chrono::DateTime::from_timestamp(t, 0) {
        Some(dt) => Some(dt.format(fmt).to_string()),
        None => None,
    }
}

/// A timestamp that is either RFC 3339 or a bare `YYYY-MM-DD` date; a bare
/// date is taken as 12:00 UTC that day. Surrounding whitespace is ignored.
pub open spec fn parse_ts_of(s: Seq<char>) -> Result<int, Seq<char>> {
    let t = trim(s);
    if t.len() == 0 {
        Err("empty timestamp"@)
    } else {
        match rfc3339_seconds_of(t) {
            Some(v) => Ok(v as int),
            None => match date_fields_of(t, "%Y-%m-%d"@) {
                Ok((y, m, d)) => Ok(civil_days(y as int, m as int, d as int) * 86_400 + 43_200),
                Err(e) => Err("bad timestamp '"@ + t + "': "@ + e),
            },
        }
    }
}

/// Parse an RFC 3339 timestamp or a bare date (taken at 12:00 UTC) into Unix
/// seconds.
pub fn parse_ts(s: &str) -> (r: Result<i64, String>)
    ensures
        match r {
            Ok(v) => parse_ts_of(s@) == Ok::<int, Seq<char>>(v as int),
            Err(e) => parse_ts_of(s@) == Err::<int, Seq<char>>(e@),
        },
{
    let cs = chars_of(s);
    proof {
        assert(cs@.subrange(0, cs@.len() as int) =~= cs@);
    }
    let (a, b) = trim_window(&cs, 0, cs.len());
    if a == b {
        return Err(owned("empty timestamp"));
    }
    let t = string_of(&cs, a, b);
    match rfc3339_seconds(t.as_str()) {
        Some(v) => Ok(v),
        None => match date_fields(t.as_str(), "%Y-%m-%d") {
            Ok((y, m, d)) => {
                proof {
                    lemma_civil_small(y as int, m as int, d as int);
                }
                let days = days_from_civil(y as i64, m as i64, d as i64);
                Ok(days * 86_400 + 43_200)
            },
            Err(e) => {
                let mut msg = owned("bad timestamp '");
                msg.append(t.as_str());
                msg.append("': ");
                msg.append(e.as_str());
                Err(msg)
            },
        },
    }
}

pub open spec fn text_or_empty(v: Option<Seq<char>>) -> Seq<char> {
    match v {
        Some(x) => x,
        None => Seq::empty(),
    }
}

/// A Unix timestamp as RFC 3339 UTC with second precision ("" outside
/// chrono's range).
pub fn fmt_ts(t: i64) -> (r: String)
    ensures
        r@ == text_or_empty(utc_text_of(t, "%Y-%m-%dT%H:%M:%SZ"@)),
        four_digit_year(t as int) ==> r@ == utc_iso_text(t as int, true),
{
    match utc_text(t, "%Y-%m-%dT%H:%M:%SZ") {
        Some(x) => x,
        None => String::new(),
    }
}

/// A Unix timestamp as a bare UTC date ("" outside chrono's range).
pub fn fmt_date(t: i64) -> (r: String)
    ensures
        r@ == text_or_empty(utc_text_of(t, "%Y-%m-%d"@)),
        four_digit_year(t as int) ==> r@ == utc_iso_text(t as int, false),
{
    proof {
        reveal_strlit("%Y-%m-%d");
        reveal_strlit("%Y-%m-%dT%H:%M:%SZ");
        assert("%Y-%m-%d"@.len() != "%Y-%m-%dT%H:%M:%SZ"@.len());
    }
    match utc_text(t, "%Y-%m-%d") {
        Some(x) => x,
        None => String::new(),
    }
}

/// The dates of the earliest start and the latest end; both empty when
/// either list is.
pub fn span(starts: &[i64], ends: &[i64]) -> (r: (String, String))
    ensures
        starts@.len() > 0 && ends@.len() > 0 ==> r.0@ == text_or_empty(
            utc_text_of(seq_min(starts@), "%Y-%m-%d"@),
        ) && r.1@ == text_or_empty(utc_text_of(seq_max(ends@), "%Y-%m-%d"@)),
        !(starts@.len() > 0 && ends@.len() > 0) ==> r.0@ == Seq::<char>::empty() && r.1@
            == Seq::<char>::empty(),
{
    if starts.len() > 0 && ends.len() > 0 {
        (fmt_date(min_of(starts)), fmt_date(max_of(ends)))
    } else {
        (String::new(), String::new())
    }
}


// ---------------------------------------------------------------------------
// Which policy files a run covers
// ---------------------------------------------------------------------------

/// A policy file's sort key: its place in the reading order, then its name.
pub open spec fn policy_key(stem: Seq<char>) -> (nat, Seq<char>) {
    (order_of_spec(policy_name_of(stem)), policy_name_of(stem))
}

/// `a <= b` for sort keys, as tuples compare.
pub open spec fn key_le(a: (nat, Seq<char>), b: (nat, Seq<char>)) -> bool {
    a.0 < b.0 || (a.0 == b.0 && lex_le(a.1, b.1))
}

proof fn lemma_key_total(a: (nat, Seq<char>), b: (nat, Seq<char>))
    ensures
        key_le(a, b) || key_le(b, a),
{
    lemma_lex_total(a.1, b.1);
}

proof fn lemma_key_trans(a: (nat, Seq<char>), b: (nat, Seq<char>), c: (nat, Seq<char>))
    requires
        key_le(a, b),
        key_le(b, c),
    ensures
        key_le(a, c),
{
    if a.0 == b.0 && b.0 == c.0 {
        lemma_lex_trans(a.1, b.1, c.1);
    }
}

/// Whether the selection `want` takes the policy file `stem`: every file
/// for `all`, otherwise the files of the policy named `want`.
pub open spec fn picked(stem: Seq<char>, want: Seq<char>) -> bool {
    want == "all"@ || policy_name_of(stem) == want
}

/// `r` lists, as indices into `stems`, each picked file exactly once, in
/// key order, files with equal keys in the order they were listed.
pub open spec fn arranged(stems: Seq<Seq<char>>, want: Seq<char>, r: Seq<usize>) -> bool {
    &&& forall|x: int| 0 <= x < r.len() ==> r[x] < stems.len() && picked(stems[r[x] as int], want)
    &&& forall|i: int|
        0 <= i < stems.len() && picked(stems[i], want) ==> r.contains(i as usize)
    &&& forall|a: int, b: int|
        #![trigger r[a], r[b]]
        0 <= a < b < r.len() ==> key_le(policy_key(stems[r[a] as int]), policy_key(stems[r[b] as int]))
            && (key_le(policy_key(stems[r[b] as int]), policy_key(stems[r[a] as int])) ==> r[a] < r[b])
}

/// Inserting the next picked file at the first place whose key exceeds its
/// own keeps the picks arranged.
proof fn lemma_insert_sorted(ss: Seq<Seq<char>>, want: Seq<char>, o: Seq<usize>, p: int, i: int)
    requires
        0 <= p <= o.len(),
        0 <= i < ss.len(),
        i <= usize::MAX,
        picked(ss[i], want),
        forall|x: int| 0 <= x < o.len() ==> o[x] < i && picked(ss[o[x] as int], want),
        forall|j: int| 0 <= j < i && picked(ss[j], want) ==> o.contains(j as usize),
        forall|a: int, b: int|
            #![trigger o[a], o[b]]
            0 <= a < b < o.len() ==> key_le(policy_key(ss[o[a] as int]), policy_key(ss[o[b] as int]))
                && (key_le(policy_key(ss[o[b] as int]), policy_key(ss[o[a] as int])) ==> o[a] < o[b]),
        forall|k: int| 0 <= k < p ==> key_le(policy_key(ss[o[k] as int]), policy_key(ss[i])),
        p < o.len() ==> !key_le(policy_key(ss[o[p] as int]), policy_key(ss[i])),
    ensures
        ({
            let n = o.insert(p, i as usize);
            &&& forall|x: int| 0 <= x < n.len() ==> n[x] < i + 1 && picked(ss[n[x] as int], want)
            &&& forall|j: int| 0 <= j < i + 1 && picked(ss[j], want) ==> n.contains(j as usize)
            &&& forall|a: int, b: int|
                #![trigger n[a], n[b]]
                0 <= a < b < n.len() ==> key_le(policy_key(ss[n[a] as int]), policy_key(ss[n[b] as int]))
                    && (key_le(policy_key(ss[n[b] as int]), policy_key(ss[n[a] as int])) ==> n[a] < n[b])
        }),
{
    let n = o.insert(p, i as usize);
    let xk = policy_key(ss[i]);
    assert forall|x: int| 0 <= x < n.len() implies n[x] < i + 1 && picked(ss[n[x] as int], want) by {
        if x < p {
            assert(n[x] == o[x]);
        } else if x > p {
            assert(n[x] == o[x - 1]);
        }
    }
    assert forall|j: int| 0 <= j < i + 1 && picked(ss[j], want) implies n.contains(j as usize) by {
        if j < i {
            let x = choose|x: int| 0 <= x < o.len() && o[x] == j as usize;
            if x < p {
                assert(n[x] == j as usize);
            } else {
                assert(n[x + 1] == j as usize);
            }
        } else {
            assert(n[p] == j as usize);
        }
    }
    assert forall|a: int, b: int|
        #![trigger n[a], n[b]]
        0 <= a < b < n.len() implies key_le(policy_key(ss[n[a] as int]), policy_key(ss[n[b] as int]))
            && (key_le(policy_key(ss[n[b] as int]), policy_key(ss[n[a] as int])) ==> n[a] < n[b]) by {
        let ka = policy_key(ss[n[a] as int]);
        let kb = policy_key(ss[n[b] as int]);
        if b < p {
            assert(n[a] == o[a] && n[b] == o[b]);
        } else if b == p {
            assert(n[a] == o[a]);
            assert(n[b] == i);
        } else if a < p {
            assert(n[a] == o[a] && n[b] == o[b - 1]);
        } else if a == p {
            assert(n[a] == i && n[b] == o[b - 1]);
            let kp = policy_key(ss[o[p] as int]);
            lemma_key_total(kp, xk);
            if b - 1 > p {
                assert(key_le(kp, kb));
            } else {
                lemma_lex_refl(kp.1);
            }
            lemma_key_trans(xk, kp, kb);
            if key_le(kb, xk) {
                lemma_key_trans(kp, kb, xk);
            }
        } else {
            assert(n[a] == o[a - 1] && n[b] == o[b - 1]);
        }
    }
}

/// The policy files a run covers, as indices into `stems` (the stems of
/// the policy directory's files, in the order they were listed), ordered by
/// the reading order of their policies and then by name. `None` when `want`
/// is a policy name that no file carries.
pub fn select_policies(stems: &[String], want: &str) -> (r: Option<Vec<usize>>)
    ensures
        match r {
            Some(v) => arranged(views(stems@), want@, v@),
            None => want@ != "all"@ && forall|i: int|
                0 <= i < stems@.len() ==> policy_name_of(#[trigger] stems@[i]@) != want@,
        },
{
    let ghost ss = views(stems@);
    let mut keys: Vec<(usize, String)> = Vec::new();
    let mut i: usize = 0;
    while i < stems.len()
        invariant
            i <= stems@.len(),
            ss == views(stems@),
            keys@.len() == i,
            forall|j: int| 0 <= j < i ==> (keys@[j].0 as nat, keys@[j].1@) == policy_key(ss[j]),
        decreases stems.len() - i,
    {
        let name = policy_name(stems[i].as_str());
        let o = order_of(name.as_str());
        keys.push((o, name));
        i += 1;
    }
    let all = str_eq(want, "all");
    let mut out: Vec<usize> = Vec::new();
    let mut i: usize = 0;
    while i < stems.len()
        invariant
            i <= stems@.len(),
            ss == views(stems@),
            keys@.len() == stems@.len(),
            forall|j: int| 0 <= j < stems@.len() ==> (keys@[j].0 as nat, keys@[j].1@) == policy_key(ss[j]),
            all == (want@ == "all"@),
            forall|x: int| 0 <= x < out@.len() ==> out@[x] < i && picked(ss[out@[x] as int], want@),
            forall|j: int| 0 <= j < i && picked(ss[j], want@) ==> out@.contains(j as usize),
            forall|a: int, b: int|
                #![trigger out@[a], out@[b]]
                0 <= a < b < out@.len() ==> key_le(policy_key(ss[out@[a] as int]), policy_key(ss[out@[b] as int]))
                    && (key_le(policy_key(ss[out@[b] as int]), policy_key(ss[out@[a] as int])) ==> out@[a] < out@[b]),
        decreases stems.len() - i,
    {
        let take = all || str_eq(keys[i].1.as_str(), want);
        proof {
            assert(keys@[i as int].1@ == policy_name_of(ss[i as int]));
        }
        if take {
            let ghost xk = policy_key(ss[i as int]);
            let mut p: usize = 0;
            while p < out.len() && (keys[out[p]].0 < keys[i].0 || (keys[out[p]].0 == keys[i].0
                && str_le_exec(keys[out[p]].1.as_str(), keys[i].1.as_str())))
                invariant
                    p <= out@.len(),
                    i < stems@.len(),
                    keys@.len() == stems@.len(),
                    forall|j: int| 0 <= j < stems@.len() ==> (keys@[j].0 as nat, keys@[j].1@) == policy_key(ss[j]),
                    forall|x: int| 0 <= x < out@.len() ==> out@[x] < i,
                    xk == policy_key(ss[i as int]),
                    forall|k: int| 0 <= k < p ==> key_le(policy_key(ss[out@[k] as int]), xk),
                decreases out.len() - p,
            {
                p += 1;
            }
            let ghost old_out = out@;
            out.insert(p, i);
            proof {
                lemma_insert_sorted(ss, want@, old_out, p as int, i as int);
            }
        }
        i += 1;
    }
    if !all && out.len() == 0 {
        proof {
            assert forall|j: int| 0 <= j < stems@.len() implies policy_name_of(#[trigger] stems@[j]@) != want@ by {
                assert(ss[j] == stems@[j]@);
                if policy_name_of(stems@[j]@) == want@ {
                    assert(picked(ss[j], want@));
                    assert(out@.contains(j as usize));
                }
            }
        }
        return None;
    }
    Some(out)
}

} // verus!
