//! Execution policies: what makes a policy file coherent, and which taker
//! rate a trade on a given asset is charged.
//!
//! A policy here holds what those rules read: the method and rule names,
//! which optional numbers are present, the entry sides and the fee tables.
//! The numbers themselves stay with the simulator; of each fee rate the
//! policy keeps the text it was written as and whether it lies in [0, 1].
use vstd::prelude::*;

use crate::engine::FeeModel;
use crate::text::{
    ascii_lower, first_index, lemma_first_index, lemma_first_index_is, lemma_first_index_none,
    owned, starts_with, str_eq, str_starts_with, to_ascii_lower, trim, trim_window, chars_of,
    string_of,
};

verus! {

/// One entry of the category → taker rate table.
pub struct FeeRate {
    pub category: String,
    /// The rate as the policy file wrote it.
    pub rate: String,
    /// Whether the rate lies in [0, 1].
    pub in_range: bool,
}

/// The fee part of a policy.
pub struct Costs {
    pub fee_model: FeeModel,
    /// Whether the legacy flat `fee_bps` is negative.
    pub fee_bps_negative: bool,
    /// Category → taker rate, in category order.
    pub fee_rate: Vec<FeeRate>,
    /// The fallback rate for unmapped assets, if declared: its text and
    /// whether it lies in [0, 1].
    pub fee_rate_default: Option<(String, bool)>,
    /// Asset key → category, in key order.
    pub asset_category: Vec<(String, String)>,
}

/// Where a trade's taker rate comes from.
#[derive(Clone, Copy, PartialEq, Eq, Structural, Debug)]
pub enum RateSource {
    /// The policy charges no venue fee: the rate is zero, and that counts as
    /// mapped.
    Free,
    /// The rate of `fee_rate[i]`, reached through the asset's category.
    Category(usize),
    /// No mapping: the `fee_rate_default` fallback (zero if undeclared).
    Fallback,
}

pub open spec fn keyed(c: Costs, key: Seq<char>) -> spec_fn(int) -> bool {
    |i: int| c.asset_category@[i].0@ == key
}

pub open spec fn named(c: Costs, cat: Seq<char>) -> spec_fn(int) -> bool {
    |j: int| c.fee_rate@[j].category@ == cat
}

/// The index of the asset-category entry for `key`.
pub open spec fn category_entry(c: Costs, key: Seq<char>) -> Option<int> {
    first_index(c.asset_category@.len() as int, keyed(c, key))
}

/// The index of the rate entry for category `cat`.
pub open spec fn rate_entry(c: Costs, cat: Seq<char>) -> Option<int> {
    first_index(c.fee_rate@.len() as int, named(c, cat))
}

/// The asset's key is trimmed and lowered; its category, if mapped, must
/// itself have a rate.
pub open spec fn rate_source_of(c: Costs, asset: Seq<char>) -> RateSource {
    if c.fee_model == FeeModel::Free {
        RateSource::Free
    } else {
        match category_entry(c, ascii_lower(trim(asset))) {
            Some(i) => match rate_entry(c, c.asset_category@[i].1@) {
                Some(j) => RateSource::Category(j as usize),
                None => RateSource::Fallback,
            },
            None => RateSource::Fallback,
        }
    }
}

fn find_category(c: &Costs, key: &str) -> (r: Option<usize>)
    ensures
        match r {
            Some(i) => category_entry(*c, key@) == Some(i as int) && i < c.asset_category@.len(),
            None => category_entry(*c, key@) is None,
        },
{
    let ghost p = keyed(*c, key@);
    let mut i: usize = 0;
    while i < c.asset_category.len()
        invariant
            i <= c.asset_category@.len(),
            p == keyed(*c, key@),
            forall|j: int| 0 <= j < i ==> !#[trigger] p(j),
        decreases c.asset_category.len() - i,
    {
        if str_eq(c.asset_category[i].0.as_str(), key) {
            proof {
                lemma_first_index_is(c.asset_category@.len() as int, p, i as int);
            }
            return Some(i);
        }
        i += 1;
    }
    proof {
        lemma_first_index_none(c.asset_category@.len() as int, p);
    }
    None
}

fn find_rate(c: &Costs, cat: &str) -> (r: Option<usize>)
    ensures
        match r {
            Some(i) => rate_entry(*c, cat@) == Some(i as int) && i < c.fee_rate@.len(),
            None => rate_entry(*c, cat@) is None,
        },
{
    let ghost p = named(*c, cat@);
    let mut j: usize = 0;
    while j < c.fee_rate.len()
        invariant
            j <= c.fee_rate@.len(),
            p == named(*c, cat@),
            forall|k: int| 0 <= k < j ==> !#[trigger] p(k),
        decreases c.fee_rate.len() - j,
    {
        if str_eq(c.fee_rate[j].category.as_str(), cat) {
            proof {
                lemma_first_index_is(c.fee_rate@.len() as int, p, j as int);
            }
            return Some(j);
        }
        j += 1;
    }
    proof {
        lemma_first_index_none(c.fee_rate@.len() as int, p);
    }
    None
}

pub open spec fn unrated(c: Costs) -> spec_fn(int) -> bool {
    |i: int| rate_entry(c, c.asset_category@[i].1@) is None
}

pub open spec fn bad_rate(c: Costs) -> spec_fn(int) -> bool {
    |i: int| !c.fee_rate@[i].in_range
}

/// The first asset-category entry whose category has no rate.
pub open spec fn unrated_entry(c: Costs) -> Option<int> {
    first_index(c.asset_category@.len() as int, unrated(c))
}

/// The first rate outside [0, 1].
pub open spec fn bad_rate_entry(c: Costs) -> Option<int> {
    first_index(c.fee_rate@.len() as int, bad_rate(c))
}

/// Why a policy's fee model cannot be trusted, if it cannot: a negative flat
/// fee, a rate outside [0, 1], or — under the taker model — a missing rate
/// table, a missing or bad fallback rate, or a category without a rate.
pub open spec fn fee_error_of(c: Costs) -> Option<Seq<char>> {
    if c.fee_bps_negative {
        Some("costs.fee_bps must not be negative"@)
    } else {
        match bad_rate_entry(c) {
            Some(i) => Some(
                "costs.fee_rate."@ + c.fee_rate@[i].category@ + " = "@ + c.fee_rate@[i].rate@
                    + " is not a rate in [0,1]"@,
            ),
            None => if c.fee_model == FeeModel::Free {
                None
            } else if c.fee_rate@.len() == 0 {
                Some("costs.fee_model = polymarket-taker needs a [costs.fee_rate] table"@)
            } else {
                match c.fee_rate_default {
                    None => Some(
                        "costs.fee_model = polymarket-taker needs costs.fee_rate_default, so an unmapped asset cannot trade fee-free by accident"@,
                    ),
                    Some(d) => if !d.1 {
                        Some("costs.fee_rate_default = "@ + d.0@ + " is not a rate in [0,1]"@)
                    } else {
                        match unrated_entry(c) {
                            Some(i) => Some(
                                "costs.asset_category."@ + c.asset_category@[i].0@ + " = '"@
                                    + c.asset_category@[i].1@ + "' has no rate in [costs.fee_rate]"@,
                            ),
                            None => None,
                        }
                    },
                }
            },
        }
    }
}

impl Costs {
    /// Which rate a trade on `asset` pays.
    pub fn fee_rate_for(&self, asset: &str) -> (r: RateSource)
        ensures
            r == rate_source_of(*self, asset@),
    {
        if self.fee_model == FeeModel::Free {
            return RateSource::Free;
        }
        let cs = chars_of(asset);
        proof {
            assert(cs@.subrange(0, cs@.len() as int) =~= cs@);
        }
        let (a, b) = trim_window(&cs, 0, cs.len());
        let t = string_of(&cs, a, b);
        let key = to_ascii_lower(t.as_str());
        proof {
            assert(cs@.subrange(0, cs@.len() as int) =~= asset@);
        }
        match find_category(self, key.as_str()) {
            Some(i) => match find_rate(self, self.asset_category[i].1.as_str()) {
                Some(j) => RateSource::Category(j),
                None => RateSource::Fallback,
            },
            None => RateSource::Fallback,
        }
    }

    fn first_bad_rate(&self) -> (r: Option<usize>)
        ensures
            match r {
                Some(i) => bad_rate_entry(*self) == Some(i as int) && i < self.fee_rate@.len(),
                None => bad_rate_entry(*self) is None,
            },
    {
        let ghost p = bad_rate(*self);
        let mut i: usize = 0;
        while i < self.fee_rate.len()
            invariant
                i <= self.fee_rate@.len(),
                p == bad_rate(*self),
                forall|j: int| 0 <= j < i ==> !#[trigger] p(j),
            decreases self.fee_rate.len() - i,
        {
            if !self.fee_rate[i].in_range {
                proof {
                    lemma_first_index_is(self.fee_rate@.len() as int, p, i as int);
                }
                return Some(i);
            }
            i += 1;
        }
        proof {
            lemma_first_index_none(self.fee_rate@.len() as int, p);
        }
        None
    }

    fn first_unrated(&self) -> (r: Option<usize>)
        ensures
            match r {
                Some(i) => unrated_entry(*self) == Some(i as int) && i < self.asset_category@.len(),
                None => unrated_entry(*self) is None,
            },
    {
        let ghost p = unrated(*self);
        let mut i: usize = 0;
        while i < self.asset_category.len()
            invariant
                i <= self.asset_category@.len(),
                p == unrated(*self),
                forall|j: int| 0 <= j < i ==> !#[trigger] p(j),
            decreases self.asset_category.len() - i,
        {
            if find_rate(self, self.asset_category[i].1.as_str()).is_none() {
                proof {
                    lemma_first_index_is(self.asset_category@.len() as int, p, i as int);
                }
                return Some(i);
            }
            i += 1;
        }
        proof {
            lemma_first_index_none(self.asset_category@.len() as int, p);
        }
        None
    }

    /// A fee model that can silently charge nothing is worse than none: the
    /// taker model loads only when every rate it could need is declared.
    pub fn validate_fees(&self) -> (r: Result<(), String>)
        ensures
            match fee_error_of(*self) {
                Some(e) => r matches Err(x) && x@ == e,
                None => r is Ok,
            },
    {
        if self.fee_bps_negative {
            return Err(owned("costs.fee_bps must not be negative"));
        }
        match self.first_bad_rate() {
            Some(i) => {
                let mut e = owned("costs.fee_rate.");
                e.append(self.fee_rate[i].category.as_str());
                e.append(" = ");
                e.append(self.fee_rate[i].rate.as_str());
                e.append(" is not a rate in [0,1]");
                return Err(e);
            },
            None => {},
        }
        if self.fee_model == FeeModel::Free {
            return Ok(());
        }
        if self.fee_rate.len() == 0 {
            return Err(owned("costs.fee_model = polymarket-taker needs a [costs.fee_rate] table"));
        }
        match &self.fee_rate_default {
            None => {
                return Err(
                    owned(
                        "costs.fee_model = polymarket-taker needs costs.fee_rate_default, so an unmapped asset cannot trade fee-free by accident",
                    ),
                );
            },
            Some(d) => {
                if !d.1 {
                    let mut e = owned("costs.fee_rate_default = ");
                    e.append(d.0.as_str());
                    e.append(" is not a rate in [0,1]");
                    return Err(e);
                }
            },
        }
        match self.first_unrated() {
            Some(i) => {
                let mut e = owned("costs.asset_category.");
                e.append(self.asset_category[i].0.as_str());
                e.append(" = '");
                e.append(self.asset_category[i].1.as_str());
                e.append("' has no rate in [costs.fee_rate]");
                Err(e)
            },
            None => Ok(()),
        }
    }
}

/// What policy validation reads of a policy file.
pub struct Policy {
    pub name: String,
    /// `best-improvement` or `single:<family>/<variant>`.
    pub combine_method: String,
    /// The entry sides as written.
    pub sides: Vec<String>,
    /// `flat` or `fractional-kelly`.
    pub sizing_method: String,
    pub has_stake_usd: bool,
    pub has_kelly_fraction: bool,
    /// `hold-to-resolution` or `take-profit`.
    pub exit_rule: String,
    pub has_close_fraction: bool,
    pub costs: Costs,
}

pub open spec fn quoted(before: Seq<char>, x: Seq<char>, after: Seq<char>) -> Seq<char> {
    before + x + after
}

pub open spec fn sizing_error_of(p: Policy) -> Option<Seq<char>> {
    let m = p.sizing_method@;
    if m == "flat"@ {
        if p.has_stake_usd {
            None
        } else {
            Some("sizing.method = flat needs stake_usd"@)
        }
    } else if m == "fractional-kelly"@ {
        if p.has_kelly_fraction {
            None
        } else {
            Some("sizing.method = fractional-kelly needs kelly_fraction"@)
        }
    } else {
        Some(quoted("unknown sizing.method '"@, m, "'"@))
    }
}

pub open spec fn exit_error_of(p: Policy) -> Option<Seq<char>> {
    let r = p.exit_rule@;
    if r == "hold-to-resolution"@ {
        None
    } else if r == "take-profit"@ {
        if p.has_close_fraction {
            None
        } else {
            Some("exit.rule = take-profit needs close_fraction"@)
        }
    } else {
        Some(quoted("unknown exit.rule '"@, r, "'"@))
    }
}

pub open spec fn combine_error_of(p: Policy) -> Option<Seq<char>> {
    let m = p.combine_method@;
    if m == "best-improvement"@ || starts_with(m, "single:"@) {
        None
    } else {
        Some(
            quoted(
                "unsupported combine.method '"@,
                m,
                "' (supported: best-improvement, single:<family>/<variant>)"@,
            ),
        )
    }
}

pub open spec fn known_side(s: Seq<char>) -> bool {
    ascii_lower(s) == "buy"@ || ascii_lower(s) == "sell"@
}

pub open spec fn side_error_of(p: Policy) -> Option<Seq<char>> {
    match first_index(p.sides@.len() as int, |i: int| !known_side(p.sides@[i]@)) {
        Some(i) => Some(quoted("unknown entry side '"@, ascii_lower(p.sides@[i]@), "'"@)),
        None => None,
    }
}

/// Why a policy is incoherent, checked in this order: its sizing method,
/// its exit rule, its combine method, its entry sides, its fee model.
pub open spec fn policy_error_of(p: Policy) -> Option<Seq<char>> {
    if sizing_error_of(p) is Some {
        sizing_error_of(p)
    } else if exit_error_of(p) is Some {
        exit_error_of(p)
    } else if combine_error_of(p) is Some {
        combine_error_of(p)
    } else if side_error_of(p) is Some {
        side_error_of(p)
    } else {
        fee_error_of(p.costs)
    }
}

fn message(before: &str, x: &str, after: &str) -> (r: String)
    ensures
        r@ == quoted(before@, x@, after@),
{
    let mut e = owned(before);
    e.append(x);
    e.append(after);
    e
}

impl Policy {
    /// The entry sides, lowered.
    pub fn sides_normalized(&self) -> (r: Vec<String>)
        ensures
            r@.len() == self.sides@.len(),
            forall|i: int| 0 <= i < r@.len() ==> #[trigger] r@[i]@ == ascii_lower(self.sides@[i]@),
    {
        let mut out: Vec<String> = Vec::new();
        let mut i: usize = 0;
        while i < self.sides.len()
            invariant
                i <= self.sides@.len(),
                out@.len() == i,
                forall|j: int| 0 <= j < i ==> #[trigger] out@[j]@ == ascii_lower(self.sides@[j]@),
            decreases self.sides.len() - i,
        {
            out.push(to_ascii_lower(self.sides[i].as_str()));
            i += 1;
        }
        out
    }

    /// A policy loads only when it is coherent: a known sizing method with
    /// the number it needs, a known exit rule with the number it needs, a
    /// supported combine method, only buy and sell sides, and a fee model
    /// that cannot silently charge nothing.
    pub fn validate(&self) -> (r: Result<(), String>)
        ensures
            match policy_error_of(*self) {
                Some(e) => r matches Err(x) && x@ == e,
                None => r is Ok,
            },
    {
        let m = self.sizing_method.as_str();
        if str_eq(m, "flat") {
            if !self.has_stake_usd {
                return Err(owned("sizing.method = flat needs stake_usd"));
            }
        } else if str_eq(m, "fractional-kelly") {
            if !self.has_kelly_fraction {
                return Err(owned("sizing.method = fractional-kelly needs kelly_fraction"));
            }
        } else {
            return Err(message("unknown sizing.method '", m, "'"));
        }
        let x = self.exit_rule.as_str();
        if str_eq(x, "hold-to-resolution") {
        } else if str_eq(x, "take-profit") {
            if !self.has_close_fraction {
                return Err(owned("exit.rule = take-profit needs close_fraction"));
            }
        } else {
            return Err(message("unknown exit.rule '", x, "'"));
        }
        let c = self.combine_method.as_str();
        if !(str_eq(c, "best-improvement") || str_starts_with(c, "single:")) {
            return Err(
                message(
                    "unsupported combine.method '",
                    c,
                    "' (supported: best-improvement, single:<family>/<variant>)",
                ),
            );
        }
        let sides = self.sides_normalized();
        let ghost p = |i: int| !known_side(self.sides@[i]@);
        let mut i: usize = 0;
        while i < sides.len()
            invariant
                i <= sides@.len(),
                sides@.len() == self.sides@.len(),
                forall|j: int| 0 <= j < sides@.len() ==> #[trigger] sides@[j]@ == ascii_lower(
                    self.sides@[j]@,
                ),
                p == (|i: int| !known_side(self.sides@[i]@)),
                forall|j: int| 0 <= j < i ==> !#[trigger] p(j),
                sizing_error_of(*self) is None,
                exit_error_of(*self) is None,
                combine_error_of(*self) is None,
            decreases sides.len() - i,
        {
            let s = sides[i].as_str();
            if !str_eq(s, "buy") && !str_eq(s, "sell") {
                proof {
                    assert(sides@[i as int]@ == ascii_lower(self.sides@[i as int]@));
                    assert(p(i as int));
                    lemma_first_index_is(self.sides@.len() as int, p, i as int);
                }
                return Err(message("unknown entry side '", s, "'"));
            }
            i += 1;
        }
        proof {
            lemma_first_index_none(self.sides@.len() as int, p);
        }
        self.costs.validate_fees()
    }
}

/// Under the taker model, a fee table that passed validation prices every
/// trade with a declared rate in [0, 1]: an asset with a category gets that
/// category's rate, and any other asset the declared fallback.
pub proof fn law_validated_taker_fees_leave_no_trade_unpriced(c: Costs, asset: Seq<char>)
    requires
        c.fee_model == FeeModel::PolymarketTaker,
        fee_error_of(c) is None,
        c.fee_rate@.len() <= usize::MAX,
    ensures
        match rate_source_of(c, asset) {
            RateSource::Category(j) => j < c.fee_rate@.len() && c.fee_rate@[j as int].in_range,
            RateSource::Fallback => category_entry(c, ascii_lower(trim(asset))) is None
                && c.fee_rate_default is Some && c.fee_rate_default.unwrap().1,
            RateSource::Free => false,
        },
{
    let key = ascii_lower(trim(asset));
    lemma_first_index(c.fee_rate@.len() as int, bad_rate(c));
    lemma_first_index(c.asset_category@.len() as int, unrated(c));
    lemma_first_index(c.asset_category@.len() as int, keyed(c, key));
    match category_entry(c, key) {
        Some(i) => {
            assert(!unrated(c)(i));
            let cat = c.asset_category@[i].1@;
            lemma_first_index(c.fee_rate@.len() as int, named(c, cat));
            let j = rate_entry(c, cat).unwrap();
            assert(!bad_rate(c)(j));
        },
        None => {},
    }
}


/// `i` is the first entry of the asset-category table for `key`.
pub open spec fn first_key_at(c: Costs, key: Seq<char>, i: int) -> bool {
    &&& 0 <= i < c.asset_category@.len()
    &&& c.asset_category@[i].0@ == key
    &&& forall|x: int| 0 <= x < i ==> c.asset_category@[x].0@ != key
}

/// `j` is the first entry of the rate table for the category `cat`.
pub open spec fn first_rate_at(c: Costs, cat: Seq<char>, j: int) -> bool {
    &&& 0 <= j < c.fee_rate@.len()
    &&& c.fee_rate@[j].category@ == cat
    &&& forall|x: int| 0 <= x < j ==> c.fee_rate@[x].category@ != cat
}

/// A trade on an asset pays its category's rate. Without the venue fee the
/// rate is free. Otherwise, when the asset's key (trimmed, lowered) has a
/// category entry and that category a rate, the rate charged is the first
/// rate entry of exactly that category, the category being the one of the
/// first entry for the key; in every other case the fallback applies.
pub proof fn law_fee_rate_is_the_assets_category_rate(c: Costs, asset: Seq<char>, i: int, j: int)
    requires
        c.fee_rate@.len() <= usize::MAX,
    ensures
        (rate_source_of(c, asset) is Free) == (c.fee_model == FeeModel::Free),
        rate_source_of(c, asset) matches RateSource::Category(k) ==> k < c.fee_rate@.len(),
        c.fee_model != FeeModel::Free && first_key_at(c, ascii_lower(trim(asset)), i)
            && first_rate_at(c, c.asset_category@[i].1@, j) ==> rate_source_of(c, asset)
            == RateSource::Category(j as usize),
        first_key_at(c, ascii_lower(trim(asset)), i) && 0 <= j < c.fee_rate@.len()
            && rate_source_of(c, asset) == RateSource::Category(j as usize) ==> first_rate_at(
            c,
            c.asset_category@[i].1@,
            j,
        ),
        c.fee_model != FeeModel::Free && first_key_at(c, ascii_lower(trim(asset)), i) && (forall|
            x: int,
        | 0 <= x < c.fee_rate@.len() ==> c.fee_rate@[x].category@ != c.asset_category@[i].1@)
            ==> rate_source_of(c, asset) == RateSource::Fallback,
        c.fee_model != FeeModel::Free && (forall|x: int|
            0 <= x < c.asset_category@.len() ==> c.asset_category@[x].0@ != ascii_lower(
                trim(asset),
            )) ==> rate_source_of(c, asset) == RateSource::Fallback,
{
    let key = ascii_lower(trim(asset));
    lemma_first_index(c.asset_category@.len() as int, keyed(c, key));
    match category_entry(c, key) {
        Some(e) => {
            let cat = c.asset_category@[e].1@;
            lemma_first_index(c.fee_rate@.len() as int, named(c, cat));
            if 0 <= i < c.asset_category@.len() && c.asset_category@[i].0@ == key && forall|x: int|
                0 <= x < i ==> c.asset_category@[x].0@ != key {
                if e < i {
                    assert(c.asset_category@[e].0@ == key);
                } else if i < e {
                    assert(keyed(c, key)(i));
                }
                assert(e == i);
                match rate_entry(c, cat) {
                    Some(f) => {
                        if 0 <= j < c.fee_rate@.len() && rate_source_of(c, asset)
                            == RateSource::Category(j as usize) {
                            assert(c.fee_model != FeeModel::Free);
                            assert(f as usize == j as usize);
                            assert(f == j);
                            assert forall|x: int| 0 <= x < j implies c.fee_rate@[x].category@
                                != cat by {
                                assert(!named(c, cat)(x));
                            }
                            assert(first_rate_at(c, cat, j));
                        }
                        if 0 <= j < c.fee_rate@.len() && c.fee_rate@[j].category@ == cat {
                            if f < j {
                                assert(c.fee_rate@[f].category@ == cat);
                            }
                        }
                        if 0 <= j < c.fee_rate@.len() && c.fee_rate@[j].category@ == cat && forall|
                            x: int,
                        | 0 <= x < j ==> c.fee_rate@[x].category@ != cat {
                            if j < f {
                                assert(named(c, cat)(j));
                            }
                            assert(f == j);
                        }
                    },
                    None => {
                        if 0 <= j < c.fee_rate@.len() && c.fee_rate@[j].category@ == cat {
                            assert(named(c, cat)(j));
                        }
                    },
                }
                if forall|x: int| 0 <= x < c.fee_rate@.len() ==> c.fee_rate@[x].category@ != cat {
                    match rate_entry(c, cat) {
                        Some(f) => {
                            assert(c.fee_rate@[f].category@ != cat);
                        },
                        None => {},
                    }
                }
            }
        },
        None => {
            if 0 <= i < c.asset_category@.len() && c.asset_category@[i].0@ == key {
                assert(keyed(c, key)(i));
            }
        },
    }
}

} // verus!
