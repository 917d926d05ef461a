//! The signal-set schema: its column names, where each sits in a header,
//! and the checks that decide whether one row becomes a signal or a
//! warning. A signal here holds every field but the probabilities and book
//! numbers, which the reader checks on its side and reports as one verdict.
use vstd::prelude::*;

use crate::engine::{parse_ts, parse_ts_of};
use crate::number::{dec, push_dec};
use crate::text::{
    ascii_lower, eq_ignore_ascii_case, first_index, lemma_first_index_is, lemma_first_index_none,
    owned, str_eq, to_ascii_lower, trim, trim_window, chars_of,
};

verus! {

/// The required columns, in canonical order.
pub open spec fn header_names() -> Seq<Seq<char>> {
    seq![
        "signal_set"@,
        "t"@,
        "market_slug"@,
        "condition_id"@,
        "outcome"@,
        "token_id"@,
        "family"@,
        "variant"@,
        "model"@,
        "p_model"@,
        "p_market"@,
        "bid"@,
        "ask"@,
        "depth_bid_usd"@,
        "depth_ask_usd"@,
        "resolved_outcome"@,
        "resolved_date"@,
        "synthetic_book"@,
    ]
}

pub open spec fn views(v: Seq<String>) -> Seq<Seq<char>> {
    v.map_values(|s: String| s@)
}

/// The required column names, in canonical order.
pub fn signal_header() -> (r: Vec<String>)
    ensures
        views(r@) == header_names(),
{
    let r = vec![
        owned("signal_set"),
        owned("t"),
        owned("market_slug"),
        owned("condition_id"),
        owned("outcome"),
        owned("token_id"),
        owned("family"),
        owned("variant"),
        owned("model"),
        owned("p_model"),
        owned("p_market"),
        owned("bid"),
        owned("ask"),
        owned("depth_bid_usd"),
        owned("depth_ask_usd"),
        owned("resolved_outcome"),
        owned("resolved_date"),
        owned("synthetic_book"),
    ];
    proof {
        assert(views(r@) =~= header_names());
    }
    r
}

/// The first header cell that, trimmed, is `name`.
pub open spec fn column_of(headers: Seq<Seq<char>>, name: Seq<char>) -> Option<int> {
    first_index(headers.len() as int, |i: int| trim(headers[i]) == name)
}

/// Where the column `name` sits in `headers`.
pub fn column_index(headers: &Vec<String>, name: &str) -> (r: Option<usize>)
    ensures
        match r {
            Some(i) => column_of(views(headers@), name@) == Some(i as int) && i < headers@.len(),
            None => column_of(views(headers@), name@) is None,
        },
{
    let ghost hs = views(headers@);
    let ghost p = |i: int| trim(hs[i]) == name@;
    let mut i: usize = 0;
    while i < headers.len()
        invariant
            i <= headers@.len(),
            hs == views(headers@),
            p == (|i: int| trim(hs[i]) == name@),
            forall|j: int| 0 <= j < i ==> !#[trigger] p(j),
        decreases headers.len() - i,
    {
        let cs = chars_of(headers[i].as_str());
        proof {
            assert(cs@.subrange(0, cs@.len() as int) =~= cs@);
        }
        let (a, b) = trim_window(&cs, 0, cs.len());
        let t = crate::text::string_of(&cs, a, b);
        if str_eq(t.as_str(), name) {
            proof {
                lemma_first_index_is(hs.len() as int, p, i as int);
            }
            return Some(i);
        }
        i += 1;
    }
    proof {
        lemma_first_index_none(hs.len() as int, p);
    }
    None
}

/// The names among `names` that `headers` has no column for, in order.
pub open spec fn absent(headers: Seq<Seq<char>>, names: Seq<Seq<char>>) -> Seq<Seq<char>>
    decreases names.len(),
{
    if names.len() == 0 {
        Seq::empty()
    } else {
        let rest = absent(headers, names.drop_last());
        if column_of(headers, names.last()) is None {
            rest.push(names.last())
        } else {
            rest
        }
    }
}

/// The required columns `headers` lacks, in canonical order.
pub open spec fn missing_of(headers: Seq<Seq<char>>) -> Seq<Seq<char>> {
    absent(headers, header_names())
}

/// `a, b, c`.
pub open spec fn joined(parts: Seq<Seq<char>>) -> Seq<char>
    decreases parts.len(),
{
    if parts.len() == 0 {
        Seq::empty()
    } else if parts.len() == 1 {
        parts[0]
    } else {
        joined(parts.drop_last()) + ", "@ + parts.last()
    }
}

/// The hard error a header earns: every required column it lacks, named.
pub open spec fn header_error_of(headers: Seq<Seq<char>>) -> Option<Seq<char>> {
    if missing_of(headers).len() == 0 {
        None
    } else {
        Some("missing column(s): "@ + joined(missing_of(headers)))
    }
}

/// `None` when every required column is present; otherwise the error that
/// names the missing ones.
pub fn header_error(headers: &Vec<String>) -> (r: Option<String>)
    ensures
        match header_error_of(views(headers@)) {
            Some(e) => r matches Some(x) && x@ == e,
            None => r is None,
        },
{
    let names = signal_header();
    let ghost hs = views(headers@);
    let mut missing = String::new();
    let mut count: usize = 0;
    let mut i: usize = 0;
    while i < names.len()
        invariant
            i <= names@.len(),
            views(names@) == header_names(),
            hs == views(headers@),
            count <= i,
            count == absent(hs, header_names().take(i as int)).len(),
            missing@ == joined(absent(hs, header_names().take(i as int))),
        decreases names.len() - i,
    {
        let ghost before = header_names().take(i as int);
        let ghost name = header_names()[i as int];
        proof {
            assert(header_names().take(i + 1).drop_last() =~= before);
            assert(header_names().take(i + 1).last() == name);
            assert(names@[i as int]@ == name) by {
                assert(views(names@)[i as int] == names@[i as int]@);
            }
        }
        let found = column_index(headers, names[i].as_str());
        if found.is_none() {
            if count > 0 {
                missing.append(", ");
            }
            missing.append(names[i].as_str());
            proof {
                let fl = absent(hs, before);
                assert(fl.push(name).drop_last() =~= fl);
                if fl.len() == 0 {
                    assert(Seq::<char>::empty() + name =~= name);
                }
            }
            count = count + 1;
        }
        i += 1;
    }
    proof {
        assert(header_names().take(header_names().len() as int) =~= header_names());
    }
    if count == 0 {
        None
    } else {
        let mut e = owned("missing column(s): ");
        e.append(missing.as_str());
        Some(e)
    }
}

/// One signal: every field of a row but the probabilities and book numbers.
#[derive(Clone, Debug)]
pub struct Signal {
    pub signal_set: String,
    /// Signal time, Unix seconds UTC.
    pub t: i64,
    pub market_slug: String,
    pub condition_id: String,
    /// The outcome token this probability is for ("Yes" / "No").
    pub outcome: String,
    pub token_id: String,
    pub family: String,
    pub variant: String,
    /// Exact model id that produced the probability.
    pub model: String,
    /// The market's winning outcome label.
    pub resolved_outcome: String,
    /// Resolution time, Unix seconds UTC (a bare date reads as 12:00 UTC).
    pub resolved_at: i64,
    /// True when the row carries no real book and one must be synthesized.
    pub synthetic_book: bool,
    /// Optional attribution key (asset / board); falls back to the market.
    pub asset: String,
}

impl Signal {
    /// Did the token this signal is about end up winning?
    pub fn token_won(&self) -> (r: bool)
        ensures
            r == (ascii_lower(self.outcome@) == ascii_lower(self.resolved_outcome@)),
    {
        eq_ignore_ascii_case(self.outcome.as_str(), self.resolved_outcome.as_str())
    }

    /// Attribution key for the per-asset breakdown.
    pub fn asset_key(&self) -> (r: &str)
        ensures
            r@ == if self.asset@.len() == 0 {
                self.market_slug@
            } else {
                self.asset@
            },
    {
        if self.asset.as_str().is_empty() {
            self.market_slug.as_str()
        } else {
            self.asset.as_str()
        }
    }

    /// The key a market's exposure is capped under: its condition id, or its
    /// slug where the row has none.
    pub fn market_key(&self) -> (r: String)
        ensures
            r@ == if self.condition_id@.len() == 0 {
                self.market_slug@
            } else {
                self.condition_id@
            },
    {
        if self.condition_id.as_str().is_empty() {
            owned(self.market_slug.as_str())
        } else {
            owned(self.condition_id.as_str())
        }
    }

    /// `family/variant`, the firm-wide attribution key for a strategy variant.
    pub fn variant_key(&self) -> (r: String)
        ensures
            r@ == self.family@ + "/"@ + self.variant@,
    {
        let mut r = owned(self.family.as_str());
        r.append("/");
        r.append(self.variant.as_str());
        r
    }
}

/// Whether a `synthetic_book` cell says yes: `1`, `true`, `yes` or `y`, in
/// any ASCII case.
pub open spec fn synthetic_of(cell: Seq<char>) -> bool {
    let l = ascii_lower(cell);
    l == "1"@ || l == "true"@ || l == "yes"@ || l == "y"@
}

pub fn synthetic_flag(cell: &str) -> (r: bool)
    ensures
        r == synthetic_of(cell@),
{
    let l = to_ascii_lower(cell);
    str_eq(l.as_str(), "1") || str_eq(l.as_str(), "true") || str_eq(l.as_str(), "yes") || str_eq(
        l.as_str(),
        "y",
    )
}

/// The warning a row earns instead of becoming a signal, checked in this
/// order: its time, its resolution time, its probabilities (`probs_ok`, the
/// reader's verdict that both lie in [0, 1]), its winning outcome.
/// `cells` are the row's required cells, trimmed, in canonical order.
pub open spec fn row_warning(cells: Seq<Seq<char>>, probs_ok: bool, line: nat) -> Option<
    Seq<char>,
> {
    let pre = "line "@ + dec(line) + ": "@;
    match parse_ts_of(cells[1]) {
        Err(e) => Some(pre + e + " \u{2014} row skipped"@),
        Ok(_) => match parse_ts_of(cells[16]) {
            Err(e) => Some(pre + "resolved_date: "@ + e + " \u{2014} row skipped"@),
            Ok(_) => if !probs_ok {
                Some(pre + "p_model/p_market not probabilities"@ + " \u{2014} row skipped"@)
            } else if cells[15].len() == 0 {
                Some(pre + "no resolved_outcome"@ + " \u{2014} row skipped"@)
            } else {
                None
            },
        },
    }
}

fn warning(line: u64, middle: &str) -> (r: String)
    ensures
        r@ == "line "@ + dec(line as nat) + ": "@ + middle@ + " \u{2014} row skipped"@,
{
    let mut w = owned("line ");
    push_dec(&mut w, line);
    w.append(": ");
    w.append(middle);
    w.append(" \u{2014} row skipped");
    w
}

/// One row of a signal set: the signal it stands for, or the warning that
/// says why it was skipped. `cells` holds the row's required cells, trimmed,
/// in canonical order; `asset` the optional attribution cell.
pub fn read_signal_row(cells: &Vec<String>, asset: String, probs_ok: bool, line: u64) -> (r:
    Result<Signal, String>)
    requires
        cells@.len() == 18,
    ensures
        match r {
            Ok(s) => {
                &&& row_warning(views(cells@), probs_ok, line as nat) is None
                &&& s.signal_set@ == cells@[0]@
                &&& parse_ts_of(cells@[1]@) == Ok::<int, Seq<char>>(s.t as int)
                &&& s.market_slug@ == cells@[2]@
                &&& s.condition_id@ == cells@[3]@
                &&& s.outcome@ == cells@[4]@
                &&& s.token_id@ == cells@[5]@
                &&& s.family@ == cells@[6]@
                &&& s.variant@ == cells@[7]@
                &&& s.model@ == cells@[8]@
                &&& s.resolved_outcome@ == cells@[15]@
                &&& parse_ts_of(cells@[16]@) == Ok::<int, Seq<char>>(s.resolved_at as int)
                &&& s.synthetic_book == synthetic_of(cells@[17]@)
                &&& s.asset@ == asset@
            },
            Err(w) => row_warning(views(cells@), probs_ok, line as nat) == Some(w@),
        },
{
    proof {
        assert(views(cells@)[1] == cells@[1]@);
        assert(views(cells@)[15] == cells@[15]@);
        assert(views(cells@)[16] == cells@[16]@);
    }
    let t = match parse_ts(cells[1].as_str()) {
        Ok(v) => v,
        Err(e) => {
            return Err(warning(line, e.as_str()));
        },
    };
    let resolved_at = match parse_ts(cells[16].as_str()) {
        Ok(v) => v,
        Err(e) => {
            let mut m = owned("resolved_date: ");
            m.append(e.as_str());
            proof {
                assert("line "@ + dec(line as nat) + ": "@ + m@ + " \u{2014} row skipped"@ =~= "line "@
                    + dec(line as nat) + ": "@ + "resolved_date: "@ + e@ + " \u{2014} row skipped"@);
            }
            return Err(warning(line, m.as_str()));
        },
    };
    if !probs_ok {
        return Err(warning(line, "p_model/p_market not probabilities"));
    }
    if cells[15].as_str().is_empty() {
        return Err(warning(line, "no resolved_outcome"));
    }
    Ok(Signal {
        signal_set: owned(cells[0].as_str()),
        t,
        market_slug: owned(cells[2].as_str()),
        condition_id: owned(cells[3].as_str()),
        outcome: owned(cells[4].as_str()),
        token_id: owned(cells[5].as_str()),
        family: owned(cells[6].as_str()),
        variant: owned(cells[7].as_str()),
        model: owned(cells[8].as_str()),
        resolved_outcome: owned(cells[15].as_str()),
        resolved_at,
        synthetic_book: synthetic_flag(cells[17].as_str()),
        asset,
    })
}


// ---------------------------------------------------------------------------
// A whole signal set
// ---------------------------------------------------------------------------

/// One record as the CSV reader hands it back: its line and its fields, or
/// the reader's error.
pub open spec fn record_view(r: Result<(u64, Vec<String>), String>) -> Result<
    (u64, Seq<Seq<char>>),
    Seq<char>,
> {
    match r {
        Ok((line, fields)) => Ok((line, views(fields@))),
        Err(e) => Err(e@),
    }
}

pub open spec fn csv_view(r: Result<(Vec<String>, Vec<Result<(u64, Vec<String>), String>>), String>) -> Result<
    (Seq<Seq<char>>, Seq<Result<(u64, Seq<Seq<char>>), Seq<char>>>),
    Seq<char>,
> {
    match r {
        Ok((h, recs)) => Ok(
            (views(h@), recs@.map_values(|x: Result<(u64, Vec<String>), String>| record_view(x))),
        ),
        Err(e) => Err(e@),
    }
}

/// What the csv crate reads from `content`: the header record and each
/// later record, or the error the header gave.
pub uninterp spec fn csv_records_of(content: Seq<char>) -> Result<
    (Seq<Seq<char>>, Seq<Result<(u64, Seq<Seq<char>>), Seq<char>>>),
    Seq<char>,
>;

/// Reads a signal CSV with the csv crate: `ReaderBuilder` with flexible
/// record lengths and `#` comment lines, the header record, then every
/// record with the line it starts on, or the error text of one that could
/// not be read. Trusted: the result is named as a function of the text
/// (`csv_records_of`); which texts csv accepts and how it splits them into
/// fields is not stated.
#[verifier::external_body]
fn csv_records(content: &str) -> (r: Result<
    (Vec<String>, Vec<Result<(u64, Vec<String>), String>>),
    String,
>)
    ensures
        csv_view(r) == csv_records_of(content@),
{
    let mut rdr = csv::ReaderBuilder::new().flexible(true).comment(Some(b'#')).from_reader(
        content.as_bytes(),
    );
    let headers = match rdr.headers() {
        Ok(h) => h.iter().map(String::from).collect(),
        Err(e) => return Err(e.to_string()),
    };
    let recs = rdr.records().map(|rec| match rec {
        Ok(r) => Ok((r.position().map(|p| p.line()).unwrap_or(0), r.iter().map(String::from).collect())),
        Err(e) => Err(e.to_string()),
    }).collect();
    Ok((headers, recs))
}

/// The record's cell at column `i`, trimmed; "" past its end.
pub open spec fn field_at(fields: Seq<Seq<char>>, i: int) -> Seq<char> {
    if 0 <= i < fields.len() {
        trim(fields[i])
    } else {
        Seq::empty()
    }
}

/// A record's required cells, trimmed, in canonical order.
pub open spec fn record_cells(headers: Seq<Seq<char>>, fields: Seq<Seq<char>>) -> Seq<Seq<char>> {
    header_names().map_values(
        |n: Seq<char>|
            field_at(
                fields,
                match column_of(headers, n) {
                    Some(i) => i,
                    None => 0,
                },
            ),
    )
}

/// A record's attribution cell, when the header has one.
pub open spec fn record_asset(headers: Seq<Seq<char>>, fields: Seq<Seq<char>>) -> Seq<char> {
    match column_of(headers, "asset"@) {
        Some(i) => field_at(fields, i),
        None => Seq::empty(),
    }
}

/// The warning a record earns instead of a signal: the reader's error, or
/// the row's own warning.
pub open spec fn record_warning(
    headers: Seq<Seq<char>>,
    rec: Result<(u64, Seq<Seq<char>>), Seq<char>>,
    probs_ok: bool,
) -> Option<Seq<char>> {
    match rec {
        Err(e) => Some("unreadable row: "@ + e),
        Ok((line, fields)) => row_warning(record_cells(headers, fields), probs_ok, line as nat),
    }
}

/// The signal a row's cells stand for.
pub open spec fn signal_from(cells: Seq<Seq<char>>, asset: Seq<char>, s: Signal) -> bool {
    &&& s.signal_set@ == cells[0]
    &&& parse_ts_of(cells[1]) == Ok::<int, Seq<char>>(s.t as int)
    &&& s.market_slug@ == cells[2]
    &&& s.condition_id@ == cells[3]
    &&& s.outcome@ == cells[4]
    &&& s.token_id@ == cells[5]
    &&& s.family@ == cells[6]
    &&& s.variant@ == cells[7]
    &&& s.model@ == cells[8]
    &&& s.resolved_outcome@ == cells[15]
    &&& parse_ts_of(cells[16]) == Ok::<int, Seq<char>>(s.resolved_at as int)
    &&& s.synthetic_book == synthetic_of(cells[17])
    &&& s.asset@ == asset
}

/// The warnings of the first `n` records, in order.
pub open spec fn record_warnings(
    headers: Seq<Seq<char>>,
    recs: Seq<Result<(u64, Seq<Seq<char>>), Seq<char>>>,
    probs_ok: Seq<bool>,
    n: nat,
) -> Seq<Seq<char>>
    decreases n,
{
    if n == 0 {
        Seq::empty()
    } else {
        record_warnings(headers, recs, probs_ok, (n - 1) as nat) + match record_warning(
            headers,
            recs[n - 1],
            probs_ok[n - 1],
        ) {
            Some(w) => seq![w],
            None => Seq::empty(),
        }
    }
}

/// The records that become signals, by index, in order.
pub open spec fn signal_indices(
    headers: Seq<Seq<char>>,
    recs: Seq<Result<(u64, Seq<Seq<char>>), Seq<char>>>,
    probs_ok: Seq<bool>,
    n: nat,
) -> Seq<int>
    decreases n,
{
    if n == 0 {
        Seq::empty()
    } else {
        signal_indices(headers, recs, probs_ok, (n - 1) as nat) + if record_warning(
            headers,
            recs[n - 1],
            probs_ok[n - 1],
        ) is None {
            seq![n - 1]
        } else {
            Seq::empty()
        }
    }
}

fn field_exec(fields: &Vec<String>, i: usize) -> (r: String)
    ensures
        r@ == field_at(views(fields@), i as int),
{
    if i < fields.len() {
        let cs = chars_of(fields[i].as_str());
        proof {
            assert(cs@.subrange(0, cs@.len() as int) =~= cs@);
        }
        let (a, b) = trim_window(&cs, 0, cs.len());
        crate::text::string_of(&cs, a, b)
    } else {
        String::new()
    }
}

/// Every record of a signal set as a signal or a warning: `records` as the
/// reader gave them after `headers`, `probs_ok` the reader's verdict on each
/// record's two probabilities. Each record gives exactly one of the two, so
/// no malformed row silently disappears.
pub fn signal_rows(
    headers: &Vec<String>,
    records: &[Result<(u64, Vec<String>), String>],
    probs_ok: &[bool],
) -> (r: (Vec<usize>, Vec<Signal>, Vec<String>))
    requires
        probs_ok@.len() == records@.len(),
    ensures
        ({
            let hs = views(headers@);
            let recs = records@.map_values(|x: Result<(u64, Vec<String>), String>| record_view(x));
            &&& r.0@.map_values(|k: usize| k as int) == signal_indices(
                hs,
                recs,
                probs_ok@,
                records@.len() as nat,
            )
            &&& r.1@.len() == r.0@.len()
            &&& forall|j: int|
                0 <= j < r.1@.len() ==> ((#[trigger] recs[r.0@[j] as int]) matches Ok((_, f))
                    && signal_from(record_cells(hs, f), record_asset(hs, f), r.1@[j]))
            &&& views(r.2@) == record_warnings(hs, recs, probs_ok@, records@.len() as nat)
            &&& r.0@.len() + r.2@.len() == records@.len()
        }),
{
    let ghost hs = views(headers@);
    let ghost recs = records@.map_values(|x: Result<(u64, Vec<String>), String>| record_view(x));
    let names = signal_header();
    let mut cols: Vec<usize> = Vec::new();
    let mut c: usize = 0;
    while c < names.len()
        invariant
            c <= names@.len(),
            views(names@) == header_names(),
            hs == views(headers@),
            cols@.len() == c,
            forall|x: int|
                0 <= x < c ==> #[trigger] cols@[x] as int == match column_of(hs, header_names()[x]) {
                    Some(i) => i,
                    None => 0,
                },
        decreases names.len() - c,
    {
        proof {
            assert(views(names@)[c as int] == names@[c as int]@);
        }
        let i = match column_index(headers, names[c].as_str()) {
            Some(i) => i,
            None => 0,
        };
        cols.push(i);
        c += 1;
    }
    proof {
        assert(header_names().len() == 18);
        assert(views(names@).len() == names@.len());
    }
    let asset_col = column_index(headers, "asset");
    let mut idx: Vec<usize> = Vec::new();
    let mut sigs: Vec<Signal> = Vec::new();
    let mut warns: Vec<String> = Vec::new();
    let mut k: usize = 0;
    while k < records.len()
        invariant
            k <= records@.len(),
            probs_ok@.len() == records@.len(),
            hs == views(headers@),
            recs == records@.map_values(|x: Result<(u64, Vec<String>), String>| record_view(x)),
            cols@.len() == 18,
            header_names().len() == 18,
            forall|x: int|
                0 <= x < 18 ==> #[trigger] cols@[x] as int == match column_of(hs, header_names()[x]) {
                    Some(i) => i,
                    None => 0,
                },
            match asset_col {
                Some(i) => column_of(hs, "asset"@) == Some(i as int),
                None => column_of(hs, "asset"@) is None,
            },
            idx@.map_values(|k: usize| k as int) == signal_indices(hs, recs, probs_ok@, k as nat),
            sigs@.len() == idx@.len(),
            forall|j: int|
                0 <= j < sigs@.len() ==> ((#[trigger] recs[idx@[j] as int]) matches Ok((_, f))
                    && signal_from(record_cells(hs, f), record_asset(hs, f), sigs@[j])),
            views(warns@) == record_warnings(hs, recs, probs_ok@, k as nat),
            idx@.len() + warns@.len() == k,
        decreases records.len() - k,
    {
        proof {
            assert(recs[k as int] == record_view(records@[k as int]));
        }
        match &records[k] {
            Err(e) => {
                let mut w = owned("unreadable row: ");
                w.append(e.as_str());
                warns.push(w);
                proof {
                    assert(views(warns@) =~= record_warnings(hs, recs, probs_ok@, (k + 1) as nat));
                    assert(idx@.map_values(|k: usize| k as int) =~= signal_indices(
                        hs,
                        recs,
                        probs_ok@,
                        (k + 1) as nat,
                    ));
                }
            },
            Ok((line, fields)) => {
                let ghost f = views(fields@);
                let mut cells: Vec<String> = Vec::new();
                let mut x: usize = 0;
                while x < 18
                    invariant
                        x <= 18,
                        cols@.len() == 18,
                        f == views(fields@),
                        cells@.len() == x,
                        forall|y: int|
                            0 <= y < x ==> (#[trigger] cells@[y])@ == field_at(f, cols@[y] as int),
                    decreases 18 - x,
                {
                    let v = field_exec(fields, cols[x]);
                    cells.push(v);
                    x += 1;
                }
                proof {
                    assert(views(cells@) =~= record_cells(hs, f));
                }
                let asset = match asset_col {
                    Some(i) => field_exec(fields, i),
                    None => String::new(),
                };
                match read_signal_row(&cells, asset, probs_ok[k], *line) {
                    Ok(sg) => {
                        proof {
                            assert(signal_from(record_cells(hs, f), record_asset(hs, f), sg));
                        }
                        idx.push(k);
                        sigs.push(sg);
                        proof {
                            assert(idx@.map_values(|k: usize| k as int) =~= signal_indices(
                                hs,
                                recs,
                                probs_ok@,
                                (k + 1) as nat,
                            ));
                            assert(views(warns@) =~= record_warnings(
                                hs,
                                recs,
                                probs_ok@,
                                (k + 1) as nat,
                            ));
                        }
                    },
                    Err(w) => {
                        warns.push(w);
                        proof {
                            assert(views(warns@) =~= record_warnings(
                                hs,
                                recs,
                                probs_ok@,
                                (k + 1) as nat,
                            ));
                            assert(idx@.map_values(|k: usize| k as int) =~= signal_indices(
                                hs,
                                recs,
                                probs_ok@,
                                (k + 1) as nat,
                            ));
                        }
                    },
                }
            },
        }
        k += 1;
    }
    (idx, sigs, warns)
}


/// A signal CSV's header and records: none for a blank text; otherwise what
/// the csv crate reads, refused when csv cannot read the header or the
/// header lacks a required column.
pub fn signal_csv(content: &str) -> (r: Result<
    (Vec<String>, Vec<Result<(u64, Vec<String>), String>>),
    String,
>)
    ensures
        trim(content@).len() == 0 ==> (r matches Ok((h, recs)) && h@.len() == 0 && recs@.len()
            == 0),
        trim(content@).len() != 0 ==> match csv_records_of(content@) {
            Err(e) => r matches Err(x) && x@ == "bad header: "@ + e,
            Ok((h, recs)) => match header_error_of(h) {
                Some(e) => r matches Err(x) && x@ == e,
                None => csv_view(r) == csv_records_of(content@),
            },
        },
{
    let cs = chars_of(content);
    proof {
        assert(cs@.subrange(0, cs@.len() as int) =~= content@);
    }
    let (a, b) = trim_window(&cs, 0, cs.len());
    if a == b {
        return Ok((Vec::new(), Vec::new()));
    }
    match csv_records(content) {
        Err(e) => {
            let mut x = owned("bad header: ");
            x.append(e.as_str());
            Err(x)
        },
        Ok((h, recs)) => {
            proof {
                assert(csv_view(Ok::<(Vec<String>, Vec<Result<(u64, Vec<String>), String>>), String>((h, recs)))
                    == csv_records_of(content@));
            }
            match header_error(&h) {
                Some(e) => Err(e),
                None => Ok((h, recs)),
            }
        },
    }
}

} // verus!
