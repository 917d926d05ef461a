//! The canonical CSV files as tables: RFC 4180 quoting, blank lines skipped,
//! columns addressed by name so an added column never shifts a page's data.
use vstd::prelude::*;

use crate::sort::views;
use crate::text::{
    chars_of, first_index, is_ws, lemma_first_index, lemma_first_index_is, lemma_first_index_none, lines, lines_in,
    slice_vec, str_eq, string_of, trim, trim_window, ws, win, wins, windows_ok,
};

verus! {

// ---------------------------------------------------------------------------
// One line
// ---------------------------------------------------------------------------

/// Every character of `s` is whitespace (`s.trim().is_empty()`).
pub open spec fn blank(s: Seq<char>) -> bool {
    forall|j: int| 0 <= j < s.len() ==> is_ws(#[trigger] s[j])
}

pub proof fn lemma_blank_push(s: Seq<char>, c: char)
    ensures
        blank(s.push(c)) == (blank(s) && is_ws(c)),
{
    if blank(s) && is_ws(c) {
        assert forall|j: int| 0 <= j < s.push(c).len() implies is_ws(#[trigger] s.push(c)[j]) by {
            if j < s.len() {
                assert(s.push(c)[j] == s[j]);
            }
        }
    }
    if blank(s.push(c)) {
        assert(is_ws(s.push(c)[s.len() as int]));
        assert forall|j: int| 0 <= j < s.len() implies is_ws(#[trigger] s[j]) by {
            assert(s.push(c)[j] == s[j]);
        }
    }
}

/// The fields of a CSV line, read from position `i` on, given the field read
/// so far, whether a quoted field is open, and the fields already finished.
///
/// `"` opens a quoted field when nothing but whitespace precedes it in the
/// field; inside one, `""` is a literal quote and a single `"` closes it; a
/// `,` outside quotes ends the field. Fields are trimmed. An unterminated
/// quote runs to the end of the line.
pub open spec fn csv_from(
    s: Seq<char>,
    i: int,
    field: Seq<char>,
    quoted: bool,
    out: Seq<Seq<char>>,
) -> Seq<Seq<char>>
    decreases s.len() - i,
{
    if i >= s.len() {
        out.push(trim(field))
    } else if s[i] == '"' && quoted {
        if i + 1 < s.len() && s[i + 1] == '"' {
            csv_from(s, i + 2, field.push('"'), true, out)
        } else {
            csv_from(s, i + 1, field, false, out)
        }
    } else if s[i] == '"' && blank(field) {
        csv_from(s, i + 1, Seq::empty(), true, out)
    } else if s[i] == ',' && !quoted {
        csv_from(s, i + 1, Seq::empty(), false, out.push(trim(field)))
    } else {
        csv_from(s, i + 1, field.push(s[i]), quoted, out)
    }
}

/// The fields of one CSV line.
pub open spec fn csv_fields(line: Seq<char>) -> Seq<Seq<char>> {
    csv_from(line, 0, Seq::empty(), false, Seq::empty())
}

/// `field.trim()` as a new string.
fn trimmed(field: &Vec<char>) -> (r: String)
    ensures
        r@ == trim(field@),
{
    proof {
        assert(field@.subrange(0, field@.len() as int) =~= field@);
    }
    let (a, b) = trim_window(field, 0, field.len());
    string_of(field, a, b)
}

/// One CSV line → fields.
pub fn split_csv(line: &[char]) -> (r: Vec<String>)
    ensures
        views(r@) == csv_fields(line@),
{
    let n = line.len();
    let mut out: Vec<String> = Vec::new();
    let mut field: Vec<char> = Vec::new();
    let mut is_blank = true;
    let mut quoted = false;
    let mut i: usize = 0;
    proof {
        assert(views(out@) =~= Seq::<Seq<char>>::empty());
        assert(field@ =~= Seq::<char>::empty());
    }
    while i < n
        invariant
            i <= n == line@.len(),
            is_blank == blank(field@),
            csv_fields(line@) == csv_from(line@, i as int, field@, quoted, views(out@)),
        decreases n - i,
    {
        let c = line[i];
        if c == '"' && quoted {
            if i + 1 < n && line[i + 1] == '"' {
                proof {
                    lemma_blank_push(field@, '"');
                }
                field.push('"');
                is_blank = false;
                i += 2;
            } else {
                quoted = false;
                i += 1;
            }
        } else if c == '"' && is_blank {
            field = Vec::new();
            proof {
                assert(field@ =~= Seq::<char>::empty());
            }
            is_blank = true;
            quoted = true;
            i += 1;
        } else if c == ',' && !quoted {
            let t = trimmed(&field);
            proof {
                assert(views(out@.push(t)) =~= views(out@).push(t@));
            }
            out.push(t);
            field = Vec::new();
            proof {
                assert(field@ =~= Seq::<char>::empty());
            }
            is_blank = true;
            i += 1;
        } else {
            proof {
                lemma_blank_push(field@, c);
            }
            field.push(c);
            is_blank = is_blank && ws(c);
            i += 1;
        }
    }
    let t = trimmed(&field);
    proof {
        assert(views(out@.push(t)) =~= views(out@).push(t@));
    }
    out.push(t);
    out
}

// ---------------------------------------------------------------------------
// Whole files
// ---------------------------------------------------------------------------

/// The records of a list of lines: every line that is not blank, split into
/// fields.
pub open spec fn records_of(ls: Seq<Seq<char>>) -> Seq<Seq<Seq<char>>>
    decreases ls.len(),
{
    if ls.len() == 0 {
        Seq::empty()
    } else if blank(ls.last()) {
        records_of(ls.drop_last())
    } else {
        records_of(ls.drop_last()).push(csv_fields(ls.last()))
    }
}

/// The records of a CSV file.
pub open spec fn records(src: Seq<char>) -> Seq<Seq<Seq<char>>> {
    records_of(lines(src))
}

/// The rows of a table, each as the characters of its fields.
pub open spec fn grid(rows: Seq<Vec<String>>) -> Seq<Seq<Seq<char>>> {
    rows.map_values(|r: Vec<String>| views(r@))
}

/// Whether `s[lo..hi]` holds only whitespace.
fn window_blank(s: &[char], lo: usize, hi: usize) -> (r: bool)
    requires
        lo <= hi <= s@.len(),
    ensures
        r == blank(s@.subrange(lo as int, hi as int)),
{
    let ghost w = s@.subrange(lo as int, hi as int);
    let mut i = lo;
    while i < hi
        invariant
            lo <= i <= hi <= s@.len(),
            w == s@.subrange(lo as int, hi as int),
            forall|j: int| 0 <= j < i - lo ==> is_ws(#[trigger] w[j]),
        decreases hi - i,
    {
        if !ws(s[i]) {
            proof {
                assert(!is_ws(w[i - lo]));
            }
            return false;
        }
        i += 1;
    }
    true
}

/// The records among the lines `ls` of `s`.
fn records_in(s: &[char], ls: &Vec<(usize, usize)>) -> (recs: Vec<Vec<String>>)
    requires
        windows_ok(s@, ls@),
    ensures
        grid(recs@) == records_of(wins(s@, ls@)),
{
    let ghost v = wins(s@, ls@);
    let mut recs: Vec<Vec<String>> = Vec::new();
    let mut k: usize = 0;
    proof {
        assert(v.take(0) =~= Seq::<Seq<char>>::empty());
        assert(grid(recs@) =~= Seq::<Seq<Seq<char>>>::empty());
    }
    while k < ls.len()
        invariant
            k <= ls@.len(),
            windows_ok(s@, ls@),
            v == wins(s@, ls@),
            grid(recs@) == records_of(v.take(k as int)),
        decreases ls.len() - k,
    {
        let (a, b) = ls[k];
        proof {
            assert(ls@[k as int].0 <= ls@[k as int].1 <= s@.len());
            assert(v[k as int] == win(s@, ls@[k as int]));
            assert(v.take(k + 1).drop_last() =~= v.take(k as int));
            assert(v.take(k + 1).last() == v[k as int]);
        }
        if !window_blank(s, a, b) {
            let line = slice_vec(s, a, b);
            let fields = split_csv(&line);
            proof {
                assert(grid(recs@.push(fields)) =~= grid(recs@).push(views(fields@)));
            }
            recs.push(fields);
        }
        k += 1;
    }
    proof {
        assert(v.take(ls@.len() as int) =~= v);
    }
    recs
}

/// The column whose name is `name`: the first such one.
pub open spec fn named(head: Seq<Seq<char>>, name: Seq<char>) -> spec_fn(int) -> bool {
    |i: int| head[i] == name
}

pub open spec fn col_of(head: Seq<Seq<char>>, name: Seq<char>) -> Option<int> {
    first_index(head.len() as int, named(head, name))
}

/// A row's cell in the column called `name`; empty when there is no such
/// column or the row is too short to reach it.
pub open spec fn cell_of(head: Seq<Seq<char>>, row: Seq<Seq<char>>, name: Seq<char>) -> Seq<char> {
    match col_of(head, name) {
        Some(i) => if i < row.len() {
            row[i]
        } else {
            Seq::empty()
        },
        None => Seq::empty(),
    }
}

/// A CSV file: the header line's fields, and the fields of every later line.
pub struct Table {
    pub head: Vec<String>,
    pub rows: Vec<Vec<String>>,
}

impl Table {
    /// The first record is the header, the others the rows; an empty file
    /// has neither.
    pub fn parse(src: &str) -> (t: Table)
        ensures
            ({
                let recs = records(src@);
                &&& views(t.head@) == (if recs.len() > 0 {
                    recs[0]
                } else {
                    Seq::empty()
                })
                &&& grid(t.rows@) == (if recs.len() > 0 {
                    recs.drop_first()
                } else {
                    Seq::empty()
                })
            }),
    {
        let s = chars_of(src);
        proof {
            assert(s@.subrange(0, s@.len() as int) =~= s@);
        }
        let ls = lines_in(&s, 0, s.len());
        let mut recs = records_in(&s, &ls);
        if recs.len() > 0 {
            let head = recs.remove(0);
            proof {
                assert(grid(recs@) =~= records(src@).drop_first());
            }
            Table { head, rows: recs }
        } else {
            let t = Table { head: Vec::new(), rows: recs };
            proof {
                assert(views(t.head@) =~= Seq::<Seq<char>>::empty());
            }
            t
        }
    }

    /// The index of the column called `name`.
    pub fn col(&self, name: &str) -> (r: Option<usize>)
        ensures
            match r {
                Some(i) => col_of(views(self.head@), name@) == Some(i as int),
                None => col_of(views(self.head@), name@) is None,
            },
    {
        let ghost h = views(self.head@);
        let ghost p = named(h, name@);
        let mut i: usize = 0;
        while i < self.head.len()
            invariant
                i <= self.head@.len(),
                h == views(self.head@),
                p == named(h, name@),
                forall|j: int| 0 <= j < i ==> !#[trigger] p(j),
            decreases self.head.len() - i,
        {
            proof {
                assert(h[i as int] == self.head@[i as int]@);
            }
            if str_eq(self.head[i].as_str(), name) {
                proof {
                    lemma_first_index_is(h.len() as int, p, i as int);
                }
                return Some(i);
            }
            i += 1;
        }
        proof {
            lemma_first_index_none(h.len() as int, p);
        }
        None
    }

    /// Cell by column name — "" when the column or value is missing.
    pub fn cell<'a>(&self, row: &'a [String], name: &str) -> (r: &'a str)
        ensures
            r@ == cell_of(views(self.head@), views(row@), name@),
    {
        proof {
            reveal_strlit("");
        }
        match self.col(name) {
            Some(i) => if i < row.len() {
                proof {
                    assert(views(row@)[i as int] == row@[i as int]@);
                }
                row[i].as_str()
            } else {
                ""
            },
            None => "",
        }
    }
}

/// Columns are addressed by name, so a column added anywhere (under another
/// name, with a value in every row) never shifts the data a page reads.
pub proof fn law_added_column_keeps_cells(
    head: Seq<Seq<char>>,
    row: Seq<Seq<char>>,
    name: Seq<char>,
    k: int,
    col: Seq<char>,
    v: Seq<char>,
)
    requires
        0 <= k <= head.len(),
        row.len() == head.len(),
        col != name,
    ensures
        cell_of(head.insert(k, col), row.insert(k, v), name) == cell_of(head, row, name),
{
    let h2 = head.insert(k, col);
    let r2 = row.insert(k, v);
    let p = named(head, name);
    let p2 = named(h2, name);
    lemma_first_index(head.len() as int, p);
    lemma_first_index(h2.len() as int, p2);
    match first_index(head.len() as int, p) {
        Some(i) => {
            let i2 = if i < k {
                i
            } else {
                i + 1
            };
            assert(h2[i2] == head[i]);
            assert(p2(i2));
            assert forall|j: int| 0 <= j < i2 implies !#[trigger] p2(j) by {
                if j < k {
                    assert(h2[j] == head[j]);
                    assert(!p(j));
                } else if j > k {
                    assert(h2[j] == head[j - 1]);
                    assert(!p(j - 1));
                }
            }
            crate::text::lemma_first_index_is(h2.len() as int, p2, i2);
            assert(r2[i2] == row[i]);
        },
        None => {
            assert forall|j: int| 0 <= j < h2.len() implies !#[trigger] p2(j) by {
                if j < k {
                    assert(h2[j] == head[j]);
                    assert(!p(j));
                } else if j > k {
                    assert(h2[j] == head[j - 1]);
                    assert(!p(j - 1));
                }
            }
            crate::text::lemma_first_index_none(h2.len() as int, p2);
        },
    }
}

} // verus!
