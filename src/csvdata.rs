use vstd::prelude::*;
use crate::arrange::{distinct_sorted, emit, flatten_split, lemma_sorted_unique, sorted};
use crate::keys::{count, count_key, key_spec, split_spec, split_str, lemma_count_absent, lemma_count_concat, row_key, views};

verus! {

/// A grid of tokens: a flat token sequence read as rows of `line_width`
/// tokens each, the last row possibly shorter.
#[derive(Debug, Clone, PartialEq, Eq)]
pub struct CsvData {
    pub data: Vec<String>,
    pub delimiter: char,
    pub line_width: usize,
}

/// The rows of `t` at width `w`: windows of `w` tokens, the last one cut short.
pub open spec fn rows_spec(t: Seq<Seq<char>>, w: nat) -> Seq<Seq<Seq<char>>>
    decreases t.len(),
{
    if t.len() == 0 || w == 0 {
        Seq::<Seq<Seq<char>>>::empty()
    } else if t.len() <= w {
        seq![t]
    } else {
        seq![t.take(w as int)] + rows_spec(t.skip(w as int), w)
    }
}

pub open spec fn keys_spec(t: Seq<Seq<char>>, w: nat, d: char, width: nat) -> Seq<Seq<char>> {
    rows_spec(t, w).map_values(|r: Seq<Seq<char>>| key_spec(r, d, width))
}

/// `tokens` is a sorted arrangement of keys, each split at `d`, in which
/// each key `k` occurs `f(k)` times.
pub open spec fn is_arrangement(tokens: Seq<Seq<char>>, d: char, f: spec_fn(Seq<char>) -> nat) -> bool {
    exists|ks: Seq<Seq<char>>|
        sorted(ks) && (forall|k: Seq<char>| #[trigger] count(ks, k) == f(k)) && tokens
            == flatten_split(ks, d)
}

/// The sorted arrangement with counts `f`: there is at most one.
pub open spec fn arranged(d: char, f: spec_fn(Seq<char>) -> nat) -> Seq<Seq<char>> {
    choose|t: Seq<Seq<char>>| is_arrangement(t, d, f)
}

pub proof fn lemma_arranged(t: Seq<Seq<char>>, d: char, f: spec_fn(Seq<char>) -> nat)
    requires
        is_arrangement(t, d, f),
    ensures
        arranged(d, f) == t,
{
    let t2 = arranged(d, f);
    let ks = choose|ks: Seq<Seq<char>>|
        sorted(ks) && (forall|k: Seq<char>| #[trigger] count(ks, k) == f(k)) && t == flatten_split(ks, d);
    let ks2 = choose|ks: Seq<Seq<char>>|
        sorted(ks) && (forall|k: Seq<char>| #[trigger] count(ks, k) == f(k)) && t2 == flatten_split(ks, d);
    assert forall|k: Seq<char>| count(ks, k) == count(ks2, k) by {
        assert(count(ks, k) == f(k));
        assert(count(ks2, k) == f(k));
    }
    lemma_sorted_unique(ks, ks2);
}

/// Each key as often as in `ka` and `kb` together.
pub open spec fn union_counts(ka: Seq<Seq<char>>, kb: Seq<Seq<char>>) -> spec_fn(Seq<char>) -> nat {
    |k: Seq<char>| count(ka, k) + count(kb, k)
}

/// Each key as often as in whichever of `ka` and `kb` has it fewer times.
pub open spec fn inter_counts(ka: Seq<Seq<char>>, kb: Seq<Seq<char>>) -> spec_fn(Seq<char>) -> nat {
    |k: Seq<char>| min_nat(count(ka, k), count(kb, k))
}

/// The keys of `ka` that `kb` lacks, as often as `ka` has them.
pub open spec fn only_counts(ka: Seq<Seq<char>>, kb: Seq<Seq<char>>) -> spec_fn(Seq<char>) -> nat {
    |k: Seq<char>| only_in(ka, kb, k)
}

pub open spec fn max_nat(a: nat, b: nat) -> nat {
    if a >= b {
        a
    } else {
        b
    }
}

pub open spec fn min_nat(a: nat, b: nat) -> nat {
    if a <= b {
        a
    } else {
        b
    }
}

/// How often `k` occurs in `a` when `b` lacks it; none otherwise.
pub open spec fn only_in(a: Seq<Seq<char>>, b: Seq<Seq<char>>, k: Seq<char>) -> nat {
    if count(b, k) == 0 {
        count(a, k)
    } else {
        0
    }
}

/// The keys of `ka` that `kb` lacks, each split at `d` and repeated as often
/// as `ka` holds it, in key order.
pub fn lines_map_to_difference(ka: &Vec<String>, kb: &Vec<String>, d: char) -> (r: Vec<String>)
    ensures
        views(r@) == arranged(d, only_counts(views(ka@), views(kb@))),
{
    let u = distinct_sorted(ka);
    let mut c: Vec<usize> = Vec::new();
    let mut j: usize = 0;
    while j < u.len()
        invariant
            j <= u@.len(),
            c@.len() == j,
            forall|m: int|
                0 <= m < j ==> c@[m] == only_in(views(ka@), views(kb@), #[trigger] views(u@)[m]),
        decreases u@.len() - j,
    {
        let cb = count_key(kb, &u[j]);
        c.push(if cb == 0 { count_key(ka, &u[j]) } else { 0 });
        j = j + 1;
    }
    let (data, Ghost(ks)) = emit(&u, &c, d);
    proof {
        assert forall|k: Seq<char>| #[trigger] count(ks, k) == only_in(views(ka@), views(kb@), k) by {
            lemma_count_absent(views(ka@), k);
            if views(u@).contains(k) {
                let m = choose|m: int| 0 <= m < views(u@).len() && views(u@)[m] == k;
                assert(count(ks, views(u@)[m]) == c@[m]);
            }
        }
        lemma_arranged(views(data@), d, only_counts(views(ka@), views(kb@)));
    }
    data
}

/// `n` tokens of one space each.
pub open spec fn spaces(n: nat) -> Seq<Seq<char>> {
    Seq::new(n, |i: int| seq![' '])
}

/// How many tokens a sequence of `len` tokens lacks to fill its last row of `w`.
pub open spec fn shortfall(len: nat, w: nat) -> nat {
    if len % w == 0 {
        0
    } else {
        (w - len % w) as nat
    }
}

impl CsvData {
    pub fn new(data: Vec<String>, delimiter: char, line_width: usize) -> (r: CsvData)
        requires
            line_width > 0,
        ensures
            r.wf(),
            r.data == data,
            r.delimiter == delimiter,
            r.line_width == line_width,
    {
        CsvData { data, delimiter, line_width }
    }

    /// The tokens of `data` split at `delimiter`, with single-space tokens
    /// added until the count is a multiple of `line_width`. Empty text gives
    /// no tokens.
    pub fn from_raw_string(data: String, delimiter: char, line_width: usize) -> (r: CsvData)
        requires
            line_width > 0,
        ensures
            r.wf(),
            r.delimiter == delimiter,
            r.line_width == line_width,
            data@.len() == 0 ==> r.tokens().len() == 0,
            data@.len() > 0 ==> r.tokens() == split_spec(data@, delimiter) + spaces(
                shortfall(split_spec(data@, delimiter).len(), line_width as nat),
            ),
    {
        if data.as_str().is_empty() {
            return CsvData { data: Vec::new(), delimiter, line_width };
        }
        let mut v = split_str(&data, delimiter);
        let ghost base = views(v@);
        let rem = v.len() % line_width;
        let fill: usize = if rem == 0 { 0 } else { line_width - rem };
        let mut m: usize = 0;
        while m < fill
            invariant
                m <= fill,
                views(v@) == base + spaces(m as nat),
            decreases fill - m,
        {
            proof {
                reveal_strlit(" ");
            }
            let ghost prev = views(v@);
            let sp = " ".to_owned();
            assert(sp@ =~= seq![' ']);
            v.push(sp);
            assert(views(v@) =~= prev.push(seq![' ']));
            assert(spaces((m + 1) as nat) =~= spaces(m as nat).push(seq![' ']));
            m = m + 1;
        }
        CsvData { data: v, delimiter, line_width }
    }

    /// Consumes the grid into an iterator over its rows.
    pub fn into_iter(self) -> (r: CsvDataIntoIterator)
        ensures
            r.csv_data == self,
            r.index == 0,
    {
        CsvDataIntoIterator { csv_data: self, index: 0 }
    }

    /// An iterator over the grid's rows that leaves the grid in place.
    pub fn iter(&self) -> (r: CsvDataIterator<'_>)
        ensures
            *r.csv_data == *self,
            r.index == 0,
    {
        CsvDataIterator { csv_data: self, index: 0 }
    }

    /// The grid is usable: rows have at least one token.
    pub open spec fn wf(&self) -> bool {
        self.line_width > 0
    }

    pub open spec fn tokens(&self) -> Seq<Seq<char>> {
        views(self.data@)
    }

    pub open spec fn rows(&self) -> Seq<Seq<Seq<char>>> {
        rows_spec(self.tokens(), self.line_width as nat)
    }

    /// The row keys of the grid, compared at `width`.
    pub open spec fn keys_at(&self, width: nat) -> Seq<Seq<char>> {
        keys_spec(self.tokens(), self.line_width as nat, self.delimiter, width)
    }

    /// The keys of the grid's rows, in row order, joined with `d` and
    /// compared at `width`.
    pub fn keys_with(&self, d: char, width: usize) -> (r: Vec<String>)
        requires
            self.wf(),
        ensures
            views(r@) == keys_spec(self.tokens(), self.line_width as nat, d, width as nat),
    {
        let ghost t = self.tokens();
        let ghost w = self.line_width as nat;
        let ghost kf = |r: Seq<Seq<char>>| key_spec(r, d, width as nat);
        let n = self.data.len();
        let mut out: Vec<String> = Vec::new();
        let mut start: usize = 0;
        assert(t.skip(0) =~= t);
        while start < n
            invariant
                t == self.tokens(),
                w == self.line_width,
                w > 0,
                n == t.len(),
                start <= n,
                kf == (|r: Seq<Seq<char>>| key_spec(r, d, width as nat)),
                keys_spec(t, w, d, width as nat) == views(out@) + rows_spec(t.skip(start as int), w).map_values(kf),
            decreases n - start,
        {
            let end: usize = if n - start > self.line_width { start + self.line_width } else { n };
            let k = row_key(&self.data, start, end, d, width);
            let ghost rest = t.skip(start as int);
            let ghost before = views(out@);
            out.push(k);
            assert(views(out@) =~= before.push(k@));
            if end < n {
                assert(rest.take(w as int) =~= t.subrange(start as int, end as int));
                assert(rest.skip(w as int) =~= t.skip(end as int));
                assert(rows_spec(rest, w) == seq![rest.take(w as int)] + rows_spec(t.skip(end as int), w));
            } else {
                assert(rest =~= t.subrange(start as int, end as int));
                assert(t.skip(end as int).len() == 0);
            }
            assert(rows_spec(rest, w).map_values(kf) =~= seq![k@] + rows_spec(t.skip(end as int), w).map_values(kf));
            assert(before + rows_spec(rest, w).map_values(kf) =~= views(out@) + rows_spec(t.skip(end as int), w).map_values(kf));
            start = end;
        }
        assert(rows_spec(t.skip(n as int), w).map_values(kf) =~= Seq::<Seq<char>>::empty());
        assert(views(out@) =~= views(out@) + Seq::<Seq<char>>::empty());
        out
    }

    /// The keys of the grid's rows, in row order, compared at `width`.
    pub fn row_keys(&self, width: usize) -> (r: Vec<String>)
        requires
            self.wf(),
        ensures
            views(r@) == self.keys_at(width as nat),
    {
        self.keys_with(self.delimiter, width)
    }

    /// Multiset union: each row key, padded to the wider of the two widths,
    /// occurs as often as in both grids together; keys come in sorted order.
    /// No result when the delimiters differ.
    pub fn union(&self, second: &CsvData) -> (r: Option<CsvData>)
        requires
            self.wf(),
            second.wf(),
        ensures
            self.delimiter != second.delimiter ==> r is None,
            self.delimiter == second.delimiter ==> r is Some,
            r matches Some(g) ==> g.wf() && g.delimiter == self.delimiter && g.line_width
                == max_nat(self.line_width as nat, second.line_width as nat) && g.tokens()
                == arranged(
                g.delimiter,
                union_counts(self.keys_at(g.line_width as nat), second.keys_at(g.line_width as nat)),
            ),
    {
        if self.delimiter != second.delimiter {
            return None;
        }
        let width = if self.line_width >= second.line_width { self.line_width } else { second.line_width };
        let mut all = self.row_keys(width);
        let ghost ka = views(all@);
        let mut kb = second.row_keys(width);
        let ghost kbv = views(kb@);
        all.append(&mut kb);
        assert(views(all@) =~= ka + kbv);
        let u = distinct_sorted(&all);
        let mut c: Vec<usize> = Vec::new();
        let mut j: usize = 0;
        while j < u.len()
            invariant
                j <= u@.len(),
                c@.len() == j,
                forall|m: int| 0 <= m < j ==> c@[m] == count(views(all@), #[trigger] views(u@)[m]),
            decreases u@.len() - j,
        {
            c.push(count_key(&all, &u[j]));
            j = j + 1;
        }
        let (data, Ghost(ks)) = emit(&u, &c, self.delimiter);
        let g = CsvData { data, delimiter: self.delimiter, line_width: width };
        proof {
            assert forall|k: Seq<char>| #[trigger] count(ks, k) == count(ka, k) + count(kbv, k) by {
                lemma_count_concat(ka, kbv, k);
                lemma_count_absent(views(all@), k);
                if views(u@).contains(k) {
                    let m = choose|m: int| 0 <= m < views(u@).len() && views(u@)[m] == k;
                    assert(count(ks, views(u@)[m]) == c@[m]);
                }
            }
            lemma_arranged(g.tokens(), g.delimiter, union_counts(ka, kbv));
        }
        Some(g)
    }

    /// Multiset intersection: each row key, padded to the wider of the two
    /// widths, occurs as often as in the grid that has it fewer times; keys
    /// come in sorted order. No result when the delimiters differ.
    pub fn intersection(&self, second: &CsvData) -> (r: Option<CsvData>)
        requires
            self.wf(),
            second.wf(),
        ensures
            self.delimiter != second.delimiter ==> r is None,
            self.delimiter == second.delimiter ==> r is Some,
            r matches Some(g) ==> g.wf() && g.delimiter == self.delimiter && g.line_width
                == max_nat(self.line_width as nat, second.line_width as nat) && g.tokens()
                == arranged(
                g.delimiter,
                inter_counts(self.keys_at(g.line_width as nat), second.keys_at(g.line_width as nat)),
            ),
    {
        if self.delimiter != second.delimiter {
            return None;
        }
        let width = if self.line_width >= second.line_width { self.line_width } else { second.line_width };
        let ka = self.row_keys(width);
        let kb = second.row_keys(width);
        let u = distinct_sorted(&ka);
        let mut c: Vec<usize> = Vec::new();
        let mut j: usize = 0;
        while j < u.len()
            invariant
                j <= u@.len(),
                c@.len() == j,
                forall|m: int|
                    0 <= m < j ==> c@[m] == min_nat(
                        count(views(ka@), #[trigger] views(u@)[m]),
                        count(views(kb@), views(u@)[m]),
                    ),
            decreases u@.len() - j,
        {
            let ca = count_key(&ka, &u[j]);
            let cb = count_key(&kb, &u[j]);
            c.push(if ca <= cb { ca } else { cb });
            j = j + 1;
        }
        let (data, Ghost(ks)) = emit(&u, &c, self.delimiter);
        proof {
            assert forall|k: Seq<char>|
                #[trigger] count(ks, k) == min_nat(count(views(ka@), k), count(views(kb@), k)) by {
                lemma_count_absent(views(ka@), k);
                if views(u@).contains(k) {
                    let m = choose|m: int| 0 <= m < views(u@).len() && views(u@)[m] == k;
                    assert(count(ks, views(u@)[m]) == c@[m]);
                }
            }
            lemma_arranged(views(data@), self.delimiter, inter_counts(views(ka@), views(kb@)));
        }
        Some(CsvData { data, delimiter: self.delimiter, line_width: width })
    }

    /// Symmetric difference by presence: the rows whose key, padded to the
    /// wider of the two widths, the second grid lacks, as often as the first
    /// has them, in key order; then the same from the second grid. No result
    /// when the delimiters differ.
    pub fn difference(&self, second: &CsvData) -> (r: Option<CsvData>)
        requires
            self.wf(),
            second.wf(),
        ensures
            self.delimiter != second.delimiter ==> r is None,
            self.delimiter == second.delimiter ==> r is Some,
            r matches Some(g) ==> g.wf() && g.delimiter == self.delimiter && g.line_width
                == max_nat(self.line_width as nat, second.line_width as nat) && g.tokens()
                == arranged(
                g.delimiter,
                only_counts(self.keys_at(g.line_width as nat), second.keys_at(g.line_width as nat)),
            ) + arranged(
                g.delimiter,
                only_counts(second.keys_at(g.line_width as nat), self.keys_at(g.line_width as nat)),
            ),
    {
        if self.delimiter != second.delimiter {
            return None;
        }
        let width = if self.line_width >= second.line_width { self.line_width } else { second.line_width };
        let ka = self.row_keys(width);
        let kb = second.row_keys(width);
        let mut first = lines_map_to_difference(&ka, &kb, self.delimiter);
        let ghost t1 = views(first@);
        let mut rest = lines_map_to_difference(&kb, &ka, self.delimiter);
        let ghost t2 = views(rest@);
        first.append(&mut rest);
        assert(views(first@) =~= t1 + t2);
        Some(CsvData { data: first, delimiter: self.delimiter, line_width: width })
    }
}

/// The end of the row that starts at `index`: `w` tokens on, or the end.
pub open spec fn row_end(index: nat, w: nat, len: nat) -> nat {
    if index + w < len {
        index + w
    } else {
        len
    }
}

/// The tokens from `start` to `end` as owned strings.
fn copy_range(data: &Vec<String>, start: usize, end: usize) -> (r: Vec<String>)
    requires
        start <= end <= data@.len(),
    ensures
        views(r@) == views(data@).subrange(start as int, end as int),
{
    let mut out: Vec<String> = Vec::new();
    let mut j: usize = start;
    while j < end
        invariant
            start <= j <= end,
            end <= data@.len(),
            views(out@) == views(data@).subrange(start as int, j as int),
        decreases end - j,
    {
        let ghost prev = views(out@);
        out.push(data[j].clone());
        assert(views(out@) =~= prev.push(data@[j as int]@));
        assert(views(out@) =~= views(data@).subrange(start as int, j + 1));
        j = j + 1;
    }
    out
}

/// Rows of an owned grid, one at a time.
pub struct CsvDataIntoIterator {
    pub csv_data: CsvData,
    pub index: usize,
}

impl CsvDataIntoIterator {
    /// The row that starts at the current position, cut short at the end of
    /// the tokens; nothing once the tokens are used up.
    pub fn next(&mut self) -> (r: Option<Vec<String>>)
        ensures
            final(self).csv_data == old(self).csv_data,
            old(self).index >= old(self).csv_data.data@.len() ==> r is None && final(self).index
                == old(self).index,
            old(self).index < old(self).csv_data.data@.len() ==> r is Some,
            r matches Some(row) ==> views(row@) == old(self).csv_data.tokens().subrange(
                old(self).index as int,
                row_end(
                    old(self).index as nat,
                    old(self).csv_data.line_width as nat,
                    old(self).csv_data.data@.len(),
                ) as int,
            ) && final(self).index == row_end(
                old(self).index as nat,
                old(self).csv_data.line_width as nat,
                old(self).csv_data.data@.len(),
            ),
    {
        let n = self.csv_data.data.len();
        if self.index >= n {
            return None;
        }
        let end: usize = if n - self.index > self.csv_data.line_width {
            self.index + self.csv_data.line_width
        } else {
            n
        };
        let row = copy_range(&self.csv_data.data, self.index, end);
        self.index = end;
        Some(row)
    }
}

/// Rows of a borrowed grid, one at a time.
pub struct CsvDataIterator<'a> {
    pub csv_data: &'a CsvData,
    pub index: usize,
}

impl<'a> CsvDataIterator<'a> {
    /// The row that starts at the current position, cut short at the end of
    /// the tokens; nothing once the tokens are used up.
    pub fn next(&mut self) -> (r: Option<Vec<String>>)
        ensures
            final(self).csv_data == old(self).csv_data,
            old(self).index >= old(self).csv_data.data@.len() ==> r is None && final(self).index
                == old(self).index,
            old(self).index < old(self).csv_data.data@.len() ==> r is Some,
            r matches Some(row) ==> views(row@) == old(self).csv_data.tokens().subrange(
                old(self).index as int,
                row_end(
                    old(self).index as nat,
                    old(self).csv_data.line_width as nat,
                    old(self).csv_data.data@.len(),
                ) as int,
            ) && final(self).index == row_end(
                old(self).index as nat,
                old(self).csv_data.line_width as nat,
                old(self).csv_data.data@.len(),
            ),
    {
        let n = self.csv_data.data.len();
        if self.index >= n {
            return None;
        }
        let end: usize = if n - self.index > self.csv_data.line_width {
            self.index + self.csv_data.line_width
        } else {
            n
        };
        let row = copy_range(&self.csv_data.data, self.index, end);
        self.index = end;
        Some(row)
    }
}

} // verus!
