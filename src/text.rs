use vstd::prelude::*;
use crate::arrange::push_all;
use crate::csvdata::{rows_spec, CsvData};
use crate::keys::{join_spec, pad_marks, row_key, split_spec, split_str, views};

verus! {

/// Each row joined with `d` and ended by a newline, rows in order.
pub open spec fn text_of(rows: Seq<Seq<Seq<char>>>, d: char) -> Seq<char>
    decreases rows.len(),
{
    if rows.len() == 0 {
        Seq::<char>::empty()
    } else {
        join_spec(rows[0], d) + seq!['\n'] + text_of(rows.drop_first(), d)
    }
}

/// The tokens of the non-empty lines, each split at `d`, line after line.
pub open spec fn text_tokens(lines: Seq<Seq<char>>, d: char) -> Seq<Seq<char>>
    decreases lines.len(),
{
    if lines.len() == 0 {
        Seq::<Seq<char>>::empty()
    } else if lines.last().len() == 0 {
        text_tokens(lines.drop_last(), d)
    } else {
        text_tokens(lines.drop_last(), d) + split_spec(lines.last(), d)
    }
}

/// The most fields on any non-empty line.
pub open spec fn text_width(lines: Seq<Seq<char>>, d: char) -> nat
    decreases lines.len(),
{
    if lines.len() == 0 {
        0
    } else {
        let m = text_width(lines.drop_last(), d);
        if lines.last().len() > 0 && split_spec(lines.last(), d).len() > m {
            split_spec(lines.last(), d).len()
        } else {
            m
        }
    }
}

impl CsvData {
    /// The grid as text: each row joined with the delimiter and ended by a
    /// newline.
    pub fn to_text(&self) -> (r: String)
        requires
            self.wf(),
        ensures
            r@ == text_of(self.rows(), self.delimiter),
    {
        let ghost t = self.tokens();
        let ghost w = self.line_width as nat;
        let ghost d = self.delimiter;
        let n = self.data.len();
        let mut out = String::new();
        let mut start: usize = 0;
        assert(t.skip(0) =~= t);
        while start < n
            invariant
                t == self.tokens(),
                w == self.line_width,
                d == self.delimiter,
                w > 0,
                n == t.len(),
                start <= n,
                text_of(rows_spec(t, w), d) == out@ + text_of(rows_spec(t.skip(start as int), w), d),
            decreases n - start,
        {
            let end: usize = if n - start > self.line_width { start + self.line_width } else { n };
            let line = row_key(&self.data, start, end, self.delimiter, end - start);
            let ghost row = t.subrange(start as int, end as int);
            assert(pad_marks(0) =~= Seq::<char>::empty());
            assert(line@ =~= join_spec(row, d));
            let ghost rest = t.skip(start as int);
            let ghost before = out@;
            out.append(line.as_str());
            proof {
                reveal_strlit("\n");
            }
            out.append("\n");
            assert(out@ =~= before + join_spec(row, d) + seq!['\n']);
            if end < n {
                assert(rest.take(w as int) =~= row);
                assert(rest.skip(w as int) =~= t.skip(end as int));
            } else {
                assert(rest =~= row);
                assert(rows_spec(t.skip(end as int), w).len() == 0);
            }
            let ghost rs = rows_spec(rest, w);
            assert(rs[0] == row);
            assert(rs.drop_first() =~= rows_spec(t.skip(end as int), w));
            assert(before + text_of(rs, d) =~= out@ + text_of(rows_spec(t.skip(end as int), w), d));
            start = end;
        }
        assert(text_of(rows_spec(t.skip(n as int), w), d) =~= Seq::<char>::empty());
        assert(out@ =~= out@ + Seq::<char>::empty());
        out
    }

    /// A grid read from text: the non-empty lines, each split at `delimiter`,
    /// make one token sequence; the row width is the most fields on a line.
    pub fn from_text(text: &String, delimiter: char) -> (r: CsvData)
        ensures
            r.delimiter == delimiter,
            r.tokens() == text_tokens(split_spec(text@, '\n'), delimiter),
            r.line_width == text_width(split_spec(text@, '\n'), delimiter),
    {
        let lines = split_str(text, '\n');
        let ghost ls = views(lines@);
        let mut data: Vec<String> = Vec::new();
        let mut width: usize = 0;
        let mut i: usize = 0;
        while i < lines.len()
            invariant
                ls == views(lines@),
                i <= lines@.len(),
                views(data@) == text_tokens(ls.take(i as int), delimiter),
                width == text_width(ls.take(i as int), delimiter),
            decreases lines@.len() - i,
        {
            assert(ls.take(i + 1).drop_last() =~= ls.take(i as int));
            assert(ls.take(i + 1).last() == lines@[i as int]@);
            if !lines[i].as_str().is_empty() {
                let toks = split_str(&lines[i], delimiter);
                if toks.len() > width {
                    width = toks.len();
                }
                push_all(&mut data, &toks);
            }
            i = i + 1;
        }
        assert(ls.take(ls.len() as int) =~= ls);
        CsvData { data, delimiter, line_width: width }
    }
}

} // verus!
