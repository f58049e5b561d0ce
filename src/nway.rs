use vstd::prelude::*;
use crate::csvdata::{arranged, inter_counts, keys_spec, lemma_arranged, CsvData};
use crate::arrange::{distinct_sorted, emit, push_all};
use crate::keys::{count, count_key, lemma_count_absent, lemma_count_concat, views};

verus! {

pub open spec fn blanks(n: nat) -> Seq<Seq<char>> {
    Seq::new(n, |i: int| Seq::<char>::empty())
}

/// The tokens `t`, read as rows of `w`, with each row filled out to `width`
/// tokens by empty ones.
pub open spec fn padded_spec(t: Seq<Seq<char>>, w: nat, width: nat) -> Seq<Seq<char>>
    decreases t.len(),
{
    if t.len() == 0 || w == 0 {
        Seq::<Seq<char>>::empty()
    } else if t.len() <= w {
        t + blanks((width - t.len()) as nat)
    } else {
        t.take(w as int) + blanks((width - w) as nat) + padded_spec(t.skip(w as int), w, width)
    }
}

/// No row of the grid is wider than `width`: its first row is its widest.
pub open spec fn fits(c: CsvData, width: nat) -> bool {
    c.line_width <= width || c.data@.len() <= width
}

/// The grid padded to `width`, as a token sequence.
pub open spec fn padded_of(c: CsvData, width: nat) -> Seq<Seq<char>> {
    padded_spec(c.tokens(), c.line_width as nat, width)
}

/// The widest declared row width among `cs`.
pub open spec fn max_width(cs: Seq<CsvData>) -> nat
    decreases cs.len(),
{
    if cs.len() == 0 {
        0
    } else {
        let m = max_width(cs.drop_last());
        if cs.last().line_width as nat > m {
            cs.last().line_width as nat
        } else {
            m
        }
    }
}

/// The padded tokens of every grid of `cs`, one grid after another.
pub open spec fn concat_padded(cs: Seq<CsvData>, width: nat) -> Seq<Seq<char>>
    decreases cs.len(),
{
    if cs.len() == 0 {
        Seq::<Seq<char>>::empty()
    } else {
        concat_padded(cs.drop_last(), width) + padded_of(cs.last(), width)
    }
}

/// Fills each row of `csv` out to `width` tokens with empty ones.
fn pad_one(csv: &CsvData, width: usize) -> (r: CsvData)
    requires
        csv.wf(),
        width > 0,
        fits(*csv, width as nat),
    ensures
        r.wf(),
        r.delimiter == csv.delimiter,
        r.line_width == width,
        r.tokens() == padded_of(*csv, width as nat),
{
    let ghost t = csv.tokens();
    let ghost w = csv.line_width as nat;
    let n = csv.data.len();
    let mut out: Vec<String> = Vec::new();
    let mut start: usize = 0;
    assert(t.skip(0) =~= t);
    while start < n
        invariant
            t == csv.tokens(),
            w == csv.line_width,
            w > 0,
            n == t.len(),
            start <= n,
            start < n ==> (start == 0 || w <= width),
            fits(*csv, width as nat),
            padded_spec(t, w, width as nat) == views(out@) + padded_spec(t.skip(start as int), w, width as nat),
        decreases n - start,
    {
        let end: usize = if n - start > csv.line_width { start + csv.line_width } else { n };
        let ghost rest = t.skip(start as int);
        let ghost before = views(out@);
        let mut j: usize = start;
        while j < end
            invariant
                start <= j <= end,
                end <= n,
                n == csv.data@.len(),
                t == csv.tokens(),
                views(out@) == before + t.subrange(start as int, j as int),
            decreases end - j,
        {
            let ghost prev = views(out@);
            out.push(csv.data[j].clone());
            assert(views(out@) =~= prev.push(t[j as int]));
            assert(t.subrange(start as int, j + 1) =~= t.subrange(start as int, j as int).push(t[j as int]));
            j = j + 1;
        }
        let ghost mid = views(out@);
        let fill: usize = width - (end - start);
        let mut m: usize = 0;
        while m < fill
            invariant
                m <= fill,
                views(out@) == mid + blanks(m as nat),
            decreases fill - m,
        {
            let ghost prev = views(out@);
            out.push(String::new());
            assert(views(out@) =~= prev.push(Seq::<char>::empty()));
            assert(blanks((m + 1) as nat) =~= blanks(m as nat).push(Seq::<char>::empty()));
            m = m + 1;
        }
        if end < n {
            assert(rest.take(w as int) =~= t.subrange(start as int, end as int));
            assert(rest.skip(w as int) =~= t.skip(end as int));
        } else {
            assert(rest =~= t.subrange(start as int, end as int));
            assert(padded_spec(t.skip(end as int), w, width as nat) =~= Seq::<Seq<char>>::empty());
        }
        assert(padded_spec(rest, w, width as nat) =~= t.subrange(start as int, end as int) + blanks(fill as nat)
            + padded_spec(t.skip(end as int), w, width as nat));
        assert(views(out@) + padded_spec(t.skip(end as int), w, width as nat) =~= before + padded_spec(rest, w, width as nat));
        start = end;
    }
    assert(padded_spec(t.skip(n as int), w, width as nat) =~= Seq::<Seq<char>>::empty());
    assert(views(out@) =~= views(out@) + Seq::<Seq<char>>::empty());
    CsvData { data: out, delimiter: csv.delimiter, line_width: width }
}

/// Fills every row of every grid out to `width` tokens with empty tokens.
pub fn pad(csvs: &[CsvData], width: usize) -> (r: Vec<CsvData>)
    requires
        width > 0,
        forall|i: int| 0 <= i < csvs@.len() ==> (#[trigger] csvs@[i]).wf() && fits(csvs@[i], width as nat),
    ensures
        r@.len() == csvs@.len(),
        forall|i: int|
            0 <= i < r@.len() ==> (#[trigger] r@[i]).wf() && r@[i].delimiter == csvs@[i].delimiter
                && r@[i].line_width == width && r@[i].tokens() == padded_of(csvs@[i], width as nat),
{
    let mut out: Vec<CsvData> = Vec::new();
    let mut i: usize = 0;
    while i < csvs.len()
        invariant
            i <= csvs@.len(),
            width > 0,
            forall|i: int| 0 <= i < csvs@.len() ==> (#[trigger] csvs@[i]).wf() && fits(csvs@[i], width as nat),
            out@.len() == i,
            forall|k: int|
                0 <= k < i ==> (#[trigger] out@[k]).wf() && out@[k].delimiter == csvs@[k].delimiter
                    && out@[k].line_width == width && out@[k].tokens() == padded_of(csvs@[k], width as nat),
        decreases csvs@.len() - i,
    {
        out.push(pad_one(&csvs[i], width));
        i = i + 1;
    }
    out
}

/// `pad`, or nothing when some row is wider than `width`.
pub fn pad_checked(csvs: &[CsvData], width: usize) -> (r: Option<Vec<CsvData>>)
    requires
        forall|i: int| 0 <= i < csvs@.len() ==> (#[trigger] csvs@[i]).wf(),
    ensures
        r is Some <==> width > 0 && forall|i: int| 0 <= i < csvs@.len() ==> fits(#[trigger] csvs@[i], width as nat),
        r matches Some(v) ==> v@.len() == csvs@.len() && forall|i: int|
            0 <= i < v@.len() ==> (#[trigger] v@[i]).wf() && v@[i].delimiter == csvs@[i].delimiter
                && v@[i].line_width == width && v@[i].tokens() == padded_of(csvs@[i], width as nat),
{
    if width == 0 {
        return None;
    }
    let mut i: usize = 0;
    while i < csvs.len()
        invariant
            i <= csvs@.len(),
            forall|k: int| 0 <= k < i ==> fits(#[trigger] csvs@[k], width as nat),
        decreases csvs@.len() - i,
    {
        if csvs[i].line_width > width && csvs[i].data.len() > width {
            return None;
        }
        i = i + 1;
    }
    Some(pad(csvs, width))
}

/// The largest declared row width among `csvs`.
fn widest(csvs: &[CsvData]) -> (r: usize)
    ensures
        r == max_width(csvs@),
{
    let mut m: usize = 0;
    let mut i: usize = 0;
    while i < csvs.len()
        invariant
            i <= csvs@.len(),
            m == max_width(csvs@.take(i as int)),
        decreases csvs@.len() - i,
    {
        assert(csvs@.take(i + 1).drop_last() =~= csvs@.take(i as int));
        if csvs[i].line_width > m {
            m = csvs[i].line_width;
        }
        i = i + 1;
    }
    assert(csvs@.take(csvs@.len() as int) =~= csvs@);
    m
}

pub proof fn lemma_max_width(cs: Seq<CsvData>, i: int)
    requires
        0 <= i < cs.len(),
    ensures
        cs[i].line_width <= max_width(cs),
    decreases cs.len(),
{
    if i < cs.len() - 1 {
        lemma_max_width(cs.drop_last(), i);
    }
}

/// Every row of every grid, filled out to the widest width (at least
/// `line_width`), one grid after another; no rows are merged or dropped.
pub fn union_all(csvs: &[CsvData], delimiter: char, line_width: usize) -> (r: CsvData)
    requires
        csvs@.len() > 0,
        line_width > 0,
        forall|i: int| 0 <= i < csvs@.len() ==> (#[trigger] csvs@[i]).wf(),
    ensures
        r.wf(),
        r.delimiter == delimiter,
        r.line_width == line_width,
        r.tokens() == concat_padded(csvs@, if max_width(csvs@) > line_width { max_width(csvs@) } else { line_width as nat }),
{
    let m = widest(csvs);
    let width = if m > line_width { m } else { line_width };
    proof {
        assert forall|i: int| 0 <= i < csvs@.len() implies fits(#[trigger] csvs@[i], width as nat) by {
            lemma_max_width(csvs@, i);
        }
    }
    let padded = pad(csvs, width);
    let mut data: Vec<String> = Vec::new();
    let mut i: usize = 0;
    while i < padded.len()
        invariant
            i <= padded@.len(),
            padded@.len() == csvs@.len(),
            forall|k: int| 0 <= k < padded@.len() ==> (#[trigger] padded@[k]).tokens() == padded_of(csvs@[k], width as nat),
            views(data@) == concat_padded(csvs@.take(i as int), width as nat),
        decreases padded@.len() - i,
    {
        assert(csvs@.take(i + 1).drop_last() =~= csvs@.take(i as int));
        push_all(&mut data, &padded[i].data);
        i = i + 1;
    }
    assert(csvs@.take(csvs@.len() as int) =~= csvs@);
    CsvData { data, delimiter, line_width }
}

/// The left fold of pairwise intersection over the padded grids, which
/// gives up as soon as one step has no result or an empty one.
pub open spec fn inter_fold(cs: Seq<CsvData>, width: nat) -> Option<Seq<Seq<char>>>
    decreases cs.len(),
{
    if cs.len() == 0 {
        None
    } else if cs.len() == 1 {
        if padded_of(cs[0], width).len() == 0 {
            None
        } else {
            Some(padded_of(cs[0], width))
        }
    } else {
        match inter_fold(cs.drop_last(), width) {
            None => None,
            Some(acc) => if cs[0].delimiter != cs.last().delimiter {
                None
            } else {
                let t = arranged(
                    cs[0].delimiter,
                    inter_counts(
                        keys_spec(acc, width, cs[0].delimiter, width),
                        keys_spec(padded_of(cs.last(), width), width, cs.last().delimiter, width),
                    ),
                );
                if t.len() == 0 {
                    None
                } else {
                    Some(t)
                }
            },
        }
    }
}

proof fn lemma_fold_stays_none(cs: Seq<CsvData>, j: int, width: nat)
    requires
        1 <= j <= cs.len(),
        inter_fold(cs.take(j), width) is None,
    ensures
        inter_fold(cs, width) is None,
    decreases cs.len() - j,
{
    if j < cs.len() {
        assert(cs.take(j + 1).drop_last() =~= cs.take(j));
        lemma_fold_stays_none(cs, j + 1, width);
    } else {
        assert(cs.take(j) =~= cs);
    }
}

/// The rows common to all grids, after padding them to the widest width:
/// pairwise intersection folded from the left, with no result as soon as a
/// step has none or comes out empty; no result either when the first grid
/// has no rows.
pub fn intersection_all(csvs: &[CsvData]) -> (r: Option<CsvData>)
    requires
        csvs@.len() > 0,
        forall|i: int| 0 <= i < csvs@.len() ==> (#[trigger] csvs@[i]).wf(),
    ensures
        r is Some <==> inter_fold(csvs@, max_width(csvs@)) is Some,
        r matches Some(g) ==> g.wf() && g.delimiter == csvs@[0].delimiter && g.line_width
            == max_width(csvs@) && Some(g.tokens()) == inter_fold(csvs@, max_width(csvs@))
            && g.data@.len() > 0,
{
    let width = widest(csvs);
    let ghost cs = csvs@;
    let ghost wn = width as nat;
    proof {
        lemma_max_width(cs, 0);
        assert forall|i: int| 0 <= i < cs.len() implies fits(#[trigger] cs[i], wn) by {
            lemma_max_width(cs, i);
        }
    }
    let mut padded = pad(csvs, width);
    let mut acc = padded.remove(0);
    assert(cs.take(1).len() == 1 && cs.take(1)[0] == cs[0]);
    if acc.data.len() == 0 {
        proof {
            lemma_fold_stays_none(cs, 1, wn);
        }
        return None;
    }
    let mut i: usize = 1;
    while i < csvs.len()
        invariant
            cs == csvs@,
            wn == width,
            wn == max_width(cs),
            1 <= i <= cs.len(),
            padded@.len() == cs.len() - 1,
            forall|k: int|
                0 <= k < padded@.len() ==> (#[trigger] padded@[k]).wf() && padded@[k].delimiter
                    == cs[k + 1].delimiter && padded@[k].line_width == width && padded@[k].tokens()
                    == padded_of(cs[k + 1], wn),
            acc.wf(),
            acc.delimiter == cs[0].delimiter,
            acc.line_width == width,
            acc.data@.len() > 0,
            inter_fold(cs.take(i as int), wn) == Some(acc.tokens()),
        decreases cs.len() - i,
    {
        let ghost step = cs.take(i + 1);
        assert(step.drop_last() =~= cs.take(i as int));
        assert(step[0] == cs[0] && step.last() == cs[i as int]);
        match acc.intersection(&padded[i - 1]) {
            None => {
                proof {
                    lemma_fold_stays_none(cs, i + 1, wn);
                }
                return None;
            },
            Some(res) => {
                if res.data.len() == 0 {
                    proof {
                        lemma_fold_stays_none(cs, i + 1, wn);
                    }
                    return None;
                }
                acc = res;
            },
        }
        i = i + 1;
    }
    assert(cs.take(cs.len() as int) =~= cs);
    Some(acc)
}

/// The row keys of every grid padded to `width`, joined with `d`.
pub open spec fn grid_keys(cs: Seq<CsvData>, width: nat, d: char) -> Seq<Seq<Seq<char>>> {
    Seq::new(cs.len(), |i: int| keys_spec(padded_of(cs[i], width), width, d, width))
}

/// In how many of the key sequences `k` occurs.
pub open spec fn presence(kss: Seq<Seq<Seq<char>>>, k: Seq<char>) -> nat
    decreases kss.len(),
{
    if kss.len() == 0 {
        0
    } else {
        presence(kss.drop_last(), k) + if count(kss.last(), k) > 0 {
            1nat
        } else {
            0nat
        }
    }
}

/// How often `k` occurs in all the key sequences together.
pub open spec fn total(kss: Seq<Seq<Seq<char>>>, k: Seq<char>) -> nat
    decreases kss.len(),
{
    if kss.len() == 0 {
        0
    } else {
        total(kss.drop_last(), k) + count(kss.last(), k)
    }
}

pub open spec fn flat(kss: Seq<Seq<Seq<char>>>) -> Seq<Seq<char>>
    decreases kss.len(),
{
    if kss.len() == 0 {
        Seq::<Seq<char>>::empty()
    } else {
        flat(kss.drop_last()) + kss.last()
    }
}

pub proof fn lemma_total_flat(kss: Seq<Seq<Seq<char>>>, k: Seq<char>)
    ensures
        total(kss, k) == count(flat(kss), k),
    decreases kss.len(),
{
    if kss.len() > 0 {
        lemma_total_flat(kss.drop_last(), k);
        lemma_count_concat(flat(kss.drop_last()), kss.last(), k);
    }
}

/// Keys that occur in exactly one sequence, as often as they occur there.
pub open spec fn exactly_one_counts(kss: Seq<Seq<Seq<char>>>) -> spec_fn(Seq<char>) -> nat {
    |k: Seq<char>| if presence(kss, k) == 1 {
        total(kss, k)
    } else {
        0
    }
}

/// The rows found in exactly one of the grids, after padding them all to
/// the widest width, each as often as that grid has it, in key order.
pub fn difference_all(csvs: &[CsvData]) -> (r: CsvData)
    requires
        csvs@.len() > 0,
        forall|i: int| 0 <= i < csvs@.len() ==> (#[trigger] csvs@[i]).wf(),
    ensures
        r.wf(),
        r.delimiter == csvs@[0].delimiter,
        r.line_width == max_width(csvs@),
        r.tokens() == arranged(
            csvs@[0].delimiter,
            exactly_one_counts(grid_keys(csvs@, max_width(csvs@), csvs@[0].delimiter)),
        ),
{
    let width = widest(csvs);
    let ghost cs = csvs@;
    let ghost wn = width as nat;
    proof {
        lemma_max_width(cs, 0);
        assert forall|i: int| 0 <= i < cs.len() implies fits(#[trigger] cs[i], wn) by {
            lemma_max_width(cs, i);
        }
    }
    let d = csvs[0].delimiter;
    let ghost kss = grid_keys(cs, wn, d);
    let padded = pad(csvs, width);
    let mut per: Vec<Vec<String>> = Vec::new();
    let mut all: Vec<String> = Vec::new();
    let mut i: usize = 0;
    while i < padded.len()
        invariant
            kss == grid_keys(cs, wn, d),
            wn == width,
            padded@.len() == cs.len(),
            forall|k: int|
                0 <= k < padded@.len() ==> (#[trigger] padded@[k]).wf() && padded@[k].line_width
                    == width && padded@[k].tokens() == padded_of(cs[k], wn),
            i <= padded@.len(),
            per@.len() == i,
            forall|k: int| 0 <= k < i ==> views((#[trigger] per@[k])@) == kss[k],
            views(all@) == flat(kss.take(i as int)),
        decreases padded@.len() - i,
    {
        let ks = padded[i].keys_with(d, width);
        assert(padded@[i as int].tokens() == padded_of(cs[i as int], wn));
        assert(kss[i as int] == views(ks@));
        assert(kss.take(i + 1).drop_last() =~= kss.take(i as int));
        assert(kss.take(i + 1).last() == kss[i as int]);
        push_all(&mut all, &ks);
        per.push(ks);
        i = i + 1;
    }
    assert(kss.take(kss.len() as int) =~= kss);
    let u = distinct_sorted(&all);
    let mut c: Vec<usize> = Vec::new();
    let mut j: usize = 0;
    while j < u.len()
        invariant
            j <= u@.len(),
            c@.len() == j,
            per@.len() == kss.len(),
            forall|k: int| 0 <= k < per@.len() ==> views((#[trigger] per@[k])@) == kss[k],
            views(all@) == flat(kss),
            forall|m: int| 0 <= m < j ==> c@[m] == exactly_one_counts(kss)(#[trigger] views(u@)[m]),
        decreases u@.len() - j,
    {
        let ghost key = views(u@)[j as int];
        let mut p: usize = 0;
        let mut g: usize = 0;
        while g < per.len()
            invariant
                g <= per@.len(),
                per@.len() == kss.len(),
                forall|k: int| 0 <= k < per@.len() ==> views((#[trigger] per@[k])@) == kss[k],
                key == views(u@)[j as int],
                j < u@.len(),
                p == presence(kss.take(g as int), key),
                p <= g,
            decreases per@.len() - g,
        {
            assert(kss.take(g + 1).drop_last() =~= kss.take(g as int));
            assert(views(per@[g as int]@) == kss.take(g + 1).last());
            if count_key(&per[g], &u[j]) > 0 {
                p = p + 1;
            }
            g = g + 1;
        }
        assert(kss.take(per@.len() as int) =~= kss);
        let t = count_key(&all, &u[j]);
        proof {
            lemma_total_flat(kss, key);
        }
        c.push(if p == 1 { t } else { 0 });
        j = j + 1;
    }
    let (data, Ghost(ks)) = emit(&u, &c, d);
    proof {
        assert forall|k: Seq<char>| #[trigger] count(ks, k) == exactly_one_counts(kss)(k) by {
            lemma_count_absent(views(all@), k);
            lemma_total_flat(kss, k);
            if views(u@).contains(k) {
                let m = choose|m: int| 0 <= m < views(u@).len() && views(u@)[m] == k;
                assert(count(ks, views(u@)[m]) == c@[m]);
            }
        }
        lemma_arranged(views(data@), d, exactly_one_counts(kss));
    }
    CsvData { data, delimiter: d, line_width: width }
}

} // verus!
