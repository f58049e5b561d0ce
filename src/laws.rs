use vstd::prelude::*;
use crate::arrange::{flatten_split, sorted};
use crate::csvdata::{
    keys_spec, rows_spec, arranged, inter_counts, is_arrangement, max_nat, min_nat, only_counts, union_counts, CsvData,
};
use crate::keys::{count, join_spec, key_spec, pad_marks, width_gap, lemma_split_nonempty, split_spec, lemma_count_absent, lemma_count_concat, lemma_lex_total, lemma_lex_trans, lex_le, lex_lt};
use crate::text::{text_of, text_tokens, text_width};
use crate::nway::{blanks, lemma_max_width, padded_of, padded_spec, exactly_one_counts, flat, grid_keys, lemma_total_flat, max_width, presence, total};

verus! {

pub open spec fn repeat(x: Seq<char>, n: nat) -> Seq<Seq<char>> {
    Seq::new(n, |i: int| x)
}

proof fn lemma_count_repeat(x: Seq<char>, n: nat, k: Seq<char>)
    ensures
        count(repeat(x, n), k) == if x == k { n } else { 0 },
    decreases n,
{
    if n > 0 {
        lemma_count_repeat(x, (n - 1) as nat, k);
        assert(repeat(x, n).drop_last() =~= repeat(x, (n - 1) as nat));
    } else {
        assert(repeat(x, n).len() == 0);
    }
}

/// Where `x` would go in a sorted sequence that lacks it.
proof fn lemma_insert_point(ks: Seq<Seq<char>>, x: Seq<char>) -> (p: int)
    requires
        sorted(ks),
        !ks.contains(x),
    ensures
        0 <= p <= ks.len(),
        forall|i: int| 0 <= i < p ==> lex_lt(#[trigger] ks[i], x),
        forall|i: int| p <= i < ks.len() ==> lex_lt(x, #[trigger] ks[i]),
    decreases ks.len(),
{
    if ks.len() == 0 {
        0
    } else {
        let last = ks.last();
        assert(ks[ks.len() - 1] == last);
        if lex_lt(last, x) {
            assert forall|i: int| 0 <= i < ks.len() implies lex_lt(#[trigger] ks[i], x) by {
                if i < ks.len() - 1 {
                    assert(lex_le(ks[i], ks[ks.len() - 1]));
                    if ks[i] != last {
                        lemma_lex_trans(ks[i], last, x);
                    }
                }
            }
            ks.len() as int
        } else {
            lemma_lex_total(last, x);
            let q = ks.drop_last();
            assert forall|i: int| 0 <= i < q.len() && q[i] == x implies false by {
                assert(ks[i] == x);
            }
            let p = lemma_insert_point(q, x);
            assert forall|i: int| p <= i < ks.len() implies lex_lt(x, #[trigger] ks[i]) by {
                if i < ks.len() - 1 {
                    assert(ks[i] == q[i]);
                }
            }
            assert forall|i: int| 0 <= i < p implies lex_lt(#[trigger] ks[i], x) by {
                assert(ks[i] == q[i]);
            }
            p
        }
    }
}

/// A sorted sequence holding each key `k` exactly `f(k)` times, for any
/// `f` whose keys all occur in `s`.
proof fn lemma_sorted_with_counts(s: Seq<Seq<char>>, f: spec_fn(Seq<char>) -> nat) -> (ks: Seq<Seq<char>>)
    requires
        forall|k: Seq<char>| f(k) > 0 ==> s.contains(k),
    ensures
        sorted(ks),
        forall|k: Seq<char>| #[trigger] count(ks, k) == f(k),
    decreases s.len(),
{
    if s.len() == 0 {
        assert forall|k: Seq<char>| #[trigger] count(Seq::<Seq<char>>::empty(), k) == f(k) by {
            if f(k) > 0 {
                assert(s.contains(k));
            }
        }
        Seq::<Seq<char>>::empty()
    } else {
        let x = s.last();
        let g = |k: Seq<char>| if k == x { 0nat } else { f(k) };
        assert forall|k: Seq<char>| g(k) > 0 implies s.drop_last().contains(k) by {
            assert(k != x && f(k) > 0);
            assert(s.contains(k));
            let j = choose|j: int| 0 <= j < s.len() && s[j] == k;
            assert(s[s.len() - 1] == x);
            assert(j != s.len() - 1);
            assert(s.drop_last()[j] == k);
        }
        let rest = lemma_sorted_with_counts(s.drop_last(), g);
        assert(count(rest, x) == 0);
        lemma_count_absent(rest, x);
        let p = lemma_insert_point(rest, x);
        let n = f(x);
        let a = rest.take(p);
        let b = rest.skip(p);
        let ks = a + repeat(x, n) + b;
        assert(rest =~= a + b);
        assert forall|k: Seq<char>| #[trigger] count(ks, k) == f(k) by {
            lemma_count_concat(a + repeat(x, n), b, k);
            lemma_count_concat(a, repeat(x, n), k);
            lemma_count_concat(a, b, k);
            lemma_count_repeat(x, n, k);
            assert(count(rest, k) == g(k));
        }
        assert forall|i: int, j: int| 0 <= i < j < ks.len() implies lex_le(#[trigger] ks[i], #[trigger] ks[j]) by {
            let pn = p + n;
            if j < p {
                assert(ks[i] == rest[i] && ks[j] == rest[j]);
            } else if i < p && j < pn {
                assert(ks[i] == rest[i] && ks[j] == x);
            } else if i < p {
                assert(ks[i] == rest[i] && ks[j] == rest[j - n]);
            } else if j < pn {
                assert(ks[i] == x && ks[j] == x);
            } else if i < pn {
                assert(ks[i] == x && ks[j] == rest[j - n]);
            } else {
                assert(ks[i] == rest[i - n] && ks[j] == rest[j - n]);
            }
        }
        ks
    }
}

/// Every count function whose keys all occur in `s` has its sorted
/// arrangement, and `arranged` gives it.
pub proof fn lemma_arrangement_exists(s: Seq<Seq<char>>, d: char, f: spec_fn(Seq<char>) -> nat)
    requires
        forall|k: Seq<char>| f(k) > 0 ==> s.contains(k),
    ensures
        is_arrangement(arranged(d, f), d, f),
{
    let ks = lemma_sorted_with_counts(s, f);
    assert(is_arrangement(flatten_split(ks, d), d, f));
}

proof fn lemma_in_union(ka: Seq<Seq<char>>, kb: Seq<Seq<char>>)
    ensures
        forall|k: Seq<char>| union_counts(ka, kb)(k) > 0 ==> (ka + kb).contains(k),
{
    assert forall|k: Seq<char>| union_counts(ka, kb)(k) > 0 implies (ka + kb).contains(k) by {
        lemma_count_concat(ka, kb, k);
        lemma_count_absent(ka + kb, k);
    }
}

/// Union is commutative: swapping the two grids gives the same tokens, so
/// the same rows with the same multiplicities.
pub proof fn law_union_commutes(a: CsvData, b: CsvData)
    requires
        a.wf(),
        b.wf(),
        a.delimiter == b.delimiter,
    ensures
        ({
            let w = max_nat(a.line_width as nat, b.line_width as nat);
            arranged(a.delimiter, union_counts(a.keys_at(w), b.keys_at(w))) == arranged(
                b.delimiter,
                union_counts(b.keys_at(w), a.keys_at(w)),
            )
        }),
{
    let w = max_nat(a.line_width as nat, b.line_width as nat);
    assert(union_counts(a.keys_at(w), b.keys_at(w)) =~= union_counts(b.keys_at(w), a.keys_at(w)));
}

/// In the union each row key, padded to the common width, occurs as often
/// as in the first grid plus as often as in the second; keys in order.
pub proof fn law_union_multiplicity(a: CsvData, b: CsvData)
    requires
        a.wf(),
        b.wf(),
        a.delimiter == b.delimiter,
    ensures
        ({
            let w = max_nat(a.line_width as nat, b.line_width as nat);
            let f = union_counts(a.keys_at(w), b.keys_at(w));
            &&& is_arrangement(arranged(a.delimiter, f), a.delimiter, f)
            &&& forall|k: Seq<char>| #[trigger] f(k) == count(a.keys_at(w), k) + count(b.keys_at(w), k)
        }),
{
    let w = max_nat(a.line_width as nat, b.line_width as nat);
    lemma_in_union(a.keys_at(w), b.keys_at(w));
    lemma_arrangement_exists(a.keys_at(w) + b.keys_at(w), a.delimiter, union_counts(a.keys_at(w), b.keys_at(w)));
}

/// In the intersection each row key, padded to the common width, occurs as
/// often as in whichever grid has it fewer times.
pub proof fn law_intersection_multiplicity(a: CsvData, b: CsvData)
    requires
        a.wf(),
        b.wf(),
        a.delimiter == b.delimiter,
    ensures
        ({
            let w = max_nat(a.line_width as nat, b.line_width as nat);
            let f = inter_counts(a.keys_at(w), b.keys_at(w));
            &&& is_arrangement(arranged(a.delimiter, f), a.delimiter, f)
            &&& forall|k: Seq<char>| #[trigger] f(k) == min_nat(count(a.keys_at(w), k), count(b.keys_at(w), k))
        }),
{
    let w = max_nat(a.line_width as nat, b.line_width as nat);
    let f = inter_counts(a.keys_at(w), b.keys_at(w));
    assert forall|k: Seq<char>| f(k) > 0 implies a.keys_at(w).contains(k) by {
        lemma_count_absent(a.keys_at(w), k);
    }
    lemma_arrangement_exists(a.keys_at(w), a.delimiter, f);
}

/// No row key that both grids hold, padded to the common width, is in
/// either part of their difference.
pub proof fn law_difference_excludes_common(a: CsvData, b: CsvData)
    requires
        a.wf(),
        b.wf(),
        a.delimiter == b.delimiter,
    ensures
        ({
            let w = max_nat(a.line_width as nat, b.line_width as nat);
            let f1 = only_counts(a.keys_at(w), b.keys_at(w));
            let f2 = only_counts(b.keys_at(w), a.keys_at(w));
            &&& is_arrangement(arranged(a.delimiter, f1), a.delimiter, f1)
            &&& is_arrangement(arranged(a.delimiter, f2), a.delimiter, f2)
            &&& forall|k: Seq<char>|
                count(a.keys_at(w), k) > 0 && count(b.keys_at(w), k) > 0 ==> #[trigger] f1(k) == 0
                    && f2(k) == 0
        }),
{
    let w = max_nat(a.line_width as nat, b.line_width as nat);
    let f1 = only_counts(a.keys_at(w), b.keys_at(w));
    let f2 = only_counts(b.keys_at(w), a.keys_at(w));
    assert forall|k: Seq<char>| f1(k) > 0 implies a.keys_at(w).contains(k) by {
        lemma_count_absent(a.keys_at(w), k);
    }
    assert forall|k: Seq<char>| f2(k) > 0 implies b.keys_at(w).contains(k) by {
        lemma_count_absent(b.keys_at(w), k);
    }
    lemma_arrangement_exists(a.keys_at(w), a.delimiter, f1);
    lemma_arrangement_exists(b.keys_at(w), a.delimiter, f2);
}

/// Across three grids, a row key that the first and third hold but the
/// second lacks is left out of the N-way difference; one that only the
/// first holds is kept, as often as the first holds it.
pub proof fn law_difference_all_exactly_one(cs: Seq<CsvData>)
    requires
        cs.len() == 3,
        forall|i: int| 0 <= i < cs.len() ==> (#[trigger] cs[i]).wf(),
    ensures
        ({
            let kss = grid_keys(cs, max_width(cs), cs[0].delimiter);
            let f = exactly_one_counts(kss);
            &&& is_arrangement(arranged(cs[0].delimiter, f), cs[0].delimiter, f)
            &&& forall|k: Seq<char>|
                count(kss[0], k) > 0 && count(kss[1], k) == 0 && count(kss[2], k) > 0 ==> #[trigger] f(k)
                    == 0
            &&& forall|k: Seq<char>|
                count(kss[0], k) > 0 && count(kss[1], k) == 0 && count(kss[2], k) == 0 ==> #[trigger] f(k)
                    == count(kss[0], k)
        }),
{
    let kss = grid_keys(cs, max_width(cs), cs[0].delimiter);
    let f = exactly_one_counts(kss);
    let k2 = kss.drop_last();
    let k1 = k2.drop_last();
    let k0 = k1.drop_last();
    assert(k0.len() == 0);
    assert(k1.last() == kss[0] && k2.last() == kss[1] && kss.last() == kss[2]);
    assert forall|k: Seq<char>| f(k) > 0 implies flat(kss).contains(k) by {
        lemma_total_flat(kss, k);
        lemma_count_absent(flat(kss), k);
    }
    lemma_arrangement_exists(flat(kss), cs[0].delimiter, f);
    assert forall|k: Seq<char>|
        count(kss[0], k) > 0 && count(kss[1], k) == 0 && count(kss[2], k) > 0 implies #[trigger] f(k) == 0 by {
        assert(presence(k0, k) == 0);
        assert(presence(k1, k) == 1);
        assert(presence(k2, k) == 1);
        assert(presence(kss, k) == 2);
    }
    assert forall|k: Seq<char>|
        count(kss[0], k) > 0 && count(kss[1], k) == 0 && count(kss[2], k) == 0 implies #[trigger] f(k)
            == count(kss[0], k) by {
        assert(presence(k0, k) == 0);
        assert(total(k0, k) == 0);
        assert(presence(k1, k) == 1 && total(k1, k) == count(kss[0], k));
        assert(presence(k2, k) == 1 && total(k2, k) == count(kss[0], k));
        assert(presence(kss, k) == 1);
        assert(total(kss, k) == count(kss[0], k));
    }
}

proof fn lemma_split_concat(x: Seq<char>, y: Seq<char>, c: char)
    ensures
        split_spec(x + seq![c] + y, c) == split_spec(x, c) + split_spec(y, c),
    decreases y.len(),
{
    lemma_split_nonempty(x, c);
    if y.len() == 0 {
        assert((x + seq![c] + y).drop_last() =~= x);
        assert(split_spec(y, c) =~= seq![Seq::<char>::empty()]);
        assert(split_spec(x, c).push(Seq::<char>::empty()) =~= split_spec(x, c) + split_spec(y, c));
    } else {
        lemma_split_concat(x, y.drop_last(), c);
        lemma_split_nonempty(y.drop_last(), c);
        assert((x + seq![c] + y).drop_last() =~= x + seq![c] + y.drop_last());
        let p = split_spec(x, c) + split_spec(y.drop_last(), c);
        if y.last() == c {
            assert(p.push(Seq::<char>::empty()) =~= split_spec(x, c) + split_spec(y.drop_last(), c).push(Seq::<char>::empty()));
        } else {
            let q = split_spec(y.drop_last(), c);
            assert(p.update(p.len() - 1, p.last().push(y.last())) =~= split_spec(x, c) + q.update(q.len() - 1, q.last().push(y.last())));
        }
    }
}

proof fn lemma_split_whole(s: Seq<char>, c: char)
    requires
        !s.contains(c),
    ensures
        split_spec(s, c) == seq![s],
    decreases s.len(),
{
    if s.len() == 0 {
        assert(s =~= Seq::<char>::empty());
    } else {
        assert(s[s.len() - 1] == s.last());
        assert(!s.drop_last().contains(c)) by {
            if s.drop_last().contains(c) {
                let j = choose|j: int| 0 <= j < s.drop_last().len() && s.drop_last()[j] == c;
                assert(s[j] == c);
            }
        }
        lemma_split_whole(s.drop_last(), c);
        assert(s.drop_last().push(s.last()) =~= s);
    }
}

pub open spec fn free_of(ts: Seq<Seq<char>>, c: char) -> bool {
    forall|j: int| 0 <= j < ts.len() ==> !(#[trigger] ts[j]).contains(c)
}

proof fn lemma_join_split(r: Seq<Seq<char>>, d: char)
    requires
        r.len() > 0,
        free_of(r, d),
    ensures
        split_spec(join_spec(r, d), d) == r,
    decreases r.len(),
{
    if r.len() == 1 {
        lemma_split_whole(r[0], d);
        assert(r =~= seq![r[0]]);
    } else {
        assert(free_of(r.drop_last(), d)) by {
            assert forall|j: int| 0 <= j < r.drop_last().len() implies !(#[trigger] r.drop_last()[j]).contains(d) by {
                assert(r.drop_last()[j] == r[j]);
            }
        }
        lemma_join_split(r.drop_last(), d);
        assert(r[r.len() - 1] == r.last());
        lemma_split_whole(r.last(), d);
        lemma_split_concat(join_spec(r.drop_last(), d), r.last(), d);
        assert(join_spec(r.drop_last(), d).push(d) =~= join_spec(r.drop_last(), d) + seq![d]);
        assert(r.drop_last() + seq![r.last()] =~= r);
    }
}

proof fn lemma_join_free(r: Seq<Seq<char>>, d: char, c: char)
    requires
        free_of(r, c),
        d != c,
    ensures
        !join_spec(r, d).contains(c),
    decreases r.len(),
{
    if r.len() > 1 {
        assert(free_of(r.drop_last(), c)) by {
            assert forall|j: int| 0 <= j < r.drop_last().len() implies !(#[trigger] r.drop_last()[j]).contains(c) by {
                assert(r.drop_last()[j] == r[j]);
            }
        }
        lemma_join_free(r.drop_last(), d, c);
        assert(r[r.len() - 1] == r.last());
        let a = join_spec(r.drop_last(), d).push(d);
        if (a + r.last()).contains(c) {
            let j = choose|j: int| 0 <= j < (a + r.last()).len() && (a + r.last())[j] == c;
            if j < a.len() - 1 {
                assert(join_spec(r.drop_last(), d)[j] == c);
            } else if j >= a.len() {
                assert(r.last()[j - a.len()] == c);
            }
        }
    } else if r.len() == 1 {
        assert(r[0] == r[0]);
    }
}

proof fn lemma_text_tokens_concat(a: Seq<Seq<char>>, b: Seq<Seq<char>>, d: char)
    ensures
        text_tokens(a + b, d) == text_tokens(a, d) + text_tokens(b, d),
        text_width(a + b, d) == max_nat(text_width(a, d), text_width(b, d)),
    decreases b.len(),
{
    if b.len() == 0 {
        assert(a + b =~= a);
        assert(text_tokens(a, d) + text_tokens(b, d) =~= text_tokens(a, d));
    } else {
        lemma_text_tokens_concat(a, b.drop_last(), d);
        assert((a + b).drop_last() =~= a + b.drop_last());
        assert((a + b).last() == b.last());
        if b.last().len() > 0 {
            assert(text_tokens(a, d) + text_tokens(b.drop_last(), d) + split_spec(b.last(), d)
                =~= text_tokens(a, d) + (text_tokens(b.drop_last(), d) + split_spec(b.last(), d)));
        }
    }
}

/// The lines of the text of `rows`, each row joined with `d`.
pub open spec fn joined(rows: Seq<Seq<Seq<char>>>, d: char) -> Seq<Seq<char>> {
    rows.map_values(|r: Seq<Seq<char>>| join_spec(r, d))
}

pub open spec fn rows_concat(rows: Seq<Seq<Seq<char>>>) -> Seq<Seq<char>>
    decreases rows.len(),
{
    if rows.len() == 0 {
        Seq::<Seq<char>>::empty()
    } else {
        rows[0] + rows_concat(rows.drop_first())
    }
}

proof fn lemma_rows_concat(t: Seq<Seq<char>>, w: nat)
    requires
        w > 0,
    ensures
        rows_concat(rows_spec(t, w)) == t,
    decreases t.len(),
{
    if t.len() == 0 {
        assert(t =~= Seq::<Seq<char>>::empty());
    } else if t.len() <= w {
        assert(rows_spec(t, w) == seq![t]);
        assert(rows_spec(t, w)[0] == t);
        assert(rows_spec(t, w).drop_first() =~= Seq::<Seq<Seq<char>>>::empty());
        assert(rows_concat(Seq::<Seq<Seq<char>>>::empty()) == Seq::<Seq<char>>::empty());
        assert(t + Seq::<Seq<char>>::empty() =~= t);
    } else {
        lemma_rows_concat(t.skip(w as int), w);
        assert(rows_spec(t, w)[0] == t.take(w as int));
        assert(rows_spec(t, w).drop_first() =~= rows_spec(t.skip(w as int), w));
        assert(t.take(w as int) + t.skip(w as int) =~= t);
    }
}

proof fn lemma_rows_text(rows: Seq<Seq<Seq<char>>>, d: char, w: nat)
    requires
        d != '\n',
        w > 0,
        forall|i: int| 0 <= i < rows.len() ==> (#[trigger] rows[i]).len() == w,
        forall|i: int| 0 <= i < rows.len() ==> free_of(#[trigger] rows[i], d) && free_of(rows[i], '\n'),
        forall|i: int| 0 <= i < rows.len() ==> join_spec(#[trigger] rows[i], d).len() > 0,
    ensures
        split_spec(text_of(rows, d), '\n') == joined(rows, d) + seq![Seq::<char>::empty()],
        text_tokens(joined(rows, d), d) == rows_concat(rows),
        text_width(joined(rows, d), d) == if rows.len() == 0 { 0 } else { w },
    decreases rows.len(),
{
    if rows.len() == 0 {
        assert(joined(rows, d) =~= Seq::<Seq<char>>::empty());
        assert(text_of(rows, d) =~= Seq::<char>::empty());
        assert(Seq::<Seq<char>>::empty() + seq![Seq::<char>::empty()] =~= seq![Seq::<char>::empty()]);
    } else {
        let rest = rows.drop_first();
        assert forall|i: int| 0 <= i < rest.len() implies (#[trigger] rest[i]).len() == w && free_of(rest[i], d)
            && free_of(rest[i], '\n') && join_spec(rest[i], d).len() > 0 by {
            assert(rest[i] == rows[i + 1]);
        }
        lemma_rows_text(rest, d, w);
        let r0 = rows[0];
        let j0 = join_spec(r0, d);
        assert(j0.len() > 0 && r0.len() == w && free_of(r0, d) && free_of(r0, '\n'));
        assert(seq![j0].last() == j0 && seq![j0].len() == 1);
        lemma_join_free(r0, d, '\n');
        lemma_split_whole(j0, '\n');
        lemma_split_concat(j0, text_of(rest, d), '\n');
        assert(j0 + seq!['\n'] + text_of(rest, d) == text_of(rows, d));
        assert(joined(rows, d) =~= seq![j0] + joined(rest, d));
        assert(seq![j0] + (joined(rest, d) + seq![Seq::<char>::empty()]) =~= joined(rows, d) + seq![Seq::<char>::empty()]);
        lemma_text_tokens_concat(seq![j0], joined(rest, d), d);
        lemma_join_split(r0, d);
        assert(seq![j0].drop_last() =~= Seq::<Seq<char>>::empty());
        assert(text_tokens(seq![j0].drop_last(), d) == Seq::<Seq<char>>::empty());
        assert(text_tokens(seq![j0], d) == Seq::<Seq<char>>::empty() + split_spec(j0, d));
        assert(Seq::<Seq<char>>::empty() + r0 =~= r0);
        assert(text_width(seq![j0].drop_last(), d) == 0);
        assert(text_width(seq![j0], d) == w);
        assert(rows_concat(rows) == r0 + rows_concat(rest));
    }
}

/// Saving a grid as text and reading it back gives the same grid, when no
/// row is ragged, no token holds the delimiter or a newline, and no line of
/// the text is empty (the grid has tokens, and no row is one empty token).
pub proof fn law_text_round_trip(g: CsvData)
    requires
        g.wf(),
        g.data@.len() > 0,
        g.delimiter != '\n',
        forall|i: int| 0 <= i < g.rows().len() ==> (#[trigger] g.rows()[i]).len() == g.line_width,
        free_of(g.tokens(), g.delimiter),
        free_of(g.tokens(), '\n'),
        g.line_width > 1 || all_nonempty(g.tokens()),
    ensures
        text_tokens(split_spec(text_of(g.rows(), g.delimiter), '\n'), g.delimiter) == g.tokens(),
        text_width(split_spec(text_of(g.rows(), g.delimiter), '\n'), g.delimiter) == g.line_width,
{
    let t = g.tokens();
    let w = g.line_width as nat;
    let d = g.delimiter;
    let rows = g.rows();
    lemma_rows_inherit(t, w, d);
    lemma_rows_inherit(t, w, '\n');
    assert forall|i: int| 0 <= i < rows.len() implies join_spec(#[trigger] rows[i], d).len() > 0 by {
        let r = rows[i];
        if w > 1 {
            assert(join_spec(r, d) == join_spec(r.drop_last(), d).push(d) + r.last());
        } else {
            assert(all_nonempty(t));
            assert(all_nonempty(r));
            assert(r.len() == 1);
            assert(join_spec(r, d) == r[0]);
        }
    }
    lemma_rows_text(rows, d, w);
    lemma_rows_concat(t, w);
    lemma_text_tokens_concat(joined(rows, d), seq![Seq::<char>::empty()], d);
    let e = seq![Seq::<char>::empty()];
    assert(e.drop_last() =~= Seq::<Seq<char>>::empty());
    assert(e.last().len() == 0);
    assert(text_tokens(e, d) == text_tokens(e.drop_last(), d));
    assert(text_tokens(e.drop_last(), d) == Seq::<Seq<char>>::empty());
    assert(text_width(e.drop_last(), d) == 0);
    assert(text_width(e, d) == 0);
    assert(text_tokens(joined(rows, d), d) + text_tokens(e, d) =~= text_tokens(joined(rows, d), d));
    assert(rows.len() > 0);
}

pub open spec fn all_nonempty(ts: Seq<Seq<char>>) -> bool {
    forall|j: int| 0 <= j < ts.len() ==> (#[trigger] ts[j]).len() > 0
}

/// Rows keep what holds of every token.
proof fn lemma_rows_inherit(t: Seq<Seq<char>>, w: nat, c: char)
    requires
        w > 0,
    ensures
        free_of(t, c) ==> forall|i: int| 0 <= i < rows_spec(t, w).len() ==> free_of(#[trigger] rows_spec(t, w)[i], c),
        all_nonempty(t) ==> forall|i: int| 0 <= i < rows_spec(t, w).len() ==> all_nonempty(#[trigger] rows_spec(t, w)[i]),
        forall|i: int| 0 <= i < rows_spec(t, w).len() ==> (#[trigger] rows_spec(t, w)[i]).len() > 0
            && rows_spec(t, w)[i].len() <= w,
        t.len() > 0 ==> rows_spec(t, w).len() > 0,
    decreases t.len(),
{
    if t.len() > w {
        let rest = t.skip(w as int);
        lemma_rows_inherit(rest, w, c);
        let rs = rows_spec(t, w);
        assert(rs == seq![t.take(w as int)] + rows_spec(rest, w));
        if free_of(t, c) {
            assert(free_of(rest, c)) by {
                assert forall|j: int| 0 <= j < rest.len() implies !(#[trigger] rest[j]).contains(c) by {
                    assert(rest[j] == t[j + w]);
                }
            }
            assert forall|i: int| 0 <= i < rs.len() implies free_of(#[trigger] rs[i], c) by {
                if i == 0 {
                    assert forall|j: int| 0 <= j < rs[0].len() implies !(#[trigger] rs[0][j]).contains(c) by {
                        assert(rs[0][j] == t[j]);
                    }
                } else {
                    assert(rs[i] == rows_spec(rest, w)[i - 1]);
                }
            }
        }
        if all_nonempty(t) {
            assert(all_nonempty(rest)) by {
                assert forall|j: int| 0 <= j < rest.len() implies (#[trigger] rest[j]).len() > 0 by {
                    assert(rest[j] == t[j + w]);
                }
            }
            assert forall|i: int| 0 <= i < rs.len() implies all_nonempty(#[trigger] rs[i]) by {
                if i == 0 {
                    assert forall|j: int| 0 <= j < rs[0].len() implies (#[trigger] rs[0][j]).len() > 0 by {
                        assert(rs[0][j] == t[j]);
                    }
                } else {
                    assert(rs[i] == rows_spec(rest, w)[i - 1]);
                }
            }
        }
        assert forall|i: int| 0 <= i < rs.len() implies (#[trigger] rs[i]).len() > 0 && rs[i].len() <= w by {
            if i > 0 {
                assert(rs[i] == rows_spec(rest, w)[i - 1]);
            }
        }
    } else if t.len() > 0 {
        assert(rows_spec(t, w) == seq![t]);
        assert(rows_spec(t, w)[0] == t);
    } else {
        assert(rows_spec(t, w).len() == 0);
    }
}

proof fn lemma_split_join(s: Seq<char>, d: char)
    ensures
        join_spec(split_spec(s, d), d) == s,
    decreases s.len(),
{
    if s.len() == 0 {
        assert(split_spec(s, d) =~= seq![Seq::<char>::empty()]);
        assert(s =~= Seq::<char>::empty());
    } else {
        lemma_split_join(s.drop_last(), d);
        lemma_split_nonempty(s.drop_last(), d);
        let p = split_spec(s.drop_last(), d);
        let c = s.last();
        if c == d {
            let q = p.push(Seq::<char>::empty());
            assert(q.drop_last() =~= p);
            assert(join_spec(q, d) =~= s);
        } else {
            let q = p.update(p.len() - 1, p.last().push(c));
            if p.len() == 1 {
                assert(join_spec(p, d) == p[0]);
                assert(q.len() == 1 && q[0] == p[0].push(c));
                assert(join_spec(q, d) == q[0]);
                assert(s =~= s.drop_last().push(c));
            } else {
                assert(q.drop_last() =~= p.drop_last());
                assert(q.last() == p.last().push(c));
                assert(join_spec(p, d) == join_spec(p.drop_last(), d).push(d) + p.last());
                assert(join_spec(q, d) == join_spec(p.drop_last(), d).push(d) + p.last().push(c));
                assert(join_spec(p.drop_last(), d).push(d) + p.last().push(c) =~= join_spec(p, d).push(c));
                assert(s =~= s.drop_last().push(c));
            }
        }
    }
}

proof fn lemma_split_marks(x: Seq<char>, g: nat)
    ensures
        split_spec(x + pad_marks(g), ',').len() == split_spec(x, ',').len() + g,
    decreases g,
{
    if g == 0 {
        assert(x + pad_marks(0) =~= x);
    } else {
        lemma_split_marks(x, (g - 1) as nat);
        let y = x + pad_marks((g - 1) as nat);
        assert(x + pad_marks(g) =~= y + seq![','] + seq![' ']);
        lemma_split_concat(y, seq![' '], ',');
        lemma_split_whole(seq![' '], ',');
    }
}

/// The key of a full-or-shorter row splits back into exactly `width` tokens.
proof fn lemma_key_split(r: Seq<Seq<char>>, width: nat)
    requires
        r.len() > 0,
        r.len() <= width,
        free_of(r, ','),
    ensures
        split_spec(key_spec(r, ',', width), ',').len() == width,
{
    lemma_join_split(r, ',');
    lemma_split_marks(join_spec(r, ','), width_gap(r.len(), width));
}

/// With `,` as delimiter and no token holding it, every key of the tokens
/// read as rows of `w`, compared at `width`, splits into `width` tokens.
proof fn lemma_tokens_keys_split(t: Seq<Seq<char>>, w: nat, width: nat)
    requires
        w > 0,
        w <= width,
        free_of(t, ','),
    ensures
        forall|k: Seq<char>| count(keys_spec(t, w, ',', width), k) > 0 ==> split_spec(k, ',').len() == width,
{
    let rows = rows_spec(t, w);
    lemma_rows_inherit(t, w, ',');
    assert forall|k: Seq<char>| count(keys_spec(t, w, ',', width), k) > 0 implies split_spec(k, ',').len() == width by {
        lemma_count_absent(keys_spec(t, w, ',', width), k);
        let j = choose|j: int| 0 <= j < keys_spec(t, w, ',', width).len() && keys_spec(t, w, ',', width)[j] == k;
        assert(k == key_spec(rows[j], ',', width));
        lemma_key_split(rows[j], width);
    }
}

/// With `,` as delimiter and no token holding it, every key of the grid at
/// `width` splits into `width` tokens.
proof fn lemma_grid_keys_split(a: CsvData, width: nat)
    requires
        a.wf(),
        a.delimiter == ',',
        free_of(a.tokens(), ','),
        a.line_width <= width,
    ensures
        forall|k: Seq<char>| count(a.keys_at(width), k) > 0 ==> split_spec(k, ',').len() == width,
{
    lemma_tokens_keys_split(a.tokens(), a.line_width as nat, width);
}

proof fn lemma_padded_free(t: Seq<Seq<char>>, w: nat, width: nat, c: char)
    requires
        free_of(t, c),
    ensures
        free_of(padded_spec(t, w, width), c),
    decreases t.len(),
{
    let p = padded_spec(t, w, width);
    if t.len() == 0 || w == 0 {
    } else if t.len() <= w {
        assert forall|j: int| 0 <= j < p.len() implies !(#[trigger] p[j]).contains(c) by {
            if j >= t.len() {
                assert(p[j] == Seq::<char>::empty());
            } else {
                assert(p[j] == t[j]);
            }
        }
    } else {
        let rest = t.skip(w as int);
        assert(free_of(rest, c)) by {
            assert forall|j: int| 0 <= j < rest.len() implies !(#[trigger] rest[j]).contains(c) by {
                assert(rest[j] == t[j + w]);
            }
        }
        lemma_padded_free(rest, w, width, c);
        let head = t.take(w as int) + blanks((width - w) as nat);
        assert(p == head + padded_spec(rest, w, width));
        assert forall|j: int| 0 <= j < p.len() implies !(#[trigger] p[j]).contains(c) by {
            if j < w {
                assert(p[j] == t[j]);
            } else if j < head.len() {
                assert(p[j] == Seq::<char>::empty());
            } else {
                assert(p[j] == padded_spec(rest, w, width)[j - head.len()]);
            }
        }
    }
}

proof fn lemma_total_somewhere(kss: Seq<Seq<Seq<char>>>, k: Seq<char>)
    requires
        total(kss, k) > 0,
    ensures
        exists|i: int| 0 <= i < kss.len() && count(#[trigger] kss[i], k) > 0,
    decreases kss.len(),
{
    if count(kss.last(), k) > 0 {
        assert(count(kss[kss.len() - 1], k) > 0);
    } else {
        lemma_total_somewhere(kss.drop_last(), k);
        let i = choose|i: int| 0 <= i < kss.drop_last().len() && count(#[trigger] kss.drop_last()[i], k) > 0;
        assert(kss[i] == kss.drop_last()[i]);
    }
}

proof fn lemma_rows_append(x: Seq<Seq<char>>, a: Seq<Seq<char>>, w: nat)
    requires
        w > 0,
        a.len() == w,
        forall|i: int| 0 <= i < rows_spec(x, w).len() ==> (#[trigger] rows_spec(x, w)[i]).len() == w,
    ensures
        rows_spec(x + a, w) == rows_spec(x, w).push(a),
    decreases x.len(),
{
    if x.len() == 0 {
        assert(x + a =~= a);
        assert(rows_spec(a, w) == seq![a]);
        assert(rows_spec(x, w).push(a) =~= seq![a]);
    } else {
        if x.len() <= w {
            assert(rows_spec(x, w) == seq![x]);
            assert(rows_spec(x, w)[0].len() == w);
        }
        let rest = x.skip(w as int);
        assert((x + a).skip(w as int) =~= rest + a);
        assert((x + a).take(w as int) =~= x.take(w as int));
        if x.len() > w {
            assert(rows_spec(x, w) == seq![x.take(w as int)] + rows_spec(rest, w));
            assert forall|i: int| 0 <= i < rows_spec(rest, w).len() implies (#[trigger] rows_spec(rest, w)[i]).len() == w by {
                assert(rows_spec(rest, w)[i] == rows_spec(x, w)[i + 1]);
            }
            lemma_rows_append(rest, a, w);
            assert(rows_spec(x + a, w) =~= rows_spec(x, w).push(a));
        } else {
            assert(rest.len() == 0);
            assert(rest + a =~= a);
            assert(rows_spec(a, w) == seq![a]);
            assert(x.take(w as int) =~= x);
            assert(rows_spec(x + a, w) =~= rows_spec(x, w).push(a));
        }
    }
}

proof fn lemma_rows_flatten(ks: Seq<Seq<char>>, d: char, w: nat)
    requires
        w > 0,
        forall|i: int| 0 <= i < ks.len() ==> split_spec(#[trigger] ks[i], d).len() == w,
    ensures
        rows_spec(flatten_split(ks, d), w) == ks.map_values(|k: Seq<char>| split_spec(k, d)),
    decreases ks.len(),
{
    if ks.len() == 0 {
        assert(ks.map_values(|k: Seq<char>| split_spec(k, d)) =~= Seq::<Seq<Seq<char>>>::empty());
    } else {
        let p = ks.drop_last();
        assert forall|i: int| 0 <= i < p.len() implies split_spec(#[trigger] p[i], d).len() == w by {
            assert(p[i] == ks[i]);
        }
        lemma_rows_flatten(p, d, w);
        assert(ks[ks.len() - 1] == ks.last());
        lemma_rows_append(flatten_split(p, d), split_spec(ks.last(), d), w);
        assert(ks.map_values(|k: Seq<char>| split_spec(k, d)) =~= p.map_values(|k: Seq<char>| split_spec(k, d)).push(
            split_spec(ks.last(), d),
        ));
    }
}

/// Keys that each split into `w` tokens, split and laid end to end, read
/// back as rows of `w` give full rows whose keys are those keys.
proof fn lemma_flatten_keys(ks: Seq<Seq<char>>, d: char, w: nat)
    requires
        w > 0,
        forall|i: int| 0 <= i < ks.len() ==> split_spec(#[trigger] ks[i], d).len() == w,
    ensures
        keys_spec(flatten_split(ks, d), w, d, w) == ks,
        forall|i: int|
            0 <= i < rows_spec(flatten_split(ks, d), w).len() ==> (#[trigger] rows_spec(flatten_split(ks, d), w)[i]).len() == w,
{
    lemma_rows_flatten(ks, d, w);
    let rows = rows_spec(flatten_split(ks, d), w);
    assert forall|i: int| 0 <= i < ks.len() implies key_spec(#[trigger] rows[i], d, w) == ks[i] by {
        lemma_split_join(ks[i], d);
        assert(rows[i] == split_spec(ks[i], d));
        assert(pad_marks(0) =~= Seq::<char>::empty());
        assert(join_spec(rows[i], d) + pad_marks(0) =~= join_spec(rows[i], d));
    }
    assert(keys_spec(flatten_split(ks, d), w, d, w) =~= ks);
}

proof fn lemma_flatten_concat(a: Seq<Seq<char>>, b: Seq<Seq<char>>, d: char)
    ensures
        flatten_split(a + b, d) == flatten_split(a, d) + flatten_split(b, d),
    decreases b.len(),
{
    if b.len() == 0 {
        assert(a + b =~= a);
        assert(flatten_split(a, d) + flatten_split(b, d) =~= flatten_split(a, d));
    } else {
        lemma_flatten_concat(a, b.drop_last(), d);
        assert((a + b).drop_last() =~= a + b.drop_last());
        assert((a + b).last() == b.last());
        assert(flatten_split(a, d) + flatten_split(b.drop_last(), d) + split_spec(b.last(), d) =~= flatten_split(a, d)
            + (flatten_split(b.drop_last(), d) + split_spec(b.last(), d)));
    }
}

/// Reading the tokens of a sorted arrangement as rows of `w` gives back the
/// arranged keys, when every key splits into `w` tokens: each row is full,
/// and each key occurs among the rows' keys as often as the counts say.
proof fn lemma_arrangement_rows(t: Seq<Seq<char>>, d: char, f: spec_fn(Seq<char>) -> nat, w: nat) -> (ks: Seq<Seq<char>>)
    requires
        w > 0,
        is_arrangement(t, d, f),
        forall|k: Seq<char>| f(k) > 0 ==> split_spec(k, d).len() == w,
    ensures
        t == flatten_split(ks, d),
        keys_spec(t, w, d, w) == ks,
        forall|k: Seq<char>| #[trigger] count(keys_spec(t, w, d, w), k) == f(k),
        forall|i: int| 0 <= i < rows_spec(t, w).len() ==> (#[trigger] rows_spec(t, w)[i]).len() == w,
{
    let ks = choose|ks: Seq<Seq<char>>|
        sorted(ks) && (forall|k: Seq<char>| #[trigger] count(ks, k) == f(k)) && t == flatten_split(ks, d);
    assert forall|i: int| 0 <= i < ks.len() implies split_spec(#[trigger] ks[i], d).len() == w by {
        lemma_count_absent(ks, ks[i]);
        assert(count(ks, ks[i]) == f(ks[i]));
    }
    lemma_flatten_keys(ks, d, w);
    ks
}

/// With `,` as delimiter and no token holding it, the rows of the union are
/// full rows of the common width, and each row occurs as often as in the
/// first grid plus as often as in the second (rows compared by their keys).
pub proof fn law_union_rows(a: CsvData, b: CsvData)
    requires
        a.wf(),
        b.wf(),
        a.delimiter == ',',
        b.delimiter == ',',
        free_of(a.tokens(), ','),
        free_of(b.tokens(), ','),
    ensures
        ({
            let w = max_nat(a.line_width as nat, b.line_width as nat);
            let t = arranged(',', union_counts(a.keys_at(w), b.keys_at(w)));
            &&& forall|i: int| 0 <= i < rows_spec(t, w).len() ==> (#[trigger] rows_spec(t, w)[i]).len() == w
            &&& forall|k: Seq<char>|
                #[trigger] count(keys_spec(t, w, ',', w), k) == count(a.keys_at(w), k) + count(b.keys_at(w), k)
        }),
{
    let w = max_nat(a.line_width as nat, b.line_width as nat);
    let f = union_counts(a.keys_at(w), b.keys_at(w));
    law_union_multiplicity(a, b);
    lemma_grid_keys_split(a, w);
    lemma_grid_keys_split(b, w);
    lemma_arrangement_rows(arranged(',', f), ',', f, w);
}

/// With `,` as delimiter and no token holding it, the rows of the
/// intersection are full rows of the common width, and each row occurs as
/// often as in whichever grid has it fewer times.
pub proof fn law_intersection_rows(a: CsvData, b: CsvData)
    requires
        a.wf(),
        b.wf(),
        a.delimiter == ',',
        b.delimiter == ',',
        free_of(a.tokens(), ','),
        free_of(b.tokens(), ','),
    ensures
        ({
            let w = max_nat(a.line_width as nat, b.line_width as nat);
            let t = arranged(',', inter_counts(a.keys_at(w), b.keys_at(w)));
            &&& forall|i: int| 0 <= i < rows_spec(t, w).len() ==> (#[trigger] rows_spec(t, w)[i]).len() == w
            &&& forall|k: Seq<char>|
                #[trigger] count(keys_spec(t, w, ',', w), k) == min_nat(count(a.keys_at(w), k), count(b.keys_at(w), k))
        }),
{
    let w = max_nat(a.line_width as nat, b.line_width as nat);
    let f = inter_counts(a.keys_at(w), b.keys_at(w));
    law_intersection_multiplicity(a, b);
    lemma_grid_keys_split(a, w);
    lemma_arrangement_rows(arranged(',', f), ',', f, w);
}

/// With `,` as delimiter and no token holding it, the rows of the
/// difference are full rows of the common width, and none of them is a row
/// that both grids hold.
pub proof fn law_difference_rows(a: CsvData, b: CsvData)
    requires
        a.wf(),
        b.wf(),
        a.delimiter == ',',
        b.delimiter == ',',
        free_of(a.tokens(), ','),
        free_of(b.tokens(), ','),
    ensures
        ({
            let w = max_nat(a.line_width as nat, b.line_width as nat);
            let t = arranged(',', only_counts(a.keys_at(w), b.keys_at(w))) + arranged(
                ',',
                only_counts(b.keys_at(w), a.keys_at(w)),
            );
            &&& forall|i: int| 0 <= i < rows_spec(t, w).len() ==> (#[trigger] rows_spec(t, w)[i]).len() == w
            &&& forall|k: Seq<char>|
                #[trigger] count(keys_spec(t, w, ',', w), k) > 0 ==> !(count(a.keys_at(w), k) > 0 && count(
                    b.keys_at(w),
                    k,
                ) > 0)
        }),
{
    let w = max_nat(a.line_width as nat, b.line_width as nat);
    let ka = a.keys_at(w);
    let kb = b.keys_at(w);
    let f1 = only_counts(ka, kb);
    let f2 = only_counts(kb, ka);
    law_difference_excludes_common(a, b);
    lemma_grid_keys_split(a, w);
    lemma_grid_keys_split(b, w);
    let ks1 = lemma_arrangement_rows(arranged(',', f1), ',', f1, w);
    let ks2 = lemma_arrangement_rows(arranged(',', f2), ',', f2, w);
    let ks = ks1 + ks2;
    assert forall|i: int| 0 <= i < ks.len() implies split_spec(#[trigger] ks[i], ',').len() == w by {
        if i < ks1.len() {
            assert(ks[i] == ks1[i]);
            lemma_count_absent(ks1, ks1[i]);
            assert(count(keys_spec(arranged(',', f1), w, ',', w), ks1[i]) == f1(ks1[i]));
        } else {
            assert(ks[i] == ks2[i - ks1.len()]);
            lemma_count_absent(ks2, ks2[i - ks1.len()]);
            assert(count(keys_spec(arranged(',', f2), w, ',', w), ks2[i - ks1.len()]) == f2(ks2[i - ks1.len()]));
        }
    }
    lemma_flatten_concat(ks1, ks2, ',');
    lemma_flatten_keys(ks, ',', w);
    assert forall|k: Seq<char>|
        #[trigger] count(keys_spec(arranged(',', f1) + arranged(',', f2), w, ',', w), k) > 0 implies !(count(ka, k) > 0
            && count(kb, k) > 0) by {
        lemma_count_concat(ks1, ks2, k);
        assert(count(keys_spec(arranged(',', f1), w, ',', w), k) == f1(k));
        assert(count(keys_spec(arranged(',', f2), w, ',', w), k) == f2(k));
    }
}

/// With `,` as the first grid's delimiter and no token holding it, the rows
/// of the N-way difference of three grids are full rows of the widest width;
/// a row that the first and third padded grids hold and the second lacks is
/// not among them, and one that only the first holds is there as often as
/// the first holds it.
pub proof fn law_difference_all_rows(cs: Seq<CsvData>)
    requires
        cs.len() == 3,
        forall|i: int| 0 <= i < cs.len() ==> (#[trigger] cs[i]).wf() && free_of(cs[i].tokens(), ','),
        cs[0].delimiter == ',',
    ensures
        ({
            let w = max_width(cs);
            let kss = grid_keys(cs, w, ',');
            let t = arranged(',', exactly_one_counts(kss));
            &&& forall|i: int| 0 <= i < rows_spec(t, w).len() ==> (#[trigger] rows_spec(t, w)[i]).len() == w
            &&& forall|k: Seq<char>|
                count(kss[0], k) > 0 && count(kss[1], k) == 0 && count(kss[2], k) > 0 ==> #[trigger] count(
                    keys_spec(t, w, ',', w),
                    k,
                ) == 0
            &&& forall|k: Seq<char>|
                count(kss[0], k) > 0 && count(kss[1], k) == 0 && count(kss[2], k) == 0 ==> #[trigger] count(
                    keys_spec(t, w, ',', w),
                    k,
                ) == count(kss[0], k)
        }),
{
    let w = max_width(cs);
    let kss = grid_keys(cs, w, ',');
    let f = exactly_one_counts(kss);
    law_difference_all_exactly_one(cs);
    lemma_max_width(cs, 0);
    assert forall|i: int| 0 <= i < kss.len() implies forall|k: Seq<char>|
        count(#[trigger] kss[i], k) > 0 ==> split_spec(k, ',').len() == w by {
        lemma_padded_free(cs[i].tokens(), cs[i].line_width as nat, w, ',');
        lemma_tokens_keys_split(padded_of(cs[i], w), w, w);
    }
    assert forall|k: Seq<char>| f(k) > 0 implies split_spec(k, ',').len() == w by {
        lemma_total_somewhere(kss, k);
        let i = choose|i: int| 0 <= i < kss.len() && count(#[trigger] kss[i], k) > 0;
    }
    lemma_arrangement_rows(arranged(',', f), ',', f, w);
}

} // verus!
