use vstd::prelude::*;

verus! {

/// Strict lexicographic order on character sequences, the order of `String`.
pub open spec fn lex_lt(a: Seq<char>, b: Seq<char>) -> bool
    decreases a.len(),
{
    if a.len() == 0 {
        b.len() > 0
    } else if b.len() == 0 {
        false
    } else if a[0] == b[0] {
        lex_lt(a.drop_first(), b.drop_first())
    } else {
        (a[0] as int) < (b[0] as int)
    }
}

pub open spec fn lex_le(a: Seq<char>, b: Seq<char>) -> bool {
    a == b || lex_lt(a, b)
}

pub proof fn lemma_lex_irrefl(a: Seq<char>)
    ensures
        !lex_lt(a, a),
    decreases a.len(),
{
    if a.len() > 0 {
        lemma_lex_irrefl(a.drop_first());
    }
}

pub proof fn lemma_lex_trans(a: Seq<char>, b: Seq<char>, c: Seq<char>)
    requires
        lex_lt(a, b),
        lex_lt(b, c),
    ensures
        lex_lt(a, c),
    decreases a.len(),
{
    if a.len() > 0 && b.len() > 0 && c.len() > 0 {
        if a[0] == b[0] && b[0] == c[0] {
            lemma_lex_trans(a.drop_first(), b.drop_first(), c.drop_first());
        }
    }
}

pub proof fn lemma_lex_total(a: Seq<char>, b: Seq<char>)
    ensures
        a == b || lex_lt(a, b) || lex_lt(b, a),
    decreases a.len(),
{
    if a.len() > 0 && b.len() > 0 {
        if a[0] == b[0] {
            lemma_lex_total(a.drop_first(), b.drop_first());
            if a.drop_first() == b.drop_first() {
                assert(a =~= seq![a[0]] + a.drop_first());
                assert(b =~= seq![b[0]] + b.drop_first());
            }
        } else {
        }
    } else if a.len() == 0 && b.len() == 0 {
        assert(a =~= b);
    }
}

pub proof fn lemma_lex_asym(a: Seq<char>, b: Seq<char>)
    requires
        lex_lt(a, b),
    ensures
        !lex_lt(b, a),
        a != b,
{
    lemma_lex_irrefl(a);
    if lex_lt(b, a) {
        lemma_lex_trans(a, b, a);
    }
}

/// Compares two strings in `String`'s order: true when `a` sorts before `b`.
pub fn str_lt(a: &String, b: &String) -> (r: bool)
    ensures
        r == lex_lt(a@, b@),
{
    let sa = a.as_str();
    let sb = b.as_str();
    let na = sa.unicode_len();
    let nb = sb.unicode_len();
    let mut i: usize = 0;
    assert(a@.skip(0) =~= a@);
    assert(b@.skip(0) =~= b@);
    while i < na && i < nb
        invariant
            i <= na,
            i <= nb,
            na == a@.len(),
            nb == b@.len(),
            sa@ == a@,
            sb@ == b@,
            a@.subrange(0, i as int) == b@.subrange(0, i as int),
            lex_lt(a@, b@) == lex_lt(a@.skip(i as int), b@.skip(i as int)),
        decreases na - i,
    {
        let ca = sa.get_char(i);
        let cb = sb.get_char(i);
        assert(a@.skip(i as int)[0] == ca);
        assert(b@.skip(i as int)[0] == cb);
        if ca != cb {
            return (ca as u32) < (cb as u32);
        }
        assert(a@.skip(i as int).drop_first() =~= a@.skip(i + 1));
        assert(b@.skip(i as int).drop_first() =~= b@.skip(i + 1));
        assert(a@.subrange(0, i + 1) =~= a@.subrange(0, i as int).push(ca));
        assert(b@.subrange(0, i + 1) =~= b@.subrange(0, i as int).push(cb));
        i = i + 1;
    }
    i < nb
}


/// The pieces of `s` between occurrences of `d`, as `str::split` gives them:
/// never empty, and one more piece than there are delimiters.
pub open spec fn split_spec(s: Seq<char>, d: char) -> Seq<Seq<char>>
    decreases s.len(),
{
    if s.len() == 0 {
        seq![Seq::<char>::empty()]
    } else {
        let p = split_spec(s.drop_last(), d);
        if s.last() == d {
            p.push(Seq::<char>::empty())
        } else {
            p.update(p.len() - 1, p.last().push(s.last()))
        }
    }
}

pub proof fn lemma_split_nonempty(s: Seq<char>, d: char)
    ensures
        split_spec(s, d).len() >= 1,
    decreases s.len(),
{
    if s.len() > 0 {
        lemma_split_nonempty(s.drop_last(), d);
    }
}

/// The tokens of a row joined with the delimiter.
pub open spec fn join_spec(r: Seq<Seq<char>>, d: char) -> Seq<char>
    decreases r.len(),
{
    if r.len() == 0 {
        Seq::<char>::empty()
    } else if r.len() == 1 {
        r[0]
    } else {
        join_spec(r.drop_last(), d).push(d) + r.last()
    }
}

/// `n` padding markers, each the two characters `", "`.
pub open spec fn pad_marks(n: nat) -> Seq<char>
    decreases n,
{
    if n == 0 {
        Seq::<char>::empty()
    } else {
        pad_marks((n - 1) as nat) + seq![',', ' ']
    }
}

pub open spec fn width_gap(len: nat, width: nat) -> nat {
    if len <= width {
        (width - len) as nat
    } else {
        (len - width) as nat
    }
}

/// The key under which a row is compared at a target width: its tokens
/// joined, then one padding marker for each token it lacks.
pub open spec fn key_spec(r: Seq<Seq<char>>, d: char, width: nat) -> Seq<char> {
    join_spec(r, d) + pad_marks(width_gap(r.len(), width))
}

/// How many times `k` occurs in `s`.
pub open spec fn count(s: Seq<Seq<char>>, k: Seq<char>) -> nat
    decreases s.len(),
{
    if s.len() == 0 {
        0
    } else {
        count(s.drop_last(), k) + if s.last() == k {
            1nat
        } else {
            0nat
        }
    }
}

pub proof fn lemma_count_concat(a: Seq<Seq<char>>, b: Seq<Seq<char>>, k: Seq<char>)
    ensures
        count(a + b, k) == count(a, k) + count(b, k),
    decreases b.len(),
{
    if b.len() > 0 {
        lemma_count_concat(a, b.drop_last(), k);
        assert((a + b).drop_last() =~= a + b.drop_last());
    } else {
        assert(a + b =~= a);
    }
}

pub proof fn lemma_count_absent(s: Seq<Seq<char>>, k: Seq<char>)
    ensures
        !s.contains(k) ==> count(s, k) == 0,
        count(s, k) > 0 <==> s.contains(k),
    decreases s.len(),
{
    if s.len() > 0 {
        lemma_count_absent(s.drop_last(), k);
        if s.contains(k) && s.last() != k {
            let j = choose|j: int| 0 <= j < s.len() && s[j] == k;
            assert(s.drop_last()[j] == k);
        }
        if s.drop_last().contains(k) {
            let j = choose|j: int| 0 <= j < s.drop_last().len() && s.drop_last()[j] == k;
            assert(s[j] == k);
        }
        if s.last() == k {
            assert(s[s.len() - 1] == k);
        }
    }
}

pub open spec fn views(v: Seq<String>) -> Seq<Seq<char>> {
    v.map_values(|t: String| t@)
}

/// Relies on `char::to_string`: the string of the one character.
#[verifier::external_body]
fn char_string(c: char) -> (r: String)
    ensures
        r@ == seq![c],
{
    c.to_string()
}

/// Splits `s` at every `d`.
pub fn split_str(s: &String, d: char) -> (r: Vec<String>)
    ensures
        views(r@) == split_spec(s@, d),
{
    let ss = s.as_str();
    let n = ss.unicode_len();
    let mut out: Vec<String> = Vec::new();
    let mut start: usize = 0;
    let mut i: usize = 0;
    assert(s@.take(0) =~= Seq::<char>::empty());
    assert(s@.subrange(0, 0) =~= Seq::<char>::empty());
    while i < n
        invariant
            ss@ == s@,
            n == s@.len(),
            start <= i <= n,
            split_spec(s@.take(i as int), d) == views(out@).push(s@.subrange(start as int, i as int)),
        decreases n - i,
    {
        let c = ss.get_char(i);
        assert(s@.take(i + 1).drop_last() =~= s@.take(i as int));
        assert(s@.take(i + 1).last() == c);
        if c == d {
            let piece = ss.substring_char(start, i).to_owned();
            let ghost before = out@;
            out.push(piece);
            assert(views(out@) =~= views(before).push(piece@));
            assert(s@.subrange(i + 1, i + 1) =~= Seq::<char>::empty());
            start = i + 1;
        } else {
            assert(s@.subrange(start as int, i + 1) =~= s@.subrange(start as int, i as int).push(c));
        }
        i = i + 1;
    }
    let piece = ss.substring_char(start, n).to_owned();
    let ghost before = out@;
    out.push(piece);
    assert(views(out@) =~= views(before).push(piece@));
    assert(s@.take(n as int) =~= s@);
    out
}

/// The key of `row`, compared at `width`.
pub fn row_key(data: &Vec<String>, start: usize, end: usize, d: char, width: usize) -> (r: String)
    requires
        start <= end <= data@.len(),
    ensures
        r@ == key_spec(views(data@).subrange(start as int, end as int), d, width as nat),
{
    let ghost row = views(data@).subrange(start as int, end as int);
    let ds = char_string(d);
    let mut k = String::new();
    let mut j: usize = start;
    while j < end
        invariant
            ds@ == seq![d],
            start <= j <= end,
            end <= data@.len(),
            row == views(data@).subrange(start as int, end as int),
            k@ == join_spec(row.take(j - start), d),
        decreases end - j,
    {
        let ghost prev = row.take(j - start);
        assert(row.take(j + 1 - start).drop_last() =~= prev);
        if j > start {
            k.append(ds.as_str());
        }
        k.append(data[j].as_str());
        assert(k@ =~= join_spec(row.take(j + 1 - start), d));
        j = j + 1;
    }
    assert(row.take(end - start) =~= row);
    let len: usize = end - start;
    let gap: usize = if len <= width { width - len } else { len - width };
    let ghost joined = k@;
    let mut m: usize = 0;
    while m < gap
        invariant
            m <= gap,
            k@ == joined + pad_marks(m as nat),
        decreases gap - m,
    {
        proof {
            reveal_strlit(", ");
        }
        k.append(", ");
        assert(k@ =~= joined + pad_marks((m + 1) as nat));
        m = m + 1;
    }
    k
}

/// Counts the occurrences of `k` in `s`.
pub fn count_key(s: &Vec<String>, k: &String) -> (r: usize)
    ensures
        r == count(views(s@), k@),
{
    let mut c: usize = 0;
    let mut i: usize = 0;
    while i < s.len()
        invariant
            i <= s@.len(),
            c == count(views(s@).take(i as int), k@),
            c <= i,
        decreases s@.len() - i,
    {
        assert(views(s@).take(i + 1).drop_last() =~= views(s@).take(i as int));
        if s[i] == *k {
            c = c + 1;
        }
        i = i + 1;
    }
    assert(views(s@).take(s@.len() as int) =~= views(s@));
    c
}

} // verus!
