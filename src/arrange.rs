use vstd::prelude::*;
use crate::keys::{count, lemma_count_absent, lemma_lex_asym, lemma_lex_total, lemma_lex_trans, lex_le, lex_lt, split_spec, split_str, str_lt, views};

verus! {

/// Every key sorts strictly before each key after it; so no key repeats.
pub open spec fn strictly_sorted(u: Seq<Seq<char>>) -> bool {
    forall|i: int, j: int| 0 <= i < j < u.len() ==> lex_lt(#[trigger] u[i], #[trigger] u[j])
}

/// Every key sorts before or equal to each key after it.
pub open spec fn sorted(s: Seq<Seq<char>>) -> bool {
    forall|i: int, j: int| 0 <= i < j < s.len() ==> lex_le(#[trigger] s[i], #[trigger] s[j])
}

/// The tokens of each key, split at `d`, one key after another.
pub open spec fn flatten_split(ks: Seq<Seq<char>>, d: char) -> Seq<Seq<char>>
    decreases ks.len(),
{
    if ks.len() == 0 {
        Seq::<Seq<char>>::empty()
    } else {
        flatten_split(ks.drop_last(), d) + split_spec(ks.last(), d)
    }
}

/// Two sorted sequences of keys with the same count of every key are equal.
pub proof fn lemma_sorted_unique(a: Seq<Seq<char>>, b: Seq<Seq<char>>)
    requires
        sorted(a),
        sorted(b),
        forall|k: Seq<char>| count(a, k) == count(b, k),
    ensures
        a == b,
    decreases a.len(),
{
    if a.len() == 0 && b.len() == 0 {
        assert(a =~= b);
    } else if a.len() == 0 {
        lemma_count_absent(b, b.last());
        assert(b[b.len() - 1] == b.last());
        lemma_count_absent(a, b.last());
    } else if b.len() == 0 {
        lemma_count_absent(a, a.last());
        assert(a[a.len() - 1] == a.last());
        lemma_count_absent(b, a.last());
    } else {
        let x = a.last();
        let y = b.last();
        assert(a[a.len() - 1] == x);
        assert(b[b.len() - 1] == y);
        lemma_count_absent(a, x);
        lemma_count_absent(b, x);
        lemma_count_absent(a, y);
        lemma_count_absent(b, y);
        let i = choose|i: int| 0 <= i < b.len() && b[i] == x;
        let j = choose|j: int| 0 <= j < a.len() && a[j] == y;
        if i < b.len() - 1 {
            assert(lex_le(b[i], b[b.len() - 1]));
        }
        if j < a.len() - 1 {
            assert(lex_le(a[j], a[a.len() - 1]));
        }
        if x != y {
            lemma_lex_asym(x, y);
        }
        assert(x == y);
        assert forall|k: Seq<char>| count(a.drop_last(), k) == count(b.drop_last(), k) by {
            assert(count(a, k) == count(a.drop_last(), k) + if x == k { 1nat } else { 0nat });
            assert(count(b, k) == count(b.drop_last(), k) + if y == k { 1nat } else { 0nat });
        }
        lemma_sorted_unique(a.drop_last(), b.drop_last());
        assert(a =~= a.drop_last().push(x));
        assert(b =~= b.drop_last().push(y));
    }
}

/// Adds `k` to a strictly sorted list of keys unless it is already there.
pub fn insert_key(u: &mut Vec<String>, k: String)
    requires
        strictly_sorted(views(old(u)@)),
    ensures
        strictly_sorted(views(final(u)@)),
        forall|x: Seq<char>| #[trigger] views(final(u)@).contains(x) <==> (views(old(u)@).contains(x) || x == k@),
{
    let ghost v0 = views(u@);
    let mut i: usize = 0;
    while i < u.len() && str_lt(&u[i], &k)
        invariant
            i <= u@.len(),
            v0 == views(u@),
            forall|j: int| 0 <= j < i ==> lex_lt(#[trigger] v0[j], k@),
        decreases u@.len() - i,
    {
        i = i + 1;
    }
    if i < u.len() && u[i] == k {
        assert(v0[i as int] == k@);
        return;
    }
    if i < u.len() {
        proof {
            lemma_lex_total(v0[i as int], k@);
        }
        assert forall|j: int| i < j < v0.len() implies lex_lt(k@, #[trigger] v0[j]) by {
            lemma_lex_trans(k@, v0[i as int], v0[j]);
        }
    }
    u.insert(i, k);
    assert(views(u@) =~= v0.insert(i as int, k@));
    let ghost v1 = views(u@);
    assert forall|a: int, b: int| 0 <= a < b < v1.len() implies lex_lt(#[trigger] v1[a], #[trigger] v1[b]) by {
        if a < i && b > i {
            lemma_lex_trans(v1[a], k@, v1[b]);
        }
    }
    assert forall|x: Seq<char>| #[trigger] v1.contains(x) <==> (v0.contains(x) || x == k@) by {
        if v1.contains(x) {
            let j = choose|j: int| 0 <= j < v1.len() && v1[j] == x;
            if j < i {
                assert(v0[j] == x);
            } else if j > i {
                assert(v0[j - 1] == x);
            }
        }
        if v0.contains(x) {
            let j = choose|j: int| 0 <= j < v0.len() && v0[j] == x;
            if j < i {
                assert(v1[j] == x);
            } else {
                assert(v1[j + 1] == x);
            }
        }
        if x == k@ {
            assert(v1[i as int] == x);
        }
    }
}

/// The distinct keys of `all`, in strictly increasing order.
pub fn distinct_sorted(all: &Vec<String>) -> (u: Vec<String>)
    ensures
        strictly_sorted(views(u@)),
        forall|x: Seq<char>| #[trigger] views(u@).contains(x) <==> views(all@).contains(x),
{
    let mut u: Vec<String> = Vec::new();
    let mut i: usize = 0;
    while i < all.len()
        invariant
            i <= all@.len(),
            strictly_sorted(views(u@)),
            forall|x: Seq<char>| #[trigger] views(u@).contains(x) <==> views(all@).take(i as int).contains(x),
        decreases all@.len() - i,
    {
        insert_key(&mut u, all[i].clone());
        let ghost p = views(all@).take(i as int);
        let ghost q = views(all@).take(i + 1);
        assert(q =~= p.push(all@[i as int]@));
        assert forall|x: Seq<char>| q.contains(x) <==> (p.contains(x) || x == all@[i as int]@) by {
            if q.contains(x) {
                let j = choose|j: int| 0 <= j < q.len() && q[j] == x;
                if j < i {
                    assert(p[j] == x);
                }
            }
            if p.contains(x) {
                let j = choose|j: int| 0 <= j < p.len() && p[j] == x;
                assert(q[j] == x);
            }
            if x == all@[i as int]@ {
                assert(q[i as int] == x);
            }
        }
        i = i + 1;
    }
    assert(views(all@).take(all@.len() as int) =~= views(all@));
    u
}

/// Appends clones of `toks` to `out`.
pub fn push_all(out: &mut Vec<String>, toks: &Vec<String>)
    ensures
        views(final(out)@) == views(old(out)@) + views(toks@),
{
    let ghost start = views(out@);
    let mut t: usize = 0;
    while t < toks.len()
        invariant
            t <= toks@.len(),
            views(out@) == start + views(toks@).take(t as int),
        decreases toks@.len() - t,
    {
        let ghost before = views(out@);
        out.push(toks[t].clone());
        assert(views(out@) =~= before.push(toks@[t as int]@));
        assert(views(toks@).take(t + 1) =~= views(toks@).take(t as int).push(toks@[t as int]@));
        t = t + 1;
    }
    assert(views(toks@).take(toks@.len() as int) =~= views(toks@));
}

/// Emits each key `u[j]`, split at `d`, `c[j]` times, keys in the order of `u`.
/// Returns the tokens and, as a ghost, the sequence of keys emitted.
pub fn emit(u: &Vec<String>, c: &Vec<usize>, d: char) -> (r: (Vec<String>, Ghost<Seq<Seq<char>>>))
    requires
        strictly_sorted(views(u@)),
        u@.len() == c@.len(),
    ensures
        sorted(r.1@),
        forall|j: int| 0 <= j < u@.len() ==> count(r.1@, #[trigger] views(u@)[j]) == c@[j],
        forall|k: Seq<char>| !views(u@).contains(k) ==> count(r.1@, k) == 0,
        views(r.0@) == flatten_split(r.1@, d),
{
    let ghost uv = views(u@);
    let mut out: Vec<String> = Vec::new();
    let ghost mut ks: Seq<Seq<char>> = Seq::empty();
    let mut j: usize = 0;
    while j < u.len()
        invariant
            uv == views(u@),
            strictly_sorted(uv),
            u@.len() == c@.len(),
            j <= u@.len(),
            sorted(ks),
            forall|i: int| 0 <= i < ks.len() ==> exists|m: int| 0 <= m < j && #[trigger] ks[i] == uv[m],
            forall|m: int| 0 <= m < j ==> count(ks, #[trigger] uv[m]) == c@[m],
            forall|k: Seq<char>| (forall|m: int| 0 <= m < j ==> uv[m] != k) ==> count(ks, k) == 0,
            views(out@) == flatten_split(ks, d),
        decreases u@.len() - j,
    {
        let toks = split_str(&u[j], d);
        let ghost key = uv[j as int];
        let ghost ks0 = ks;
        let mut t: usize = 0;
        while t < c[j]
            invariant
                uv == views(u@),
                strictly_sorted(uv),
                u@.len() == c@.len(),
                j < u@.len(),
                key == uv[j as int],
                views(toks@) == split_spec(key, d),
                t <= c@[j as int],
                ks == ks0 + Seq::new(t as nat, |x: int| key),
                sorted(ks),
                forall|i: int| 0 <= i < ks.len() ==> exists|m: int| 0 <= m <= j && #[trigger] ks[i] == uv[m],
                forall|i: int| 0 <= i < ks0.len() ==> exists|m: int| 0 <= m < j && #[trigger] ks0[i] == uv[m],
                forall|k: Seq<char>| count(ks, k) == count(ks0, k) + if k == key { t as nat } else { 0nat },
                views(out@) == flatten_split(ks, d),
            decreases c@[j as int] - t,
        {
            push_all(&mut out, &toks);
            let ghost prev = ks;
            proof {
                ks = ks.push(key);
                assert(ks.drop_last() =~= prev);
                assert forall|k: Seq<char>| count(ks, k) == count(prev, k) + if k == key { 1nat } else { 0nat } by {
                    assert(ks.last() == key);
                }
                assert(ks =~= ks0 + Seq::new((t + 1) as nat, |x: int| key));
                assert forall|a: int, b: int| 0 <= a < b < ks.len() implies lex_le(#[trigger] ks[a], #[trigger] ks[b]) by {
                    if b == ks.len() - 1 && a < ks0.len() {
                        let m = choose|m: int| 0 <= m < j && #[trigger] ks0[a] == uv[m];
                        assert(ks[a] == ks0[a]);
                        assert(lex_lt(uv[m], uv[j as int]));
                    } else if b == ks.len() - 1 {
                        assert(ks[a] == key);
                    } else {
                        assert(ks[a] == prev[a] && ks[b] == prev[b]);
                    }
                }
                assert forall|i: int| 0 <= i < ks.len() implies exists|m: int| 0 <= m <= j && #[trigger] ks[i] == uv[m] by {
                    if i == ks.len() - 1 {
                        assert(ks[i] == uv[j as int]);
                    } else {
                        assert(ks[i] == prev[i]);
                    }
                }
            }
            t = t + 1;
        }
        proof {
            assert forall|m: int| 0 <= m < j implies uv[m] != key by {
                lemma_lex_asym(uv[m], uv[j as int]);
            }
            assert(count(ks0, key) == 0);
            assert forall|m: int| 0 <= m < j + 1 implies count(ks, #[trigger] uv[m]) == c@[m] by {
                if m < j {
                    assert(uv[m] != key);
                    assert(count(ks, uv[m]) == count(ks0, uv[m]));
                } else {
                    assert(count(ks, key) == count(ks0, key) + t);
                }
            }
            assert forall|k: Seq<char>| (forall|m: int| 0 <= m < j + 1 ==> uv[m] != k) implies count(ks, k) == 0 by {
                assert(uv[j as int] != k);
            }
            assert forall|i: int| 0 <= i < ks.len() implies exists|m: int| 0 <= m < j + 1 && #[trigger] ks[i] == uv[m] by {
                let m = choose|m: int| 0 <= m <= j && #[trigger] ks[i] == uv[m];
            }
        }
        j = j + 1;
    }
    proof {
        assert forall|k: Seq<char>| !uv.contains(k) implies count(ks, k) == 0 by {
            assert forall|m: int| 0 <= m < j implies uv[m] != k by {
                if uv[m] == k {
                    assert(uv.contains(k));
                }
            }
        }
    }
    (out, Ghost(ks))
}

} // verus!
