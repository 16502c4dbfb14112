//! Facts about the model's spec functions.
use vstd::prelude::*;
use crate::model::{
    add_count, assoc, chars_of, concat, is_punctuation, keys_unique, mass, merge_word, pair_lt,
    pair_occurs_in, pre_tokenized, str_lt, tally, total, surfaces, merged, initial_entries,
    looked_up, corpus_pairs, pair_table,
};

verus! {

pub proof fn lemma_tally_contains<K>(s: Seq<(K, nat)>, k: K)
    ensures
        tally(s).contains_key(k) <==> exists|i: int| 0 <= i < s.len() && (#[trigger] s[i]).0 == k,
    decreases s.len(),
{
    if s.len() > 0 {
        lemma_tally_contains(s.drop_last(), k);
        if tally(s.drop_last()).contains_key(k) {
            let i = choose|i: int| 0 <= i < s.drop_last().len() && (#[trigger] s.drop_last()[i]).0 == k;
            assert(s[i] == s.drop_last()[i]);
        }
        if exists|i: int| 0 <= i < s.len() && (#[trigger] s[i]).0 == k {
            let i = choose|i: int| 0 <= i < s.len() && (#[trigger] s[i]).0 == k;
            if i < s.len() - 1 {
                assert(s.drop_last()[i] == s[i]);
            }
        }
    }
}

pub proof fn lemma_tally_at<K>(s: Seq<(K, nat)>, i: int)
    requires
        keys_unique(s),
        0 <= i < s.len(),
    ensures
        tally(s).contains_key(s[i].0),
        tally(s)[s[i].0] == s[i].1,
    decreases s.len(),
{
    let d = s.drop_last();
    if i == s.len() - 1 {
        lemma_tally_contains(d, s[i].0);
        if tally(d).contains_key(s[i].0) {
            let j = choose|j: int| 0 <= j < d.len() && (#[trigger] d[j]).0 == s[i].0;
            assert(s[j] == d[j]);
        }
    } else {
        assert(d[i] == s[i]);
        lemma_tally_at(d, i);
    }
}

/// Adding to the count of an existing entry adds to the tallied count.
pub proof fn lemma_tally_bump<K>(s: Seq<(K, nat)>, i: int, n: nat)
    requires
        keys_unique(s),
        0 <= i < s.len(),
    ensures
        keys_unique(s.update(i, (s[i].0, s[i].1 + n))),
        tally(s.update(i, (s[i].0, s[i].1 + n))) =~= add_count(tally(s), s[i].0, n),
    decreases s.len(),
{
    let t = s.update(i, (s[i].0, s[i].1 + n));
    let d = s.drop_last();
    assert(keys_unique(t)) by {
        assert forall|x: int, y: int| 0 <= x < y < t.len() implies t[x].0 != t[y].0 by {
            assert(t[x].0 == s[x].0 && t[y].0 == s[y].0);
        }
    }
    if i == s.len() - 1 {
        assert(t.drop_last() =~= d);
        lemma_tally_contains(d, s[i].0);
        if tally(d).contains_key(s[i].0) {
            let j = choose|j: int| 0 <= j < d.len() && (#[trigger] d[j]).0 == s[i].0;
            assert(s[j] == d[j]);
        }
    } else {
        assert(t.drop_last() =~= d.update(i, (d[i].0, d[i].1 + n)));
        assert(d[i] == s[i]);
        lemma_tally_bump(d, i, n);
        assert(s.last().0 != s[i].0);
    }
}

/// Adding to the count of an existing entry adds to the mass and the total.
pub proof fn lemma_mass_bump(s: Seq<(Seq<Seq<char>>, nat)>, i: int, n: nat)
    requires
        0 <= i < s.len(),
    ensures
        mass(s.update(i, (s[i].0, s[i].1 + n))) == mass(s) + n * (s[i].0.len() + 1),
        total(s.update(i, (s[i].0, s[i].1 + n))) == total(s) + n,
    decreases s.len(),
{
    let t = s.update(i, (s[i].0, s[i].1 + n));
    let d = s.drop_last();
    if i == s.len() - 1 {
        assert(t.drop_last() =~= d);
        let c = s[i].1;
        let x = s[i].0.len() + 1;
        assert((c + n) * x == c * x + n * x) by (nonlinear_arith);
    } else {
        assert(t.drop_last() =~= d.update(i, (d[i].0, d[i].1 + n)));
        assert(d[i] == s[i]);
        lemma_mass_bump(d, i, n);
    }
}

pub proof fn lemma_mass_prefix(s: Seq<(Seq<Seq<char>>, nat)>, k: int)
    requires
        0 <= k <= s.len(),
    ensures
        mass(s.take(k)) <= mass(s),
    decreases s.len(),
{
    if k < s.len() {
        assert(s.take(k) =~= s.drop_last().take(k));
        lemma_mass_prefix(s.drop_last(), k);
    } else {
        assert(s.take(k) =~= s);
    }
}

pub proof fn lemma_count_le_mass(s: Seq<(Seq<Seq<char>>, nat)>, i: int)
    requires
        0 <= i < s.len(),
    ensures
        s[i].1 <= mass(s),
    decreases s.len(),
{
    if i == s.len() - 1 {
        let c = s[i].1;
        let x = s[i].0.len() + 1;
        assert(c <= c * x) by (nonlinear_arith)
            requires
                x >= 1,
        ;
    } else {
        assert(s.drop_last()[i] == s[i]);
        lemma_count_le_mass(s.drop_last(), i);
    }
}

pub proof fn lemma_assoc_contains<K, V>(s: Seq<(K, V)>, k: K)
    ensures
        assoc(s).contains_key(k) <==> exists|i: int| 0 <= i < s.len() && (#[trigger] s[i]).0 == k,
    decreases s.len(),
{
    if s.len() > 0 {
        lemma_assoc_contains(s.drop_last(), k);
        if assoc(s.drop_last()).contains_key(k) {
            let i = choose|i: int| 0 <= i < s.drop_last().len() && (#[trigger] s.drop_last()[i]).0 == k;
            assert(s[i] == s.drop_last()[i]);
        }
        if exists|i: int| 0 <= i < s.len() && (#[trigger] s[i]).0 == k {
            let i = choose|i: int| 0 <= i < s.len() && (#[trigger] s[i]).0 == k;
            if i < s.len() - 1 {
                assert(s.drop_last()[i] == s[i]);
            }
        }
    }
}

pub proof fn lemma_assoc_at<K, V>(s: Seq<(K, V)>, i: int)
    requires
        keys_unique(s),
        0 <= i < s.len(),
    ensures
        assoc(s).contains_key(s[i].0),
        assoc(s)[s[i].0] == s[i].1,
    decreases s.len(),
{
    let d = s.drop_last();
    if i < s.len() - 1 {
        assert(d[i] == s[i]);
        lemma_assoc_at(d, i);
    }
}

/// Overwriting the value of an existing key overwrites it in the map.
pub proof fn lemma_assoc_overwrite<K, V>(s: Seq<(K, V)>, i: int, v: V)
    requires
        keys_unique(s),
        0 <= i < s.len(),
    ensures
        keys_unique(s.update(i, (s[i].0, v))),
        assoc(s.update(i, (s[i].0, v))) =~= assoc(s).insert(s[i].0, v),
    decreases s.len(),
{
    let t = s.update(i, (s[i].0, v));
    let d = s.drop_last();
    assert(keys_unique(t)) by {
        assert forall|x: int, y: int| 0 <= x < y < t.len() implies t[x].0 != t[y].0 by {
            assert(t[x].0 == s[x].0 && t[y].0 == s[y].0);
        }
    }
    if i == s.len() - 1 {
        assert(t.drop_last() =~= d);
    } else {
        assert(t.drop_last() =~= d.update(i, (d[i].0, v)));
        assert(d[i] == s[i]);
        lemma_assoc_overwrite(d, i, v);
        assert(s.last().0 != s[i].0);
    }
}

pub proof fn lemma_str_lt_trans(a: Seq<char>, b: Seq<char>, c: Seq<char>)
    requires
        str_lt(a, b),
        str_lt(b, c),
    ensures
        str_lt(a, c),
    decreases a.len(),
{
    if a.len() > 0 && a[0] == b[0] && b[0] == c[0] {
        lemma_str_lt_trans(a.drop_first(), b.drop_first(), c.drop_first());
    }
}

pub proof fn lemma_str_lt_irreflexive(a: Seq<char>)
    ensures
        !str_lt(a, a),
    decreases a.len(),
{
    if a.len() > 0 {
        lemma_str_lt_irreflexive(a.drop_first());
    }
}

pub proof fn lemma_pair_lt_irreflexive(p: Seq<Seq<char>>)
    ensures
        !pair_lt(p, p),
{
    lemma_str_lt_irreflexive(p[0]);
    lemma_str_lt_irreflexive(p[1]);
}

pub proof fn lemma_pair_lt_trans(p: Seq<Seq<char>>, q: Seq<Seq<char>>, r: Seq<Seq<char>>)
    requires
        pair_lt(p, q),
        pair_lt(q, r),
    ensures
        pair_lt(p, r),
{
    if str_lt(p[0], q[0]) && str_lt(q[0], r[0]) {
        lemma_str_lt_trans(p[0], q[0], r[0]);
    }
    lemma_str_lt_irreflexive(p[0]);
    lemma_str_lt_irreflexive(q[0]);
    if p[0] == q[0] && q[0] == r[0] {
        lemma_str_lt_trans(p[1], q[1], r[1]);
    }
}

pub proof fn lemma_concat_append(x: Seq<Seq<char>>, y: Seq<Seq<char>>)
    ensures
        concat(x + y) == concat(x) + concat(y),
    decreases y.len(),
{
    if y.len() == 0 {
        assert(x + y =~= x);
        assert(concat(x) + concat(y) =~= concat(x));
    } else {
        assert((x + y).drop_last() =~= x + y.drop_last());
        lemma_concat_append(x, y.drop_last());
        assert(concat(x + y) =~= concat(x) + concat(y));
    }
}

pub proof fn lemma_concat_single(x: Seq<char>)
    ensures
        concat(seq![x]) == x,
{
    assert(seq![x].drop_last() =~= Seq::<Seq<char>>::empty());
    assert(concat(Seq::<Seq<char>>::empty()) == Seq::<char>::empty());
    assert(Seq::<char>::empty() + x =~= x);
}

pub proof fn lemma_concat_chars_of(s: Seq<char>)
    ensures
        concat(chars_of(s)) == s,
    decreases s.len(),
{
    if s.len() > 0 {
        assert(chars_of(s).drop_last() =~= chars_of(s.drop_last()));
        lemma_concat_chars_of(s.drop_last());
        assert(s.drop_last() + seq![s.last()] =~= s);
    } else {
        assert(s =~= Seq::<char>::empty());
    }
}

/// Merging keeps the characters of a word.
pub proof fn lemma_concat_merge_word(w: Seq<Seq<char>>, a: Seq<char>, b: Seq<char>)
    ensures
        concat(merge_word(w, a, b)) == concat(w),
        merge_word(w, a, b).len() <= w.len(),
    decreases w.len(),
{
    if w.len() >= 2 {
        if w[0] == a && w[1] == b {
            lemma_concat_merge_word(w.skip(2), a, b);
            lemma_concat_append(seq![a + b], merge_word(w.skip(2), a, b));
            lemma_concat_single(a + b);
            assert(w =~= seq![w[0]] + seq![w[1]] + w.skip(2));
            lemma_concat_append(seq![w[0]] + seq![w[1]], w.skip(2));
            lemma_concat_append(seq![w[0]], seq![w[1]]);
            lemma_concat_single(w[0]);
            lemma_concat_single(w[1]);
            assert(concat(w) =~= a + b + concat(w.skip(2)));
        } else {
            lemma_concat_merge_word(w.skip(1), a, b);
            lemma_concat_append(seq![w[0]], merge_word(w.skip(1), a, b));
            assert(w =~= seq![w[0]] + w.skip(1));
            lemma_concat_append(seq![w[0]], w.skip(1));
            lemma_concat_single(w[0]);
        }
    }
}

/// Merging a pair that does not occur leaves the word as it is.
pub proof fn lemma_merge_word_absent(w: Seq<Seq<char>>, a: Seq<char>, b: Seq<char>)
    requires
        !pair_occurs_in(w, a, b),
    ensures
        merge_word(w, a, b) == w,
    decreases w.len(),
{
    if w.len() >= 2 {
        assert(!(w[0] == a && w[1] == b));
        assert(!pair_occurs_in(w.skip(1), a, b)) by {
            if pair_occurs_in(w.skip(1), a, b) {
                let i = choose|i: int|
                    0 <= i < w.skip(1).len() - 1 && #[trigger] w.skip(1)[i] == a && w.skip(1)[i + 1] == b;
                assert(w[i + 1] == a && w[i + 2] == b);
            }
        }
        lemma_merge_word_absent(w.skip(1), a, b);
        assert(seq![w[0]] + w.skip(1) =~= w);
    }
}

pub proof fn lemma_pre_tokenized_shape(t: Seq<char>)
    ensures
        pre_tokenized(t).len() >= 1,
        pre_tokenized(t).len() <= t.len() + 1,
        concat(pre_tokenized(t)) == t,
        forall|j: int, i: int|
            0 <= j < pre_tokenized(t).len() && 1 <= i < pre_tokenized(t)[j].len() ==> !is_punctuation(
                #[trigger] pre_tokenized(t)[j][i],
            ),
    decreases t.len(),
{
    if t.len() == 0 {
        assert(concat(pre_tokenized(t)) =~= t) by {
            lemma_concat_single(Seq::<char>::empty());
        }
    } else {
        let p = pre_tokenized(t.drop_last());
        let c = t.last();
        lemma_pre_tokenized_shape(t.drop_last());
        if p.last().len() > 0 && is_punctuation(c) {
            assert(p.push(seq![c]).drop_last() =~= p);
            assert(concat(p) + seq![c] =~= t);
        } else {
            let q = p.update(p.len() - 1, p.last().push(c));
            assert(q.drop_last() =~= p.drop_last());
            assert(p =~= p.drop_last().push(p.last()));
            assert(concat(p) == concat(p.drop_last()) + p.last());
            assert(concat(q) =~= concat(p) + seq![c]);
            assert(t =~= t.drop_last() + seq![c]);
            assert forall|j: int, i: int|
                0 <= j < q.len() && 1 <= i < q[j].len() implies !is_punctuation(#[trigger] q[j][i]) by {
                if j == q.len() - 1 && i == q[j].len() - 1 {
                    assert(q[j][i] == c);
                } else if j == q.len() - 1 {
                    assert(q[j][i] == p[j][i]);
                }
            }
        }
    }
}

/// A word unit is pre-tokenized into itself.
pub proof fn lemma_unit_pre_tokenized(u: Seq<char>)
    requires
        forall|i: int| 1 <= i < u.len() ==> !is_punctuation(#[trigger] u[i]),
    ensures
        pre_tokenized(u) == seq![u],
    decreases u.len(),
{
    if u.len() == 0 {
        assert(u =~= Seq::<char>::empty());
        assert(pre_tokenized(u) =~= seq![u]);
    } else {
        let d = u.drop_last();
        assert forall|i: int| 1 <= i < d.len() implies !is_punctuation(#[trigger] d[i]) by {
            assert(d[i] == u[i]);
        }
        lemma_unit_pre_tokenized(d);
        if d.len() > 0 {
            assert(!is_punctuation(u[u.len() - 1]));
        }
        assert(d.push(u.last()) =~= u);
        assert(pre_tokenized(u) =~= seq![u]);
    }
}

/// Corpus models that tally alike have the same surface strings.
pub proof fn lemma_surfaces_tally(s1: Seq<(Seq<Seq<char>>, nat)>, s2: Seq<(Seq<Seq<char>>, nat)>)
    requires
        tally(s1) == tally(s2),
    ensures
        surfaces(s1) == surfaces(s2),
{
    assert forall|u: Seq<char>| surfaces(s1).contains(u) implies surfaces(s2).contains(u) by {
        let x = choose|x: int| 0 <= x < s1.len() && concat((#[trigger] s1[x]).0) == u;
        lemma_tally_contains(s1, s1[x].0);
        lemma_tally_contains(s2, s1[x].0);
        let y = choose|y: int| 0 <= y < s2.len() && (#[trigger] s2[y]).0 == s1[x].0;
    }
    assert forall|u: Seq<char>| surfaces(s2).contains(u) implies surfaces(s1).contains(u) by {
        let x = choose|x: int| 0 <= x < s2.len() && concat((#[trigger] s2[x]).0) == u;
        lemma_tally_contains(s2, s2[x].0);
        lemma_tally_contains(s1, s2[x].0);
        let y = choose|y: int| 0 <= y < s1.len() && (#[trigger] s1[y]).0 == s2[x].0;
    }
    assert(surfaces(s1) =~= surfaces(s2));
}

/// Merging keeps the surface strings of a corpus model.
pub proof fn lemma_surfaces_merged(s: Seq<(Seq<Seq<char>>, nat)>, a: Seq<char>, b: Seq<char>)
    ensures
        surfaces(merged(s, a, b)) == surfaces(s),
{
    let m = merged(s, a, b);
    assert forall|x: int| 0 <= x < s.len() implies concat((#[trigger] m[x]).0) == concat(s[x].0) by {
        lemma_concat_merge_word(s[x].0, a, b);
    }
    assert forall|u: Seq<char>| surfaces(m).contains(u) implies surfaces(s).contains(u) by {
        let x = choose|x: int| 0 <= x < m.len() && concat((#[trigger] m[x]).0) == u;
        assert(concat(s[x].0) == u);
    }
    assert forall|u: Seq<char>| surfaces(s).contains(u) implies surfaces(m).contains(u) by {
        let x = choose|x: int| 0 <= x < s.len() && concat((#[trigger] s[x]).0) == u;
        assert(concat(m[x].0) == u);
    }
    assert(surfaces(m) =~= surfaces(s));
}

/// The surface strings of the initial corpus model are the word units.
pub proof fn lemma_surfaces_initial(units: Seq<Seq<char>>)
    ensures
        surfaces(initial_entries(units)) == units.to_set(),
{
    let m = initial_entries(units);
    assert forall|x: int| 0 <= x < units.len() implies concat((#[trigger] m[x]).0) == units[x] by {
        lemma_concat_chars_of(units[x]);
    }
    assert forall|u: Seq<char>| surfaces(m).contains(u) implies units.to_set().contains(u) by {
        let x = choose|x: int| 0 <= x < m.len() && concat((#[trigger] m[x]).0) == u;
        assert(units[x] == u);
    }
    assert forall|u: Seq<char>| units.to_set().contains(u) implies surfaces(m).contains(u) by {
        let x = choose|x: int| 0 <= x < units.len() && units[x] == u;
        assert(concat(m[x].0) == u);
    }
    assert(surfaces(m) =~= units.to_set());
}

/// A unit without an entry fails the whole lookup.
pub proof fn lemma_looked_up_none(
    d: Map<Seq<char>, Seq<Seq<char>>>,
    units: Seq<Seq<char>>,
    i: int,
)
    requires
        0 <= i < units.len(),
        !d.contains_key(units[i]),
    ensures
        looked_up(d, units) is None,
    decreases units.len(),
{
    if i < units.len() - 1 {
        assert(units.drop_last()[i] == units[i]);
        lemma_looked_up_none(d, units.drop_last(), i);
    }
}

/// A key's tallied count is at least the count of any entry with that key.
pub proof fn lemma_tally_ge<K>(s: Seq<(K, nat)>, i: int)
    requires
        0 <= i < s.len(),
    ensures
        tally(s).contains_key(s[i].0),
        tally(s)[s[i].0] >= s[i].1,
    decreases s.len(),
{
    if i < s.len() - 1 {
        assert(s.drop_last()[i] == s[i]);
        lemma_tally_ge(s.drop_last(), i);
    }
}

/// A word of two or more symbols puts its first pair in the pair table,
/// with at least the word's count.
pub proof fn lemma_pair_table_has_first_pair(s: Seq<(Seq<Seq<char>>, nat)>, x: int)
    requires
        0 <= x < s.len(),
        s[x].0.len() >= 2,
    ensures
        pair_table(s).contains_key(seq![s[x].0[0], s[x].0[1]]),
        pair_table(s)[seq![s[x].0[0], s[x].0[1]]] >= s[x].1,
    decreases s.len(),
{
    let p = seq![s[x].0[0], s[x].0[1]];
    lemma_pair_in_corpus_pairs(s, x);
    let i = choose|i: int| 0 <= i < corpus_pairs(s).len() && #[trigger] corpus_pairs(s)[i] == (p, s[x].1);
    lemma_tally_ge(corpus_pairs(s), i);
}

proof fn lemma_pair_in_corpus_pairs(s: Seq<(Seq<Seq<char>>, nat)>, x: int)
    requires
        0 <= x < s.len(),
        s[x].0.len() >= 2,
    ensures
        exists|i: int|
            0 <= i < corpus_pairs(s).len() && #[trigger] corpus_pairs(s)[i] == (
                seq![s[x].0[0], s[x].0[1]],
                s[x].1,
            ),
    decreases s.len(),
{
    let d = s.drop_last();
    let p = seq![s[x].0[0], s[x].0[1]];
    if x == s.len() - 1 {
        let i = corpus_pairs(d).len() as int;
        assert(corpus_pairs(s)[i] == (p, s[x].1));
    } else {
        assert(d[x] == s[x]);
        lemma_pair_in_corpus_pairs(d, x);
        let i = choose|i: int| 0 <= i < corpus_pairs(d).len() && #[trigger] corpus_pairs(d)[i] == (p, s[x].1);
        assert(corpus_pairs(s)[i] == corpus_pairs(d)[i]);
    }
}

} // verus!
