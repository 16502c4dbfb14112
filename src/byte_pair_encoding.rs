//! Byte pair encoding: training a subword dictionary from a corpus, and
//! tokenizing text with it.
use vstd::prelude::*;
use vstd::string::{StrSliceExecFns, StringExecFns};
use crate::lemmas::{
    lemma_assoc_at, lemma_assoc_contains, lemma_concat_chars_of, lemma_concat_merge_word,
    lemma_count_le_mass, lemma_looked_up_none, lemma_mass_prefix, lemma_pair_lt_irreflexive,
    lemma_pair_lt_trans, lemma_pair_table_has_first_pair, lemma_pre_tokenized_shape,
    lemma_surfaces_initial, lemma_surfaces_merged, lemma_surfaces_tally, lemma_tally_at,
    lemma_tally_contains,
};
use crate::model::{
    alphabet_size, assoc, concat, corpus_pairs, corpus_wf, counts_positive, dict_entries,
    dictionary_of, end_marker, entries, initial_entries, keys_unique, looked_up, mass, merge_step,
    merged, most_frequent, pair_lt, pair_table, pre_tokenized, start_marker, strs, surfaces, tally,
    tokenized, total, training_run, word_pairs,
};
use crate::symbols::{
    contains_char, copy_word, end_token, is_punctuation_char, join, merge_symbols, pair_less,
    split_chars, start_token,
};
use crate::tables::{add_entry, put_entry};

verus! {

/// A trained tokenizer: the vocabulary size reached, and the dictionary from
/// each surface string seen in training to the symbols it was merged into.
pub struct BytePairEncoding {
    pub vocab_size: usize,
    pub tokenizer: Vec<(String, Vec<String>)>,
}

impl BytePairEncoding {
    /// The dictionary as a map from surface string to symbols.
    pub open spec fn dictionary(&self) -> Map<Seq<char>, Seq<Seq<char>>> {
        assoc(dict_entries(self.tokenizer@))
    }

    /// Each surface string has at most one entry.
    pub open spec fn wf(&self) -> bool {
        keys_unique(dict_entries(self.tokenizer@))
    }
}

/// `r` is what tokenizing `t` under `d` gives: the tokens where every word
/// unit has an entry, an error otherwise.
pub open spec fn tokenize_outcome(
    d: Map<Seq<char>, Seq<Seq<char>>>,
    t: Seq<char>,
    r: Result<Vec<String>, std::io::Error>,
) -> bool {
    match r {
        Ok(v) => tokenized(d, t) == Some(strs(v@)),
        Err(_) => tokenized(d, t) is None,
    }
}

/// Declares `std::io::Error`, the error that tokenizing reports.
#[verifier::external_type_specification]
#[verifier::external_body]
pub struct ExIoError(std::io::Error);

/// Relies on `std::io::Error::new`: builds an error of kind `InvalidInput`
/// that carries `msg`.
#[verifier::external_body]
fn invalid_input(msg: &str) -> std::io::Error {
    std::io::Error::new(std::io::ErrorKind::InvalidInput, msg)
}

impl BytePairEncoding {
    /// Splits a text into word units: each punctuation character that follows
    /// a non-empty unit starts a new one.
    pub fn pre_tokenize(corpus: &str) -> (r: Vec<String>)
        ensures
            strs(r@) == pre_tokenized(corpus@),
            concat(strs(r@)) == corpus@,
    {
        let n = corpus.unicode_len();
        let mut prepped: Vec<String> = Vec::new();
        let mut word = String::new();
        let mut i: usize = 0;
        while i < n
            invariant
                i <= n,
                n == corpus@.len(),
                strs(prepped@).push(word@) == pre_tokenized(corpus@.take(i as int)),
            decreases n - i,
        {
            let c = corpus.get_char(i);
            let ghost before = strs(prepped@).push(word@);
            assert(corpus@.take(i + 1).drop_last() =~= corpus@.take(i as int));
            assert(corpus@.take(i + 1).last() == c);
            if !word.as_str().is_empty() && is_punctuation_char(c) {
                let ghost p0 = prepped@;
                prepped.push(word);
                assert(strs(prepped@) =~= strs(p0).push(before.last()));
                word = String::new();
            }
            let ghost mid = strs(prepped@).push(word@);
            let one = corpus.substring_char(i, i + 1);
            assert(one@ =~= seq![c]);
            let ghost w0 = word@;
            assert(mid.last() == w0);
            word.append(one);
            assert(word@ =~= w0.push(c));
            assert(strs(prepped@).push(word@) =~= mid.update(mid.len() - 1, mid.last().push(c)));
            i = i + 1;
        }
        prepped.push(word);
        assert(corpus@.take(n as int) =~= corpus@);
        assert(strs(prepped@) =~= pre_tokenized(corpus@));
        proof {
            lemma_pre_tokenized_shape(corpus@);
        }
        prepped
    }

    /// The corpus model of a list of word units: each unit split into one
    /// symbol per character, with the number of units that give that word.
    pub fn text_to_map(text: &[String]) -> (r: Vec<(Vec<String>, usize)>)
        ensures
            corpus_wf(r@),
            tally(entries(r@)) == tally(initial_entries(strs(text@))),
            total(entries(r@)) == text@.len(),
            mass(entries(r@)) == concat(strs(text@)).len() + text@.len(),
    {
        let mut r: Vec<(Vec<String>, usize)> = Vec::new();
        let mut i: usize = 0;
        while i < text.len()
            invariant
                i <= text@.len(),
                corpus_wf(r@),
                forall|j: int| 0 <= j < r@.len() ==> r@[j].1 <= i,
                tally(entries(r@)) == tally(initial_entries(strs(text@.take(i as int)))),
                total(entries(r@)) == i,
                mass(entries(r@)) == concat(strs(text@.take(i as int))).len() + i,
            decreases text@.len() - i,
        {
            let key = split_chars(text[i].as_str());
            let ghost old_r = r@;
            proof {
                lemma_concat_chars_of(text@[i as int]@);
            }
            add_entry(&mut r, key, 1);
            assert(counts_positive(r@)) by {
                assert forall|j: int| 0 <= j < r@.len() implies r@[j].1 >= 1 by {
                    if j < old_r.len() && r@[j] == old_r[j] {
                    }
                }
            }
            assert forall|j: int| 0 <= j < r@.len() implies r@[j].1 <= i + 1 by {
                if j < old_r.len() && r@[j] == old_r[j] {
                }
            }
            let ghost t1 = text@.take(i + 1);
            assert(t1.drop_last() =~= text@.take(i as int));
            assert(strs(t1).drop_last() =~= strs(text@.take(i as int)));
            assert(initial_entries(strs(t1)).drop_last() =~= initial_entries(
                strs(text@.take(i as int)),
            ));
            i = i + 1;
        }
        assert(text@.take(i as int) =~= text@);
        r
    }
    /// The corpus model with every word merged by `pair`; words that become
    /// equal are joined and their counts added.
    pub fn merge_by_pair(words: Vec<(Vec<String>, usize)>, pair: Vec<String>) -> (r: Vec<
        (Vec<String>, usize),
    >)
        requires
            pair@.len() == 2,
            counts_positive(words@),
            mass(entries(words@)) <= usize::MAX,
        ensures
            corpus_wf(r@),
            tally(entries(r@)) == tally(merged(entries(words@), pair@[0]@, pair@[1]@)),
            total(entries(r@)) == total(entries(words@)),
            mass(entries(r@)) <= mass(entries(words@)),
    {
        let ghost es = entries(words@);
        let a = &pair[0];
        let b = &pair[1];
        let mut ab = a.clone();
        ab.append(b.as_str());
        let mut r: Vec<(Vec<String>, usize)> = Vec::new();
        let mut k: usize = 0;
        assert(es.take(0) =~= Seq::<(Seq<Seq<char>>, nat)>::empty());
        assert(merged(es.take(0), a@, b@) =~= Seq::<(Seq<Seq<char>>, nat)>::empty());
        while k < words.len()
            invariant
                k <= words@.len(),
                es == entries(words@),
                counts_positive(words@),
                mass(es) <= usize::MAX,
                ab@ == a@ + b@,
                a@ == pair@[0]@,
                b@ == pair@[1]@,
                corpus_wf(r@),
                tally(entries(r@)) == tally(merged(es.take(k as int), a@, b@)),
                total(entries(r@)) == total(es.take(k as int)),
                mass(entries(r@)) <= mass(es.take(k as int)),
            decreases words@.len() - k,
        {
            let w = &words[k].0;
            let n = words[k].1;
            let ghost wv = strs(w@);
            assert(es[k as int] == (wv, n as nat));
            let m = merge_symbols(w, a, b, &ab);
            let ghost r0 = r@;
            let ghost t1 = es.take(k + 1);
            assert(t1.drop_last() =~= es.take(k as int));
            assert(t1.last() == es[k as int]);
            proof {
                lemma_concat_merge_word(wv, a@, b@);
                lemma_mass_prefix(es, k + 1);
                let x = wv.len() + 1;
                let y = m@.len() + 1;
                assert(n * y <= n * x) by (nonlinear_arith)
                    requires
                        y <= x,
                ;
                assert(n <= n * y) by (nonlinear_arith)
                    requires
                        1 <= y,
                ;
                assert forall|j: int| 0 <= j < r@.len() implies r@[j].1 + n <= usize::MAX by {
                    lemma_count_le_mass(entries(r@), j);
                }
            }
            add_entry(&mut r, m, n);
            assert(counts_positive(r@)) by {
                assert forall|j: int| 0 <= j < r@.len() implies r@[j].1 >= 1 by {
                    if j < r0.len() && r@[j] == r0[j] {
                    }
                }
            }
            assert(merged(t1, a@, b@).drop_last() =~= merged(es.take(k as int), a@, b@));
            k = k + 1;
        }
        assert(es.take(k as int) =~= es);
        r
    }

    /// The most frequent adjacent pair of symbols with its frequency; among
    /// equally frequent pairs the lexicographically greatest. The frequency is
    /// zero, and the pair empty, where no word has two symbols.
    pub fn get_most_frequent_pair(words: &Vec<(Vec<String>, usize)>) -> (r: (Vec<String>, usize))
        requires
            mass(entries(words@)) <= usize::MAX,
        ensures
            r.1 == 0 ==> r.0@.len() == 0 && forall|p: Seq<Seq<char>>| #[trigger]
                pair_table(entries(words@)).contains_key(p) ==> pair_table(entries(words@))[p] == 0,
            r.1 > 0 ==> r.0@.len() == 2 && most_frequent(
                pair_table(entries(words@)),
                strs(r.0@),
                r.1 as nat,
            ),
    {
        let ghost es = entries(words@);
        let mut table: Vec<(Vec<String>, usize)> = Vec::new();
        let mut added: usize = 0;
        let mut k: usize = 0;
        assert(es.take(0) =~= Seq::<(Seq<Seq<char>>, nat)>::empty());
        while k < words.len()
            invariant
                k <= words@.len(),
                es == entries(words@),
                mass(es) <= usize::MAX,
                keys_unique(entries(table@)),
                tally(entries(table@)) == tally(corpus_pairs(es.take(k as int))),
                forall|j: int| 0 <= j < table@.len() ==> #[trigger] table@[j].1 <= added,
                forall|j: int| 0 <= j < table@.len() ==> (#[trigger] table@[j]).0@.len() == 2,
                added <= mass(es.take(k as int)),
            decreases words@.len() - k,
        {
            let w = &words[k].0;
            let n = words[k].1;
            let ghost wv = strs(w@);
            let ghost base = corpus_pairs(es.take(k as int));
            let ghost added0 = added;
            assert(es[k as int] == (wv, n as nat));
            let ghost t1 = es.take(k + 1);
            assert(t1.drop_last() =~= es.take(k as int));
            assert(t1.last() == es[k as int]);
            proof {
                lemma_mass_prefix(es, k + 1);
            }
            assert(base + word_pairs(wv, n as nat).take(0) =~= base);
            let mut i: usize = 0;
            while i < w.len() && i + 1 < w.len()
                invariant
                    i + 1 <= w@.len() || i == 0,
                    wv == strs(w@),
                    mass(es) <= usize::MAX,
                    mass(es.take(k + 1)) <= mass(es),
                    mass(es.take(k + 1)) == mass(es.take(k as int)) + n * (wv.len() + 1),
                    added0 <= mass(es.take(k as int)),
                    added <= added0 + n * i,
                    keys_unique(entries(table@)),
                    tally(entries(table@)) == tally(base + word_pairs(wv, n as nat).take(i as int)),
                    forall|j: int| 0 <= j < table@.len() ==> #[trigger] table@[j].1 <= added,
                    forall|j: int| 0 <= j < table@.len() ==> (#[trigger] table@[j]).0@.len() == 2,
                decreases w@.len() - i,
            {
                let mut key: Vec<String> = Vec::new();
                key.push(w[i].clone());
                key.push(w[i + 1].clone());
                proof {
                    let x = wv.len() + 1;
                    assert(n * (i + 1) <= n * x) by (nonlinear_arith)
                        requires
                            i + 1 <= x,
                    ;
                    assert(n * (i + 1) == n * i + n) by (nonlinear_arith);
                }
                let ghost t0 = table@;
                add_entry(&mut table, key, n);
                let ghost before = base + word_pairs(wv, n as nat).take(i as int);
                let ghost after = base + word_pairs(wv, n as nat).take(i + 1);
                assert(strs(key@) =~= seq![wv[i as int], wv[i + 1]]);
                assert(after =~= before.push((strs(key@), n as nat)));
                assert(after.drop_last() =~= before);
                added = added + n;
                assert forall|j: int| 0 <= j < table@.len() implies #[trigger] table@[j].1 <= added by {
                    if j < t0.len() && table@[j] == t0[j] {
                    }
                }
                assert forall|j: int| 0 <= j < table@.len() implies (#[trigger] table@[j]).0@.len() == 2 by {
                    if j < t0.len() && table@[j] == t0[j] {
                    } else {
                        assert(strs(table@[j].0@).len() == 2);
                    }
                }
                i = i + 1;
            }
            proof {
                if wv.len() >= 2 {
                    assert(word_pairs(wv, n as nat).take(i as int) =~= word_pairs(wv, n as nat));
                } else {
                    assert(word_pairs(wv, n as nat).take(i as int) =~= word_pairs(wv, n as nat));
                }
                let x = wv.len() + 1;
                assert(n * i <= n * x) by (nonlinear_arith)
                    requires
                        i <= x,
                ;
            }
            k = k + 1;
        }
        assert(es.take(k as int) =~= es);
        let ghost te = entries(table@);
        let mut best_pair: Vec<String> = Vec::new();
        let mut best: usize = 0;
        let mut j: usize = 0;
        while j < table.len()
            invariant
                j <= table@.len(),
                te == entries(table@),
                forall|x: int| 0 <= x < table@.len() ==> (#[trigger] table@[x]).0@.len() == 2,
                best == 0 ==> best_pair@.len() == 0,
                best > 0 ==> best_pair@.len() == 2,
                best > 0 ==> exists|x: int| 0 <= x < j && #[trigger] te[x] == (strs(best_pair@), best as nat),
                forall|x: int|
                    0 <= x < j ==> #[trigger] te[x].1 <= best && (te[x].1 == best && best > 0
                        ==> !pair_lt(strs(best_pair@), te[x].0)),
            decreases table@.len() - j,
        {
            let c = table[j].1;
            assert(te[j as int] == (strs(table@[j as int].0@), c as nat));
            assert(table@[j as int].0@.len() == 2);
            assert(strs(table@[j as int].0@).len() == 2);
            if c > best {
                best = c;
                best_pair = copy_word(&table[j].0);
                assert(strs(best_pair@).len() == best_pair@.len());
                assert(te[j as int] == (strs(best_pair@), best as nat));
                proof {
                    lemma_pair_lt_irreflexive(strs(best_pair@));
                }
            } else if c == best && best > 0 && pair_less(&best_pair, &table[j].0) {
                let ghost old_best = strs(best_pair@);
                best_pair = copy_word(&table[j].0);
                assert(strs(best_pair@).len() == best_pair@.len());
                assert forall|x: int|
                    0 <= x < j + 1 implies #[trigger] te[x].1 <= best && (te[x].1 == best && best > 0
                        ==> !pair_lt(strs(best_pair@), te[x].0)) by {
                    if x < j && te[x].1 == best && pair_lt(strs(best_pair@), te[x].0) {
                        lemma_pair_lt_trans(old_best, strs(best_pair@), te[x].0);
                    }
                    if x == j {
                        lemma_pair_lt_irreflexive(strs(best_pair@));
                    }
                }
                assert(te[j as int] == (strs(best_pair@), best as nat));
            }
            j = j + 1;
        }
        proof {
            assert forall|p: Seq<Seq<char>>| #[trigger]
                pair_table(es).contains_key(p) implies pair_table(es)[p] <= best && (
                pair_table(es)[p] == best && best > 0 ==> !pair_lt(strs(best_pair@), p)) by {
                lemma_tally_contains(te, p);
                let x = choose|x: int| 0 <= x < te.len() && (#[trigger] te[x]).0 == p;
                lemma_tally_at(te, x);
            }
            assert(strs(best_pair@).len() == best_pair@.len());
            if best > 0 {
                let x = choose|x: int| 0 <= x < j && #[trigger] te[x] == (strs(best_pair@), best as nat);
                lemma_tally_at(te, x);
            }
        }
        (best_pair, best)
    }

    /// The distinct characters of a text, one string each, followed by the
    /// start and the end marker.
    pub fn build_vocablary(corpus: &str) -> (r: Vec<String>)
        ensures
            r@.len() == alphabet_size(corpus@) + 2,
            r@[r@.len() - 2]@ == start_marker(),
            r@[r@.len() - 1]@ == end_marker(),
            forall|i: int, j: int| 0 <= i < j < r@.len() - 2 ==> r@[i]@ != r@[j]@,
            forall|i: int| 0 <= i < r@.len() - 2 ==> (#[trigger] r@[i]@).len() == 1 && corpus@.contains(
                r@[i]@[0],
            ),
            forall|c: char| corpus@.contains(c) ==> exists|i: int| 0 <= i < r@.len() - 2 && (#[trigger] r@[i]@) == seq![c],
    {
        let n = corpus.unicode_len();
        let mut seen: Vec<char> = Vec::new();
        let mut r: Vec<String> = Vec::new();
        let mut i: usize = 0;
        assert(corpus@.take(0).to_set() =~= Set::<char>::empty());
        while i < n
            invariant
                i <= n,
                n == corpus@.len(),
                seen@.no_duplicates(),
                seen@.to_set() == corpus@.take(i as int).to_set(),
                r@.len() == seen@.len(),
                forall|j: int| 0 <= j < r@.len() ==> #[trigger] r@[j]@ == seq![seen@[j]],
            decreases n - i,
        {
            let c = corpus.get_char(i);
            assert(corpus@.take(i + 1) =~= corpus@.take(i as int).push(c));
            proof {
                corpus@.take(i as int).lemma_push_to_set_commute(c);
            }
            if !contains_char(&seen, c) {
                let ghost s0 = seen@;
                seen.push(c);
                proof {
                    s0.lemma_push_to_set_commute(c);
                    assert(seen@ == s0.push(c));
                    assert forall|x: int, y: int| 0 <= x < y < seen@.len() implies seen@[x] != seen@[y] by {
                        if y == seen@.len() - 1 {
                            assert(s0.contains(s0[x]));
                        }
                    }
                }
                let one = String::from_str(corpus.substring_char(i, i + 1));
                assert(one@ =~= seq![c]);
                r.push(one);
            } else {
                assert(seen@.to_set().contains(c));
                assert(seen@.to_set().insert(c) =~= seen@.to_set());
            }
            i = i + 1;
        }
        assert(corpus@.take(n as int) =~= corpus@);
        proof {
            seen@.unique_seq_to_set();
        }
        assert forall|x: int, y: int| 0 <= x < y < r@.len() implies r@[x]@ != r@[y]@ by {
            assert(r@[x]@[0] == seen@[x] && r@[y]@[0] == seen@[y]);
        }
        assert forall|x: int| 0 <= x < r@.len() implies (#[trigger] r@[x]@).len() == 1 && corpus@.contains(
            r@[x]@[0],
        ) by {
            assert(r@[x]@[0] == seen@[x]);
            assert(seen@.to_set().contains(seen@[x]));
        }
        assert forall|c: char| corpus@.contains(c) implies exists|x: int| 0 <= x < r@.len() && (#[trigger] r@[x]@) == seq![c] by {
            assert(corpus@.to_set().contains(c));
            let x = choose|x: int| 0 <= x < seen@.len() && seen@[x] == c;
            assert(r@[x]@ == seq![c]);
        }
        let ghost r0 = r@;
        r.push(start_token());
        r.push(end_token());
        assert forall|x: int| 0 <= x < r@.len() - 2 implies r@[x] == r0[x] by {}
        r
    }

    /// Trains a tokenizer on `corpus`: starting from one symbol per
    /// character, merges the most frequent adjacent pair until the vocabulary
    /// reaches `max_vocab_size` or no word has two symbols left. A target equal
    /// to the number of distinct characters gives an empty dictionary.
    pub fn from(corpus: String, max_vocab_size: usize) -> (r: Self)
        requires
            max_vocab_size >= alphabet_size(corpus@),
            2 * corpus@.len() + 1 <= usize::MAX,
        ensures
            r.wf(),
            max_vocab_size == alphabet_size(corpus@) ==> r.vocab_size == max_vocab_size
                && r.dictionary() == Map::<Seq<char>, Seq<Seq<char>>>::empty(),
            max_vocab_size > alphabet_size(corpus@) ==> {
                &&& alphabet_size(corpus@) <= r.vocab_size <= max_vocab_size
                &&& r.dictionary().dom() == pre_tokenized(corpus@).to_set()
                &&& forall|u: Seq<char>| #[trigger]
                    r.dictionary().contains_key(u) ==> concat(r.dictionary()[u]) == u
                &&& r.vocab_size < max_vocab_size ==> forall|u: Seq<char>| #[trigger]
                    r.dictionary().contains_key(u) ==> r.dictionary()[u].len() <= 1
                &&& exists|hist: Seq<Seq<(Seq<Seq<char>>, nat)>>|
                    #[trigger] training_run(pre_tokenized(corpus@), hist) && hist.len()
                        == r.vocab_size - alphabet_size(corpus@) + 1 && dictionary_of(
                        hist.last(),
                        r.dictionary(),
                    )
            },
    {
        let vocabulary = Self::build_vocablary(corpus.as_str());
        let mut vocab_size = vocabulary.len() - 2;
        if max_vocab_size == vocab_size {
            let r = BytePairEncoding { vocab_size: max_vocab_size, tokenizer: Vec::new() };
            assert(r.dictionary() =~= Map::<Seq<char>, Seq<Seq<char>>>::empty());
            return r;
        }
        let pre_tokenized_units = Self::pre_tokenize(corpus.as_str());
        let mut words = Self::text_to_map(pre_tokenized_units.as_slice());
        proof {
            lemma_pre_tokenized_shape(corpus@);
            lemma_surfaces_tally(entries(words@), initial_entries(strs(pre_tokenized_units@)));
            lemma_surfaces_initial(strs(pre_tokenized_units@));
        }
        let ghost mut hist = seq![entries(words@)];
        let mut exhausted = false;
        while !exhausted && max_vocab_size > vocab_size
            invariant
                alphabet_size(corpus@) <= vocab_size <= max_vocab_size,
                training_run(pre_tokenized(corpus@), hist),
                hist.last() == entries(words@),
                hist.len() == vocab_size - alphabet_size(corpus@) + 1,
                corpus_wf(words@),
                mass(entries(words@)) <= usize::MAX,
                surfaces(entries(words@)) == pre_tokenized(corpus@).to_set(),
                exhausted ==> forall|x: int|
                    0 <= x < words@.len() ==> (#[trigger] entries(words@)[x]).0.len() <= 1,
            decreases 2 * (max_vocab_size - vocab_size) + if exhausted {
                0int
            } else {
                1int
            },
        {
            let (pair, freq) = Self::get_most_frequent_pair(&words);
            if freq == 0 {
                proof {
                    let es = entries(words@);
                    assert forall|x: int| 0 <= x < words@.len() implies (#[trigger] es[x]).0.len() <= 1 by {
                        if es[x].0.len() >= 2 {
                            assert(es[x].1 == words@[x].1);
                            lemma_pair_table_has_first_pair(es, x);
                        }
                    }
                }
                exhausted = true;
            } else {
                let ghost es = entries(words@);
                assert(strs(pair@)[0] == pair@[0]@ && strs(pair@)[1] == pair@[1]@);
                words = Self::merge_by_pair(words, pair);
                proof {
                    lemma_surfaces_tally(entries(words@), merged(es, pair@[0]@, pair@[1]@));
                    lemma_surfaces_merged(es, pair@[0]@, pair@[1]@);
                    let h0 = hist;
                    assert(merge_step(es, entries(words@)));
                    hist = hist.push(entries(words@));
                    assert forall|i: int| 0 <= i < hist.len() - 1 implies #[trigger] merge_step(
                        hist[i],
                        hist[i + 1],
                    ) by {
                        if i < h0.len() - 1 {
                            assert(hist[i] == h0[i] && hist[i + 1] == h0[i + 1]);
                        }
                    }
                }
                vocab_size = vocab_size + 1;
            }
        }
        let ghost es = entries(words@);
        let mut tokenizer: Vec<(String, Vec<String>)> = Vec::new();
        let mut k: usize = 0;
        assert(assoc(dict_entries(tokenizer@)) =~= Map::<Seq<char>, Seq<Seq<char>>>::empty());
        while k < words.len()
            invariant
                k <= words@.len(),
                es == entries(words@),
                keys_unique(dict_entries(tokenizer@)),
                assoc(dict_entries(tokenizer@)).dom() == Set::new(
                    |u: Seq<char>| exists|x: int| 0 <= x < k && concat((#[trigger] es[x]).0) == u,
                ),
                forall|u: Seq<char>| #[trigger]
                    assoc(dict_entries(tokenizer@)).contains_key(u) ==> concat(
                        assoc(dict_entries(tokenizer@))[u],
                    ) == u,
                exhausted ==> forall|x: int|
                    0 <= x < words@.len() ==> (#[trigger] es[x]).0.len() <= 1,
                exhausted ==> forall|u: Seq<char>| #[trigger]
                    assoc(dict_entries(tokenizer@)).contains_key(u) ==> assoc(
                        dict_entries(tokenizer@),
                    )[u].len() <= 1,
                forall|u: Seq<char>| #[trigger]
                    assoc(dict_entries(tokenizer@)).contains_key(u) ==> exists|x: int|
                        0 <= x < k && es[x].0 == assoc(dict_entries(tokenizer@))[u],
            decreases words@.len() - k,
        {
            let w = &words[k].0;
            let key = join(w);
            let val = copy_word(w);
            assert(es[k as int].0 == strs(w@));
            let ghost m0 = assoc(dict_entries(tokenizer@));
            put_entry(&mut tokenizer, key, val);
            assert forall|u: Seq<char>| #[trigger]
                assoc(dict_entries(tokenizer@)).contains_key(u) implies exists|x: int|
                    0 <= x < k + 1 && es[x].0 == assoc(dict_entries(tokenizer@))[u] by {
                if u != key@ {
                    let x = choose|x: int| 0 <= x < k && es[x].0 == m0[u];
                } else {
                    assert(es[k as int].0 == assoc(dict_entries(tokenizer@))[u]);
                }
            }
            assert(assoc(dict_entries(tokenizer@)).dom() =~= Set::new(
                |u: Seq<char>| exists|x: int| 0 <= x < k + 1 && concat((#[trigger] es[x]).0) == u,
            )) by {
                assert(m0.insert(key@, strs(val@)).dom() == m0.dom().insert(key@));
                assert forall|u: Seq<char>| (exists|x: int| 0 <= x < k + 1 && concat((#[trigger] es[x]).0) == u) implies m0.dom().insert(key@).contains(u) by {
                    let x = choose|x: int| 0 <= x < k + 1 && concat((#[trigger] es[x]).0) == u;
                    if x < k {
                        assert(m0.dom().contains(u));
                    }
                }
            }
            k = k + 1;
        }
        let r = BytePairEncoding { vocab_size, tokenizer };
        assert(r.dictionary().dom() =~= pre_tokenized(corpus@).to_set()) by {
            assert(surfaces(es) =~= r.dictionary().dom());
        }
        assert(dictionary_of(hist.last(), r.dictionary()));
        assert(training_run(pre_tokenized(corpus@), hist));
        r
    }

    /// The index of the entry for `word`, if there is one.
    fn lookup(&self, word: &String) -> (r: Option<usize>)
        ensures
            match r {
                Some(j) => j < self.tokenizer@.len() && dict_entries(self.tokenizer@)[j as int].0
                    == word@,
                None => forall|x: int|
                    0 <= x < self.tokenizer@.len() ==> (#[trigger] dict_entries(
                        self.tokenizer@,
                    )[x]).0 != word@,
            },
    {
        let ghost de = dict_entries(self.tokenizer@);
        let mut j: usize = 0;
        while j < self.tokenizer.len()
            invariant
                j <= self.tokenizer@.len(),
                de == dict_entries(self.tokenizer@),
                forall|x: int| 0 <= x < j ==> (#[trigger] de[x]).0 != word@,
            decreases self.tokenizer@.len() - j,
        {
            assert(de[j as int].0 == self.tokenizer@[j as int].0@);
            if self.tokenizer[j].0 == *word {
                return Some(j);
            }
            j = j + 1;
        }
        None
    }

    /// The tokens of `text`: the start marker, the dictionary's symbols for
    /// each word unit in order, and the end marker; an error where a word unit
    /// has no entry.
    pub fn tokenize(&self, text: String) -> (r: Result<Vec<String>, std::io::Error>)
        requires
            self.wf(),
        ensures
            tokenize_outcome(self.dictionary(), text@, r),
    {
        let ghost d = self.dictionary();
        let ghost de = dict_entries(self.tokenizer@);
        let mut tokenized_text: Vec<String> = Vec::new();
        tokenized_text.push(start_token());
        let units = Self::pre_tokenize(text.as_str());
        let ghost us = strs(units@);
        let mut i: usize = 0;
        assert(us.take(0) =~= Seq::<Seq<char>>::empty());
        assert(strs(tokenized_text@) =~= seq![start_marker()] + Seq::<Seq<char>>::empty());
        while i < units.len()
            invariant
                i <= units@.len(),
                us == strs(units@),
                us == pre_tokenized(text@),
                d == self.dictionary(),
                de == dict_entries(self.tokenizer@),
                d == assoc(de),
                keys_unique(de),
                looked_up(d, us.take(i as int)) is Some,
                strs(tokenized_text@) == seq![start_marker()] + looked_up(d, us.take(i as int))->Some_0,
            decreases units@.len() - i,
        {
            let ghost prev = looked_up(d, us.take(i as int))->Some_0;
            assert(us.take(i + 1).drop_last() =~= us.take(i as int));
            assert(us.take(i + 1).last() == units@[i as int]@);
            let found = self.lookup(&units[i]);
            if found.is_none() {
                proof {
                    lemma_assoc_contains(de, units@[i as int]@);
                    lemma_looked_up_none(d, us, i as int);
                }
                return Err(invalid_input("Word not found in vocabulary"));
            }
            let j = found.unwrap();
            proof {
                lemma_assoc_at(de, j as int);
            }
            let symbols = &self.tokenizer[j].1;
            let ghost t0 = strs(tokenized_text@);
            let mut k: usize = 0;
            while k < symbols.len()
                invariant
                    k <= symbols@.len(),
                    strs(tokenized_text@) == t0 + strs(symbols@).take(k as int),
                decreases symbols@.len() - k,
            {
                let ghost t1 = strs(tokenized_text@);
                tokenized_text.push(symbols[k].clone());
                assert(strs(tokenized_text@) =~= t1.push(symbols@[k as int]@));
                k = k + 1;
                assert(strs(symbols@).take(k as int) =~= strs(symbols@).take(k - 1).push(symbols@[k - 1]@));
            }
            assert(strs(symbols@).take(k as int) =~= strs(symbols@));
            assert(de[j as int].1 == strs(symbols@));
            assert(strs(tokenized_text@) =~= seq![start_marker()] + (prev + d[units@[i as int]@]));
            i = i + 1;
        }
        assert(us.take(i as int) =~= us);
        let ghost body = strs(tokenized_text@);
        tokenized_text.push(end_token());
        assert(strs(tokenized_text@) =~= body.push(end_marker()));
        assert(strs(tokenized_text@) =~= seq![start_marker()] + looked_up(d, us)->Some_0 + seq![end_marker()]);
        Ok(tokenized_text)
    }
}

} // verus!
