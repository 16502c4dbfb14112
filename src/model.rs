//! Mathematical model of the tokenizer: symbols are character sequences,
//! a word is a sequence of symbols, and a corpus model is a list of
//! (word, count) entries read as the map that tallies them.
use vstd::prelude::*;

verus! {

/// The reserved marker that opens every tokenized text.
pub open spec fn start_marker() -> Seq<char> {
    seq!['<', '|', 's', 't', 'a', 'r', 't', 'o', 'f', 't', 'e', 'x', 't', '|', '>']
}

/// The reserved marker that closes every tokenized text.
pub open spec fn end_marker() -> Seq<char> {
    seq!['<', '|', 'e', 'n', 'd', 'o', 'f', 't', 'e', 'x', 't', '|', '>']
}

/// The characters at which the pre-tokenizer starts a new word unit.
pub open spec fn is_punctuation(c: char) -> bool {
    c == ' ' || c == '.' || c == ',' || c == '!' || c == '?' || c == '\n'
}

/// The views of a sequence of strings.
pub open spec fn strs(v: Seq<String>) -> Seq<Seq<char>> {
    v.map_values(|s: String| s@)
}

/// The concatenation of a sequence of character sequences.
pub open spec fn concat(ws: Seq<Seq<char>>) -> Seq<char>
    decreases ws.len(),
{
    if ws.len() == 0 {
        Seq::empty()
    } else {
        concat(ws.drop_last()) + ws.last()
    }
}

/// Word units of a text: a punctuation character closes the current
/// non-empty unit and opens the next one.
pub open spec fn pre_tokenized(t: Seq<char>) -> Seq<Seq<char>>
    decreases t.len(),
{
    if t.len() == 0 {
        seq![Seq::empty()]
    } else {
        let p = pre_tokenized(t.drop_last());
        let c = t.last();
        if p.last().len() > 0 && is_punctuation(c) {
            p.push(seq![c])
        } else {
            p.update(p.len() - 1, p.last().push(c))
        }
    }
}

/// A text split into one single-character symbol per character.
pub open spec fn chars_of(s: Seq<char>) -> Seq<Seq<char>> {
    Seq::new(s.len(), |i: int| seq![s[i]])
}

/// Number of distinct characters of a text.
pub open spec fn alphabet_size(t: Seq<char>) -> nat {
    t.to_set().len()
}

/// A corpus model entry, as stored: symbols and a count.
pub open spec fn entries(v: Seq<(Vec<String>, usize)>) -> Seq<(Seq<Seq<char>>, nat)> {
    v.map_values(|e: (Vec<String>, usize)| (strs(e.0@), e.1 as nat))
}

/// Adds `n` to the count of `k`.
pub open spec fn add_count<K>(m: Map<K, nat>, k: K, n: nat) -> Map<K, nat> {
    if m.contains_key(k) {
        m.insert(k, m[k] + n)
    } else {
        m.insert(k, n)
    }
}

/// The map that sums, for each key, the counts of the entries with that key.
pub open spec fn tally<K>(s: Seq<(K, nat)>) -> Map<K, nat>
    decreases s.len(),
{
    if s.len() == 0 {
        Map::empty()
    } else {
        add_count(tally(s.drop_last()), s.last().0, s.last().1)
    }
}

/// The map in which each key takes the value of its last entry.
pub open spec fn assoc<K, V>(s: Seq<(K, V)>) -> Map<K, V>
    decreases s.len(),
{
    if s.len() == 0 {
        Map::empty()
    } else {
        assoc(s.drop_last()).insert(s.last().0, s.last().1)
    }
}

pub open spec fn keys_unique<K, V>(s: Seq<(K, V)>) -> bool {
    forall|i: int, j: int| 0 <= i < j < s.len() ==> s[i].0 != s[j].0
}

pub open spec fn counts_positive(v: Seq<(Vec<String>, usize)>) -> bool {
    forall|i: int| 0 <= i < v.len() ==> v[i].1 >= 1
}

/// A corpus model: distinct words, each with a positive count.
pub open spec fn corpus_wf(v: Seq<(Vec<String>, usize)>) -> bool {
    keys_unique(entries(v)) && counts_positive(v)
}

/// Sum of the counts.
pub open spec fn total(s: Seq<(Seq<Seq<char>>, nat)>) -> nat
    decreases s.len(),
{
    if s.len() == 0 {
        0
    } else {
        total(s.drop_last()) + s.last().1
    }
}

/// Sum of count times (length + 1): bounds every count and every pair tally.
pub open spec fn mass(s: Seq<(Seq<Seq<char>>, nat)>) -> nat
    decreases s.len(),
{
    if s.len() == 0 {
        0
    } else {
        mass(s.drop_last()) + s.last().1 * (s.last().0.len() + 1)
    }
}

/// Lexicographic order on character sequences, by code point.
pub open spec fn str_lt(a: Seq<char>, b: Seq<char>) -> bool
    decreases a.len(),
{
    if b.len() == 0 {
        false
    } else if a.len() == 0 {
        true
    } else if a[0] != b[0] {
        (a[0] as u32) < (b[0] as u32)
    } else {
        str_lt(a.drop_first(), b.drop_first())
    }
}

/// Lexicographic order on pairs of symbols.
pub open spec fn pair_lt(p: Seq<Seq<char>>, q: Seq<Seq<char>>) -> bool {
    str_lt(p[0], q[0]) || (p[0] == q[0] && str_lt(p[1], q[1]))
}

/// The adjacent pairs of one word, each weighted by the word's count.
pub open spec fn word_pairs(w: Seq<Seq<char>>, n: nat) -> Seq<(Seq<Seq<char>>, nat)> {
    if w.len() < 2 {
        Seq::empty()
    } else {
        Seq::new((w.len() - 1) as nat, |i: int| (seq![w[i], w[i + 1]], n))
    }
}

/// All weighted adjacent pairs of a corpus model.
pub open spec fn corpus_pairs(s: Seq<(Seq<Seq<char>>, nat)>) -> Seq<(Seq<Seq<char>>, nat)>
    decreases s.len(),
{
    if s.len() == 0 {
        Seq::empty()
    } else {
        corpus_pairs(s.drop_last()) + word_pairs(s.last().0, s.last().1)
    }
}

/// Pair-frequency table: each adjacent pair with its aggregate frequency.
pub open spec fn pair_table(s: Seq<(Seq<Seq<char>>, nat)>) -> Map<Seq<Seq<char>>, nat> {
    tally(corpus_pairs(s))
}

/// `p` has frequency `f` in the pair table `t`, no pair is more frequent,
/// and none as frequent is lexicographically greater.
pub open spec fn most_frequent(t: Map<Seq<Seq<char>>, nat>, p: Seq<Seq<char>>, f: nat) -> bool {
    &&& p.len() == 2
    &&& t.contains_key(p)
    &&& t[p] == f
    &&& forall|q: Seq<Seq<char>>| #[trigger]
        t.contains_key(q) ==> t[q] <= f && (t[q] == f ==> !pair_lt(p, q))
}

/// A word with every non-overlapping occurrence of `(a, b)`, scanned from
/// the left, collapsed into the symbol `a + b`.
pub open spec fn merge_word(w: Seq<Seq<char>>, a: Seq<char>, b: Seq<char>) -> Seq<Seq<char>>
    decreases w.len(),
{
    if w.len() < 2 {
        w
    } else if w[0] == a && w[1] == b {
        seq![a + b] + merge_word(w.skip(2), a, b)
    } else {
        seq![w[0]] + merge_word(w.skip(1), a, b)
    }
}

/// Every word of a corpus model merged by `(a, b)`, counts kept.
pub open spec fn merged(s: Seq<(Seq<Seq<char>>, nat)>, a: Seq<char>, b: Seq<char>) -> Seq<
    (Seq<Seq<char>>, nat),
> {
    s.map_values(|e: (Seq<Seq<char>>, nat)| (merge_word(e.0, a, b), e.1))
}

pub open spec fn pair_occurs_in(w: Seq<Seq<char>>, a: Seq<char>, b: Seq<char>) -> bool {
    exists|i: int| 0 <= i < w.len() - 1 && #[trigger] w[i] == a && w[i + 1] == b
}

/// One training step: `t` tallies as `s` merged by its most frequent pair.
pub open spec fn merge_step(s: Seq<(Seq<Seq<char>>, nat)>, t: Seq<(Seq<Seq<char>>, nat)>) -> bool {
    exists|p: Seq<Seq<char>>|
        #[trigger] most_frequent(pair_table(s), p, pair_table(s)[p]) && pair_table(s)[p] > 0
            && tally(t) == tally(merged(s, p[0], p[1]))
}

/// A run of training on a list of word units: corpus models that start from
/// one symbol per character and follow each other by training steps.
pub open spec fn training_run(units: Seq<Seq<char>>, hist: Seq<Seq<(Seq<Seq<char>>, nat)>>) -> bool {
    &&& hist.len() >= 1
    &&& tally(hist[0]) == tally(initial_entries(units))
    &&& forall|i: int| 0 <= i < hist.len() - 1 ==> #[trigger] merge_step(hist[i], hist[i + 1])
}

/// `d` maps the surface string of each word of `s` to that word.
pub open spec fn dictionary_of(s: Seq<(Seq<Seq<char>>, nat)>, d: Map<Seq<char>, Seq<Seq<char>>>) -> bool {
    &&& d.dom() == surfaces(s)
    &&& forall|u: Seq<char>| #[trigger]
        d.contains_key(u) ==> concat(d[u]) == u && exists|x: int| 0 <= x < s.len() && s[x].0 == d[u]
}

/// The surface strings of the words of a corpus model.
pub open spec fn surfaces(s: Seq<(Seq<Seq<char>>, nat)>) -> Set<Seq<char>> {
    Set::new(|u: Seq<char>| exists|x: int| 0 <= x < s.len() && concat((#[trigger] s[x]).0) == u)
}

/// The words of a list of word units, one symbol per character, each counted once.
pub open spec fn initial_entries(units: Seq<Seq<char>>) -> Seq<(Seq<Seq<char>>, nat)> {
    units.map_values(|u: Seq<char>| (chars_of(u), 1nat))
}

/// A dictionary entry as stored: a surface string and its symbols.
pub open spec fn dict_entries(v: Seq<(String, Vec<String>)>) -> Seq<(Seq<char>, Seq<Seq<char>>)> {
    v.map_values(|e: (String, Vec<String>)| (e.0@, strs(e.1@)))
}

/// Tokens of a list of word units looked up in a dictionary, or `None`
/// where a unit has no entry.
pub open spec fn looked_up(d: Map<Seq<char>, Seq<Seq<char>>>, units: Seq<Seq<char>>) -> Option<
    Seq<Seq<char>>,
>
    decreases units.len(),
{
    if units.len() == 0 {
        Some(Seq::empty())
    } else {
        match looked_up(d, units.drop_last()) {
            Some(x) => if d.contains_key(units.last()) {
                Some(x + d[units.last()])
            } else {
                None
            },
            None => None,
        }
    }
}

/// The tokens of a text under a dictionary, between the two markers.
pub open spec fn tokenized(d: Map<Seq<char>, Seq<Seq<char>>>, t: Seq<char>) -> Option<
    Seq<Seq<char>>,
> {
    match looked_up(d, pre_tokenized(t)) {
        Some(x) => Some(seq![start_marker()] + x + seq![end_marker()]),
        None => None,
    }
}

} // verus!
