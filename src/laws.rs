//! Properties that relate several operations of the tokenizer.
use vstd::prelude::*;
use crate::byte_pair_encoding::tokenize_outcome;
use crate::lemmas::{
    lemma_looked_up_none, lemma_merge_word_absent, lemma_pre_tokenized_shape,
    lemma_unit_pre_tokenized,
};
use crate::model::{
    concat, end_marker, looked_up, merged, pair_occurs_in, pre_tokenized, start_marker, strs,
    tally, tokenized,
};

verus! {

/// The word units of a text, joined in order, give back the text.
pub proof fn law_pre_tokenize_covers(t: Seq<char>)
    ensures
        concat(pre_tokenized(t)) == t,
{
    lemma_pre_tokenized_shape(t);
}

/// Merging by a pair that occurs in no word leaves the corpus model as it is.
pub proof fn law_merge_absent_pair(s: Seq<(Seq<Seq<char>>, nat)>, a: Seq<char>, b: Seq<char>)
    requires
        forall|x: int| 0 <= x < s.len() ==> !pair_occurs_in(#[trigger] s[x].0, a, b),
    ensures
        merged(s, a, b) == s,
        tally(merged(s, a, b)) == tally(s),
{
    assert forall|x: int| 0 <= x < s.len() implies #[trigger] merged(s, a, b)[x] == s[x] by {
        lemma_merge_word_absent(s[x].0, a, b);
    }
    assert(merged(s, a, b) =~= s);
}

/// Tokenizing one text twice under one dictionary gives the same outcome.
pub proof fn law_tokenize_deterministic(
    d: Map<Seq<char>, Seq<Seq<char>>>,
    t: Seq<char>,
    r1: Result<Vec<String>, std::io::Error>,
    r2: Result<Vec<String>, std::io::Error>,
)
    requires
        tokenize_outcome(d, t, r1),
        tokenize_outcome(d, t, r2),
    ensures
        r1 is Ok <==> r2 is Ok,
        r1 is Ok ==> strs(r1->Ok_0@) == strs(r2->Ok_0@),
{
}

/// Every word unit of the training corpus, tokenized on its own, gives its
/// dictionary entry between the two markers.
pub proof fn law_round_trip(d: Map<Seq<char>, Seq<Seq<char>>>, corpus: Seq<char>, u: Seq<char>)
    requires
        d.dom() == pre_tokenized(corpus).to_set(),
        pre_tokenized(corpus).contains(u),
    ensures
        tokenized(d, u) == Some(seq![start_marker()] + d[u] + seq![end_marker()]),
{
    lemma_pre_tokenized_shape(corpus);
    let j = choose|j: int| 0 <= j < pre_tokenized(corpus).len() && pre_tokenized(corpus)[j] == u;
    assert forall|i: int| 1 <= i < u.len() implies !crate::model::is_punctuation(#[trigger] u[i]) by {
        assert(u[i] == pre_tokenized(corpus)[j][i]);
    }
    lemma_unit_pre_tokenized(u);
    assert(pre_tokenized(corpus).to_set().contains(u));
    assert(seq![u].drop_last() =~= Seq::<Seq<char>>::empty());
    assert(looked_up(d, Seq::<Seq<char>>::empty()) == Some(Seq::<Seq<char>>::empty()));
    assert(seq![u].last() == u);
    assert(d.contains_key(u));
    assert(looked_up(d, seq![u]) == Some(Seq::<Seq<char>>::empty() + d[u]));
    assert(Seq::<Seq<char>>::empty() + d[u] =~= d[u]);
}

/// An empty dictionary tokenizes no text: every text has at least one word unit.
pub proof fn law_empty_dictionary_tokenizes_nothing(t: Seq<char>)
    ensures
        tokenized(Map::<Seq<char>, Seq<Seq<char>>>::empty(), t) is None,
{
    lemma_pre_tokenized_shape(t);
    lemma_looked_up_none(Map::<Seq<char>, Seq<Seq<char>>>::empty(), pre_tokenized(t), 0);
}

} // verus!
