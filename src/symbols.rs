//! Executable operations on strings and words of symbols.
use vstd::prelude::*;
use vstd::string::{StrSliceExecFns, StringExecFns};
use crate::model::{chars_of, concat, end_marker, is_punctuation, merge_word, pair_lt, start_marker, str_lt, strs};

verus! {

pub(crate) fn is_punctuation_char(c: char) -> (r: bool)
    ensures
        r == is_punctuation(c),
{
    c == ' ' || c == '.' || c == ',' || c == '!' || c == '?' || c == '\n'
}

/// One string per character of `s`.
pub(crate) fn split_chars(s: &str) -> (r: Vec<String>)
    ensures
        strs(r@) == chars_of(s@),
{
    let n = s.unicode_len();
    let mut r: Vec<String> = Vec::new();
    let mut i: usize = 0;
    while i < n
        invariant
            i <= n,
            n == s@.len(),
            strs(r@) =~= chars_of(s@).take(i as int),
        decreases n - i,
    {
        let one = String::from_str(s.substring_char(i, i + 1));
        assert(one@ =~= seq![s@[i as int]]);
        let ghost old_r = r@;
        r.push(one);
        assert(strs(r@) =~= strs(old_r).push(one@));
        i = i + 1;
        assert(chars_of(s@).take(i as int) =~= chars_of(s@).take(i - 1).push(seq![s@[i - 1]]));
    }
    assert(chars_of(s@).take(n as int) =~= chars_of(s@));
    r
}

/// The symbols of `w` joined into one string.
pub(crate) fn join(w: &Vec<String>) -> (r: String)
    ensures
        r@ == concat(strs(w@)),
{
    let mut r = String::new();
    let mut i: usize = 0;
    while i < w.len()
        invariant
            i <= w@.len(),
            r@ == concat(strs(w@).take(i as int)),
        decreases w@.len() - i,
    {
        r.append(w[i].as_str());
        i = i + 1;
        assert(strs(w@).take(i as int).drop_last() =~= strs(w@).take(i as int - 1));
    }
    assert(strs(w@).take(i as int) =~= strs(w@));
    r
}

/// Whether two words hold the same symbols.
pub(crate) fn same_symbols(a: &Vec<String>, b: &Vec<String>) -> (r: bool)
    ensures
        r == (strs(a@) == strs(b@)),
{
    if a.len() != b.len() {
        assert(strs(a@).len() != strs(b@).len());
        return false;
    }
    let mut i: usize = 0;
    while i < a.len()
        invariant
            i <= a@.len(),
            a@.len() == b@.len(),
            forall|j: int| 0 <= j < i ==> a@[j]@ == b@[j]@,
        decreases a@.len() - i,
    {
        if a[i] != b[i] {
            assert(strs(a@)[i as int] != strs(b@)[i as int]);
            return false;
        }
        i = i + 1;
    }
    assert(strs(a@) =~= strs(b@));
    true
}

/// A copy of a word.
pub(crate) fn copy_word(w: &Vec<String>) -> (r: Vec<String>)
    ensures
        strs(r@) == strs(w@),
{
    let mut r: Vec<String> = Vec::new();
    let mut i: usize = 0;
    while i < w.len()
        invariant
            i <= w@.len(),
            strs(r@) =~= strs(w@).take(i as int),
        decreases w@.len() - i,
    {
        let ghost r0 = r@;
        r.push(w[i].clone());
        assert(strs(r@) =~= strs(r0).push(w@[i as int]@));
        i = i + 1;
    }
    assert(strs(w@).take(i as int) =~= strs(w@));
    r
}

/// Lexicographic comparison of two strings, by code point.
pub(crate) fn str_less(a: &str, b: &str) -> (r: bool)
    ensures
        r == str_lt(a@, b@),
{
    let na = a.unicode_len();
    let nb = b.unicode_len();
    let mut i: usize = 0;
    assert(a@.skip(0) =~= a@ && b@.skip(0) =~= b@);
    while i < na && i < nb
        invariant
            i <= na,
            i <= nb,
            na == a@.len(),
            nb == b@.len(),
            str_lt(a@, b@) == str_lt(a@.skip(i as int), b@.skip(i as int)),
        decreases na - i,
    {
        let ca = a.get_char(i);
        let cb = b.get_char(i);
        assert(a@.skip(i as int)[0] == ca && b@.skip(i as int)[0] == cb);
        if ca != cb {
            return (ca as u32) < (cb as u32);
        }
        assert(a@.skip(i as int).drop_first() =~= a@.skip(i + 1));
        assert(b@.skip(i as int).drop_first() =~= b@.skip(i + 1));
        i = i + 1;
    }
    na < nb
}

/// Lexicographic comparison of two pairs of symbols.
pub(crate) fn pair_less(p: &Vec<String>, q: &Vec<String>) -> (r: bool)
    requires
        p@.len() == 2,
        q@.len() == 2,
    ensures
        r == pair_lt(strs(p@), strs(q@)),
{
    str_less(p[0].as_str(), q[0].as_str()) || (p[0] == q[0] && str_less(
        p[1].as_str(),
        q[1].as_str(),
    ))
}

/// `w` with each non-overlapping occurrence of `(a, b)` replaced by `ab`.
pub(crate) fn merge_symbols(w: &Vec<String>, a: &String, b: &String, ab: &String) -> (r: Vec<String>)
    requires
        ab@ == a@ + b@,
    ensures
        strs(r@) == merge_word(strs(w@), a@, b@),
{
    let ghost ws = strs(w@);
    let mut out: Vec<String> = Vec::new();
    let mut i: usize = 0;
    assert(ws.skip(0) =~= ws);
    assert(strs(out@) + merge_word(ws, a@, b@) =~= merge_word(ws, a@, b@));
    while i < w.len()
        invariant
            i <= w@.len(),
            ws == strs(w@),
            ab@ == a@ + b@,
            strs(out@) + merge_word(ws.skip(i as int), a@, b@) == merge_word(ws, a@, b@),
        decreases w@.len() - i,
    {
        let ghost o0 = strs(out@);
        let ghost rest = ws.skip(i as int);
        if i + 1 < w.len() && w[i].eq(a) && w[i + 1].eq(b) {
            out.push(ab.clone());
            assert(ws[i as int] == w@[i as int]@ && ws[i + 1] == w@[i + 1]@);
            assert(rest[0] == ws[i as int] && rest[1] == ws[i + 1]);
            assert(rest.len() >= 2);
            assert(rest[0] == a@);
            assert(rest[1] == b@);
            assert(merge_word(rest, a@, b@) == seq![a@ + b@] + merge_word(rest.skip(2), a@, b@));
            assert(rest.skip(2) =~= ws.skip(i + 2));
            assert(strs(out@) =~= o0.push(ab@));
            let ghost m = merge_word(ws.skip(i + 2), a@, b@);
            assert(merge_word(rest, a@, b@) == seq![ab@] + m);
            assert(o0 + (seq![ab@] + m) =~= o0.push(ab@) + m);
            assert(strs(out@) + m == merge_word(ws, a@, b@));
            i = i + 2;
        } else {
            out.push(w[i].clone());
            assert(strs(out@) =~= o0.push(ws[i as int]));
            if i + 1 < w.len() {
                assert(rest.skip(1) =~= ws.skip(i + 1));
                assert(o0 + merge_word(rest, a@, b@) =~= strs(out@) + merge_word(ws.skip(i + 1), a@, b@));
            } else {
                assert(rest =~= seq![ws[i as int]]);
                assert(ws.skip(i + 1) =~= Seq::<Seq<char>>::empty());
                assert(o0 + merge_word(rest, a@, b@) =~= strs(out@) + merge_word(ws.skip(i + 1), a@, b@));
            }
            i = i + 1;
        }
    }
    assert(ws.skip(i as int) =~= Seq::<Seq<char>>::empty());
    assert(strs(out@) + merge_word(ws.skip(i as int), a@, b@) =~= strs(out@));
    out
}

pub(crate) fn start_token() -> (r: String)
    ensures
        r@ == start_marker(),
{
    proof {
        reveal_strlit("<|startoftext|>");
    }
    let r = String::from_str("<|startoftext|>");
    assert(r@ =~= start_marker());
    r
}

pub(crate) fn end_token() -> (r: String)
    ensures
        r@ == end_marker(),
{
    proof {
        reveal_strlit("<|endoftext|>");
    }
    let r = String::from_str("<|endoftext|>");
    assert(r@ =~= end_marker());
    r
}

pub(crate) fn contains_char(v: &Vec<char>, c: char) -> (r: bool)
    ensures
        r == v@.contains(c),
{
    let mut i: usize = 0;
    while i < v.len()
        invariant
            i <= v@.len(),
            forall|j: int| 0 <= j < i ==> v@[j] != c,
        decreases v@.len() - i,
    {
        if v[i] == c {
            return true;
        }
        i = i + 1;
    }
    false
}

} // verus!
