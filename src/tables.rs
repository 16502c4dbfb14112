//! Lists of (key, value) entries with distinct keys, read as maps.
use vstd::prelude::*;
use crate::lemmas::{lemma_assoc_overwrite, lemma_mass_bump, lemma_tally_bump, lemma_tally_contains};
use crate::model::{add_count, assoc, dict_entries, entries, keys_unique, mass, strs, tally, total};
use crate::symbols::same_symbols;

verus! {

/// Adds `n` to the count of `key`, as a new entry where it has none.
pub(crate) fn add_entry(table: &mut Vec<(Vec<String>, usize)>, key: Vec<String>, n: usize)
    requires
        keys_unique(entries(old(table)@)),
        forall|j: int| 0 <= j < old(table)@.len() ==> old(table)@[j].1 + n <= usize::MAX,
    ensures
        keys_unique(entries(final(table)@)),
        tally(entries(final(table)@)) == add_count(
            tally(entries(old(table)@)),
            strs(key@),
            n as nat,
        ),
        mass(entries(final(table)@)) == mass(entries(old(table)@)) + n * (key@.len() + 1),
        total(entries(final(table)@)) == total(entries(old(table)@)) + n,
        old(table)@.len() <= final(table)@.len() <= old(table)@.len() + 1,
        forall|j: int|
            0 <= j < final(table)@.len() ==> {
                ||| (j < old(table)@.len() && #[trigger] final(table)@[j] == old(table)@[j])
                ||| (strs(final(table)@[j].0@) == strs(key@) && (final(table)@[j].1 == n || (j
                    < old(table)@.len() && final(table)@[j].1 == old(table)@[j].1 + n)))
            },
{
    let ghost s = entries(table@);
    let mut j: usize = 0;
    while j < table.len()
        invariant
            j <= table@.len(),
            table@ == old(table)@,
            s == entries(table@),
            keys_unique(s),
            forall|x: int| 0 <= x < table@.len() ==> table@[x].1 + n <= usize::MAX,
            forall|x: int| 0 <= x < j ==> s[x].0 != strs(key@),
        decreases table@.len() - j,
    {
        assert(s[j as int] == (strs(table@[j as int].0@), table@[j as int].1 as nat));
        if same_symbols(&table[j].0, &key) {
            let c = table[j].1;
            proof {
                assert(s[j as int] == (strs(key@), c as nat));
                lemma_tally_bump(s, j as int, n as nat);
                lemma_mass_bump(s, j as int, n as nat);
            }
            table[j] = (key, c + n);
            assert(entries(table@) =~= s.update(j as int, (s[j as int].0, s[j as int].1 + n as nat)));
            return;
        }
        j = j + 1;
    }
    proof {
        lemma_tally_contains(s, strs(key@));
    }
    table.push((key, n));
    assert(entries(table@) =~= s.push((strs(key@), n as nat)));
    assert(entries(table@).drop_last() =~= s);
    assert(keys_unique(entries(table@))) by {
        let e = entries(table@);
        assert forall|x: int, y: int| 0 <= x < y < e.len() implies e[x].0 != e[y].0 by {
            if y < s.len() {
                assert(e[x] == s[x] && e[y] == s[y]);
            } else {
                assert(e[x] == s[x]);
            }
        }
    }
}

/// Sets the value of `key`, as a new entry where it has none.
pub(crate) fn put_entry(dict: &mut Vec<(String, Vec<String>)>, key: String, val: Vec<String>)
    requires
        keys_unique(dict_entries(old(dict)@)),
    ensures
        keys_unique(dict_entries(final(dict)@)),
        assoc(dict_entries(final(dict)@)) == assoc(dict_entries(old(dict)@)).insert(key@, strs(val@)),
{
    let ghost s = dict_entries(dict@);
    let mut j: usize = 0;
    while j < dict.len()
        invariant
            j <= dict@.len(),
            dict@ == old(dict)@,
            s == dict_entries(dict@),
            keys_unique(s),
            forall|x: int| 0 <= x < j ==> s[x].0 != key@,
        decreases dict@.len() - j,
    {
        assert(s[j as int] == (dict@[j as int].0@, strs(dict@[j as int].1@)));
        if dict[j].0 == key {
            proof {
                lemma_assoc_overwrite(s, j as int, strs(val@));
            }
            dict[j] = (key, val);
            assert(dict_entries(dict@) =~= s.update(j as int, (s[j as int].0, strs(val@))));
            return;
        }
        j = j + 1;
    }
    dict.push((key, val));
    assert(dict_entries(dict@).drop_last() =~= s);
    assert(keys_unique(dict_entries(dict@))) by {
        let e = dict_entries(dict@);
        assert forall|x: int, y: int| 0 <= x < y < e.len() implies e[x].0 != e[y].0 by {
            assert(e[x] == s[x]);
            if y < s.len() {
                assert(e[y] == s[y]);
            }
        }
    }
}

} // verus!
