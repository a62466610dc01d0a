//! Association sequences of string-named entries, and their meaning as
//! mathematical maps keyed by the names' character sequences.

use vstd::prelude::*;

verus! {

/// The character sequences of a sequence of strings.
pub open spec fn name_seq(s: Seq<String>) -> Seq<Seq<char>> {
    s.map_values(|x: String| x@)
}

/// The set of character sequences of a sequence of strings.
pub open spec fn name_set(s: Seq<String>) -> Set<Seq<char>> {
    name_seq(s).to_set()
}

/// The map that an association sequence denotes: later entries win.
pub open spec fn assoc_map<V>(s: Seq<(Seq<char>, V)>) -> Map<Seq<char>, V>
    decreases s.len(),
{
    if s.len() == 0 {
        Map::empty()
    } else {
        assoc_map(s.drop_last()).insert(s.last().0, s.last().1)
    }
}

/// The keys of an association sequence, in entry order.
pub open spec fn key_seq<V>(s: Seq<(Seq<char>, V)>) -> Seq<Seq<char>> {
    s.map_values(|p: (Seq<char>, V)| p.0)
}

/// The domain of the denoted map is exactly the set of keys, and is finite.
pub proof fn lemma_assoc_map_dom<V>(s: Seq<(Seq<char>, V)>)
    ensures
        forall|k: Seq<char>| assoc_map(s).dom().contains(k) <==> key_seq(s).contains(k),
        assoc_map(s).dom().finite(),
    decreases s.len(),
{
    if s.len() == 0 {
    } else {
        lemma_assoc_map_dom(s.drop_last());
        assert forall|k: Seq<char>| assoc_map(s).dom().contains(k) implies key_seq(s).contains(
            k,
        ) by {
            if k == s.last().0 {
                assert(key_seq(s)[s.len() - 1] == k);
            } else {
                assert(assoc_map(s.drop_last()).dom().contains(k));
                assert(key_seq(s.drop_last()).contains(k));
                let i = choose|i: int|
                    0 <= i < key_seq(s.drop_last()).len() && key_seq(s.drop_last())[i] == k;
                assert(s.drop_last()[i].0 == k);
                assert(s[i] == s.drop_last()[i]);
                assert(key_seq(s)[i] == k);
            }
        }
        assert forall|k: Seq<char>| key_seq(s).contains(k) implies assoc_map(s).dom().contains(
            k,
        ) by {
            let i = choose|i: int| 0 <= i < key_seq(s).len() && key_seq(s)[i] == k;
            assert(s[i].0 == k);
            if i < s.len() - 1 {
                assert(s.drop_last()[i] == s[i]);
                assert(key_seq(s.drop_last())[i] == k);
                assert(key_seq(s.drop_last()).contains(k));
            } else {
                assert(k == s.last().0);
            }
        }
    }
}

/// With distinct keys, each entry's value is the denoted map's value at its key.
pub proof fn lemma_assoc_map_at<V>(s: Seq<(Seq<char>, V)>, i: int)
    requires
        key_seq(s).no_duplicates(),
        0 <= i < s.len(),
    ensures
        assoc_map(s).dom().contains(s[i].0),
        assoc_map(s)[s[i].0] == s[i].1,
    decreases s.len(),
{
    assert(key_seq(s)[i] == s[i].0);
    if i == s.len() - 1 {
        lemma_assoc_map_dom(s);
    } else {
        assert(key_seq(s.drop_last()) =~= key_seq(s).drop_last());
        lemma_assoc_map_at(s.drop_last(), i);
        assert(key_seq(s)[s.len() - 1] != key_seq(s)[i]);
    }
}

/// Appending an entry denotes insertion into the map.
pub proof fn lemma_assoc_map_push<V>(s: Seq<(Seq<char>, V)>, p: (Seq<char>, V))
    ensures
        assoc_map(s.push(p)) == assoc_map(s).insert(p.0, p.1),
{
    assert(s.push(p).drop_last() =~= s);
    assert(s.push(p).last() == p);
}

/// With distinct keys, an association sequence has as many entries as the
/// denoted map has keys.
pub proof fn lemma_assoc_map_len<V>(s: Seq<(Seq<char>, V)>)
    requires
        key_seq(s).no_duplicates(),
    ensures
        assoc_map(s).dom().len() == s.len(),
{
    lemma_assoc_map_dom(s);
    key_seq(s).unique_seq_to_set();
    assert(assoc_map(s).dom() =~= key_seq(s).to_set());
}

/// Appending an element to a sequence inserts it into the element set.
pub proof fn lemma_to_set_push<A>(s: Seq<A>, x: A)
    ensures
        s.push(x).to_set() =~= s.to_set().insert(x),
{
    assert forall|y: A| s.push(x).contains(y) implies s.to_set().insert(x).contains(y) by {
        let i = choose|i: int| 0 <= i < s.push(x).len() && s.push(x)[i] == y;
        if i < s.len() {
            assert(s[i] == y);
        }
    }
    assert forall|y: A| s.to_set().insert(x).contains(y) implies s.push(x).contains(y) by {
        if y == x {
            assert(s.push(x)[s.len() as int] == y);
        } else {
            let i = choose|i: int| 0 <= i < s.len() && s[i] == y;
            assert(s.push(x)[i] == y);
        }
    }
}

/// Whether a vector of strings holds a string with the given characters.
pub fn contains_name(v: &Vec<String>, name: &String) -> (b: bool)
    ensures
        b == name_set(v@).contains(name@),
{
    let mut i: usize = 0;
    while i < v.len()
        invariant
            0 <= i <= v@.len(),
            forall|j: int| 0 <= j < i ==> name_seq(v@)[j] != name@,
        decreases v@.len() - i,
    {
        if v[i] == *name {
            assert(name_seq(v@)[i as int] == name@);
            return true;
        }
        i += 1;
    }
    assert(!name_seq(v@).contains(name@));
    false
}

} // verus!
