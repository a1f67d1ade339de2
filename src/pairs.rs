//! Lists of name/value pairs and the maps they stand for.

use vstd::prelude::*;
use crate::text::ascii_lower;

verus! {

/// Header pairs as character sequences.
pub type Pairs = Seq<(Seq<char>, Seq<char>)>;

pub open spec fn pair_views(s: Seq<(String, String)>) -> Pairs {
    s.map_values(|p: (String, String)| (p.0@, p.1@))
}

/// Header pairs as character sequences, with each name in lower case.
pub open spec fn lowered_pairs(s: Seq<(String, String)>) -> Pairs {
    s.map_values(|p: (String, String)| (ascii_lower(p.0@), p.1@))
}

/// The map the pairs of `s` give when each one, in order, sets its name
/// to its value: a later pair for a name replaces an earlier one.
pub open spec fn pairs_map(s: Pairs) -> Map<Seq<char>, Seq<char>>
    decreases s.len(),
{
    if s.len() == 0 {
        Map::empty()
    } else {
        pairs_map(s.drop_last()).insert(s.last().0, s.last().1)
    }
}

pub open spec fn names_unique(s: Pairs) -> bool {
    forall|i: int, j: int| 0 <= i < j < s.len() ==> #[trigger] s[i].0 != #[trigger] s[j].0
}

pub open spec fn is_lower(k: Seq<char>) -> bool {
    ascii_lower(k) == k
}

/// What the header table of a list of name/value pairs holds.
pub open spec fn entries_map(data: Seq<(String, String)>) -> Map<Seq<char>, Seq<char>> {
    pairs_map(lowered_pairs(data))
}

pub proof fn lemma_pairs_map_push(s: Pairs, x: (Seq<char>, Seq<char>))
    ensures
        pairs_map(s.push(x)) == pairs_map(s).insert(x.0, x.1),
{
    assert(s.push(x).drop_last() =~= s);
}

pub proof fn lemma_pairs_map_names(s: Pairs)
    ensures
        forall|k: Seq<char>|
            #[trigger] pairs_map(s).contains_key(k) <==> exists|i: int| 0 <= i < s.len() && s[i].0 == k,
    decreases s.len(),
{
    if s.len() > 0 {
        lemma_pairs_map_names(s.drop_last());
        assert forall|k: Seq<char>|
            #[trigger] pairs_map(s).contains_key(k) <==> exists|i: int| 0 <= i < s.len() && s[i].0 == k by {
            let t = s.drop_last();
            if pairs_map(s).contains_key(k) && k != s.last().0 {
                assert(pairs_map(t).contains_key(k));
                let i = choose|i: int| 0 <= i < t.len() && t[i].0 == k;
                assert(s[i] == t[i]);
            }
            if k == s.last().0 {
                assert(s[s.len() - 1].0 == k);
            }
            if exists|i: int| 0 <= i < s.len() && s[i].0 == k {
                let i = choose|i: int| 0 <= i < s.len() && s[i].0 == k;
                if i < s.len() - 1 {
                    assert(t[i].0 == k);
                    assert(pairs_map(t).contains_key(k));
                }
            }
        }
    }
}

/// The last pair for a name decides its value.
pub proof fn lemma_pairs_map_last_value(s: Pairs, i: int)
    requires
        0 <= i < s.len(),
        forall|j: int| i < j < s.len() ==> #[trigger] s[j].0 != s[i].0,
    ensures
        pairs_map(s).contains_key(s[i].0),
        pairs_map(s)[s[i].0] == s[i].1,
    decreases s.len(),
{
    if i < s.len() - 1 {
        let t = s.drop_last();
        assert forall|j: int| i < j < t.len() implies #[trigger] t[j].0 != t[i].0 by {
            assert(s[j].0 != s[i].0);
        }
        lemma_pairs_map_last_value(t, i);
        assert(s[s.len() - 1].0 != s[i].0);
    }
}

pub proof fn lemma_pairs_map_value(s: Pairs, i: int)
    requires
        names_unique(s),
        0 <= i < s.len(),
    ensures
        pairs_map(s).contains_key(s[i].0),
        pairs_map(s)[s[i].0] == s[i].1,
{
    assert forall|j: int| i < j < s.len() implies #[trigger] s[j].0 != s[i].0 by {
        assert(s[i].0 != s[j].0);
    }
    lemma_pairs_map_last_value(s, i);
}

/// Replacing the value of a name present in a list of unique names sets
/// that name in the map.
pub proof fn lemma_pairs_map_update(s: Pairs, j: int, v: Seq<char>)
    requires
        names_unique(s),
        0 <= j < s.len(),
    ensures
        names_unique(s.update(j, (s[j].0, v))),
        pairs_map(s.update(j, (s[j].0, v))) == pairs_map(s).insert(s[j].0, v),
{
    let t = s.update(j, (s[j].0, v));
    assert(names_unique(t)) by {
        assert forall|a: int, b: int| 0 <= a < b < t.len() implies #[trigger] t[a].0 != #[trigger] t[b].0 by {
            assert(s[a].0 != s[b].0);
        }
    }
    lemma_pairs_map_names(s);
    lemma_pairs_map_names(t);
    assert forall|k: Seq<char>| #[trigger] pairs_map(t).contains_key(k) <==> pairs_map(s).insert(s[j].0, v).contains_key(k) by {
        if exists|i: int| 0 <= i < s.len() && s[i].0 == k {
            let i = choose|i: int| 0 <= i < s.len() && s[i].0 == k;
            assert(t[i].0 == k);
        }
        if exists|i: int| 0 <= i < t.len() && t[i].0 == k {
            let i = choose|i: int| 0 <= i < t.len() && t[i].0 == k;
            assert(s[i].0 == k);
        }
    }
    assert forall|k: Seq<char>| #[trigger] pairs_map(t).contains_key(k) implies pairs_map(t)[k] == pairs_map(s).insert(s[j].0, v)[k] by {
        let i = choose|i: int| 0 <= i < t.len() && t[i].0 == k;
        lemma_pairs_map_value(t, i);
        if i != j {
            lemma_pairs_map_value(s, i);
        }
    }
    assert(pairs_map(t) =~= pairs_map(s).insert(s[j].0, v));
}

/// Every value in the map of a list of pairs is that of one of its pairs.
pub proof fn lemma_pairs_map_value_source(s: Pairs, k: Seq<char>)
    requires
        pairs_map(s).contains_key(k),
    ensures
        exists|j: int| 0 <= j < s.len() && s[j].0 == k && s[j].1 == pairs_map(s)[k],
    decreases s.len(),
{
    let t = s.drop_last();
    if k == s.last().0 {
        assert(s[s.len() - 1].0 == k);
    } else {
        lemma_pairs_map_value_source(t, k);
        let j = choose|j: int| 0 <= j < t.len() && t[j].0 == k && t[j].1 == pairs_map(t)[k];
        assert(s[j] == t[j]);
    }
}

} // verus!
