//! Canonical order of map keys: shorter byte strings first, byte strings of
//! equal length by the first byte at which they differ.

use vstd::prelude::*;
use crate::cbor::entry_views;

verus! {

pub open spec fn lex_below(a: Seq<u8>, b: Seq<u8>) -> bool {
    exists|i: int|
        0 <= i < a.len() && i < b.len() && a[i] < b[i] && #[trigger] a.subrange(0, i) == b.subrange(
            0,
            i,
        )
}

/// `a` sorts strictly before `b` as a canonical map key.
pub open spec fn key_below(a: Seq<u8>, b: Seq<u8>) -> bool {
    a.len() < b.len() || (a.len() == b.len() && lex_below(a, b))
}

/// The keys of `es` strictly increase, so no key occurs twice.
pub open spec fn keys_ascending(es: Seq<(Seq<u8>, Seq<u8>)>) -> bool {
    forall|i: int, j: int| 0 <= i < j < es.len() ==> key_below(#[trigger] es[i].0, #[trigger] es[j].0)
}

/// `es` holds exactly the entries of `m`.
pub open spec fn lists(es: Seq<(Seq<u8>, Seq<u8>)>, m: Map<Seq<u8>, Seq<u8>>) -> bool {
    &&& forall|i: int| 0 <= i < es.len() ==> m.contains_key(#[trigger] es[i].0) && m[es[i].0] == es[i].1
    &&& forall|k: Seq<u8>| #[trigger] m.contains_key(k) ==> exists|i: int| 0 <= i < es.len() && es[i].0 == k
}

/// The entries of `m` in canonical key order.
pub open spec fn canonical_entries(m: Map<Seq<u8>, Seq<u8>>) -> Seq<(Seq<u8>, Seq<u8>)> {
    choose|es: Seq<(Seq<u8>, Seq<u8>)>| keys_ascending(es) && lists(es, m)
}

pub proof fn lemma_key_below_asymmetric(a: Seq<u8>, b: Seq<u8>)
    ensures
        !(key_below(a, b) && key_below(b, a)),
{
    if key_below(a, b) && key_below(b, a) {
        let i = choose|i: int|
            0 <= i < a.len() && i < b.len() && a[i] < b[i] && #[trigger] a.subrange(0, i)
                == b.subrange(0, i);
        let j = choose|j: int|
            0 <= j < b.len() && j < a.len() && b[j] < a[j] && #[trigger] b.subrange(0, j)
                == a.subrange(0, j);
        if i < j {
            assert(a.subrange(0, j)[i] == b.subrange(0, j)[i]);
        } else if j < i {
            assert(a.subrange(0, i)[j] == b.subrange(0, i)[j]);
        }
    }
}

pub proof fn lemma_key_below_transitive(a: Seq<u8>, b: Seq<u8>, c: Seq<u8>)
    requires
        key_below(a, b),
        key_below(b, c),
    ensures
        key_below(a, c),
{
    if a.len() == b.len() && b.len() == c.len() {
        let i = choose|i: int|
            0 <= i < a.len() && i < b.len() && a[i] < b[i] && #[trigger] a.subrange(0, i)
                == b.subrange(0, i);
        let j = choose|j: int|
            0 <= j < b.len() && j < c.len() && b[j] < c[j] && #[trigger] b.subrange(0, j)
                == c.subrange(0, j);
        if i < j {
            assert(b.subrange(0, j)[i] == c.subrange(0, j)[i]);
            assert(b.subrange(0, i) =~= c.subrange(0, i)) by {
                assert forall|t: int| 0 <= t < i implies b.subrange(0, i)[t] == c.subrange(0, i)[t] by {
                    assert(b.subrange(0, j)[t] == c.subrange(0, j)[t]);
                }
            }
            assert(a.subrange(0, i) == c.subrange(0, i));
        } else if j < i {
            assert(a.subrange(0, i)[j] == b.subrange(0, i)[j]);
            assert(a.subrange(0, j) =~= b.subrange(0, j)) by {
                assert forall|t: int| 0 <= t < j implies a.subrange(0, j)[t] == b.subrange(0, j)[t] by {
                    assert(a.subrange(0, i)[t] == b.subrange(0, i)[t]);
                }
            }
            assert(a.subrange(0, j) == c.subrange(0, j));
        } else {
            assert(a.subrange(0, i) == c.subrange(0, i));
        }
    }
}

/// Two listings of one map, each in canonical key order, are the same
/// sequence.
pub proof fn lemma_canonical_listing_unique(
    a: Seq<(Seq<u8>, Seq<u8>)>,
    b: Seq<(Seq<u8>, Seq<u8>)>,
    m: Map<Seq<u8>, Seq<u8>>,
)
    requires
        keys_ascending(a),
        keys_ascending(b),
        lists(a, m),
        lists(b, m),
    ensures
        a == b,
    decreases a.len(),
{
    if a.len() == 0 {
        if b.len() > 0 {
            assert(m.contains_key(b[0].0));
        }
        assert(a =~= b);
    } else {
        let k = a[0].0;
        assert(m.contains_key(k));
        let j = choose|j: int| 0 <= j < b.len() && b[j].0 == k;
        assert(m.contains_key(b[0].0));
        let i = choose|i: int| 0 <= i < a.len() && a[i].0 == b[0].0;
        if j > 0 {
            assert(key_below(b[0].0, b[j].0));
            if i > 0 {
                assert(key_below(a[0].0, a[i].0));
                lemma_key_below_asymmetric(k, b[0].0);
            } else {
                lemma_key_below_asymmetric(k, k);
            }
        }
        assert(b[0].0 == k);
        let m2 = m.remove(k);
        let a2 = a.drop_first();
        let b2 = b.drop_first();
        assert forall|t: int| 0 <= t < a2.len() implies m2.contains_key(#[trigger] a2[t].0) && m2[a2[t].0] == a2[t].1 by {
            assert(key_below(a[0].0, a[t + 1].0));
            lemma_key_below_asymmetric(k, k);
        }
        assert forall|t: int| 0 <= t < b2.len() implies m2.contains_key(#[trigger] b2[t].0) && m2[b2[t].0] == b2[t].1 by {
            assert(key_below(b[0].0, b[t + 1].0));
            lemma_key_below_asymmetric(k, k);
        }
        assert forall|k2: Seq<u8>| #[trigger] m2.contains_key(k2) implies exists|t: int| 0 <= t < a2.len() && a2[t].0 == k2 by {
            assert(m.contains_key(k2));
            let t = choose|t: int| 0 <= t < a.len() && a[t].0 == k2;
            assert(a2[t - 1].0 == k2);
        }
        assert forall|k2: Seq<u8>| #[trigger] m2.contains_key(k2) implies exists|t: int| 0 <= t < b2.len() && b2[t].0 == k2 by {
            assert(m.contains_key(k2));
            let t = choose|t: int| 0 <= t < b.len() && b[t].0 == k2;
            assert(b2[t - 1].0 == k2);
        }
        assert(keys_ascending(a2)) by {
            assert forall|x: int, y: int| 0 <= x < y < a2.len() implies key_below(#[trigger] a2[x].0, #[trigger] a2[y].0) by {
                assert(key_below(a[x + 1].0, a[y + 1].0));
            }
        }
        assert(keys_ascending(b2)) by {
            assert forall|x: int, y: int| 0 <= x < y < b2.len() implies key_below(#[trigger] b2[x].0, #[trigger] b2[y].0) by {
                assert(key_below(b[x + 1].0, b[y + 1].0));
            }
        }
        lemma_canonical_listing_unique(a2, b2, m2);
        assert(a[0] == b[0]);
        assert(a =~= b) by {
            assert forall|t: int| 0 <= t < a.len() implies a[t] == b[t] by {
                if t > 0 {
                    assert(a2[t - 1] == b2[t - 1]);
                }
            }
        }
    }
}

/// Whether `a` sorts strictly before `b` as a canonical map key.
pub fn key_less(a: &Vec<u8>, b: &Vec<u8>) -> (r: bool)
    ensures
        r == key_below(a@, b@),
        !r ==> a@ == b@ || key_below(b@, a@),
{
    if a.len() != b.len() {
        return a.len() < b.len();
    }
    let n: usize = a.len();
    let mut i: usize = 0;
    while i < n
        invariant
            n == a@.len(),
            n == b@.len(),
            i <= n,
            a@.subrange(0, i as int) == b@.subrange(0, i as int),
        decreases n - i,
    {
        if a[i] != b[i] {
            assert(a@.subrange(0, i as int) == b@.subrange(0, i as int));
            if a[i] < b[i] {
                assert(lex_below(a@, b@));
                return true;
            } else {
                assert(b@.subrange(0, i as int) == a@.subrange(0, i as int));
                assert(lex_below(b@, a@));
                proof {
                    lemma_key_below_asymmetric(a@, b@);
                }
                return false;
            }
        }
        assert(a@.subrange(0, i + 1) == a@.subrange(0, i as int).push(a@[i as int]));
        assert(b@.subrange(0, i + 1) == b@.subrange(0, i as int).push(b@[i as int]));
        i = i + 1;
    }
    assert(a@ == a@.subrange(0, n as int));
    assert(b@ == b@.subrange(0, n as int));
    proof {
        lemma_key_below_asymmetric(a@, a@);
    }
    false
}

/// Keys of `es` are pairwise distinct.
pub open spec fn keys_distinct(es: Seq<(Seq<u8>, Seq<u8>)>) -> bool {
    forall|i: int, j: int| 0 <= i < j < es.len() ==> #[trigger] es[i].0 != #[trigger] es[j].0
}

/// A listing of a map stays one when its entries are rearranged.
pub proof fn lemma_lists_same_entries(
    a: Seq<(Seq<u8>, Seq<u8>)>,
    b: Seq<(Seq<u8>, Seq<u8>)>,
    m: Map<Seq<u8>, Seq<u8>>,
)
    requires
        lists(a, m),
        forall|x: (Seq<u8>, Seq<u8>)| #[trigger] a.contains(x) <==> b.contains(x),
    ensures
        lists(b, m),
{
    assert forall|i: int| 0 <= i < b.len() implies m.contains_key(#[trigger] b[i].0) && m[b[i].0] == b[i].1 by {
        assert(b.contains(b[i]));
        assert(a.contains(b[i]));
    }
    assert forall|k: Seq<u8>| #[trigger] m.contains_key(k) implies exists|i: int| 0 <= i < b.len() && b[i].0 == k by {
        let i = choose|i: int| 0 <= i < a.len() && a[i].0 == k;
        assert(a.contains(a[i]));
        assert(b.contains(a[i]));
    }
}

/// Rearranges `es` into canonical key order.
pub fn sort_entries(es: Vec<(Vec<u8>, Vec<u8>)>) -> (r: Vec<(Vec<u8>, Vec<u8>)>)
    requires
        keys_distinct(entry_views(es@)),
    ensures
        keys_ascending(entry_views(r@)),
        forall|x: (Seq<u8>, Seq<u8>)| #[trigger] entry_views(r@).contains(x) <==> entry_views(es@).contains(x),
{
    let ghost orig = entry_views(es@);
    let ghost n = orig.len();
    let mut rest = es;
    let mut out: Vec<(Vec<u8>, Vec<u8>)> = Vec::new();
    while rest.len() > 0
        invariant
            n == orig.len(),
            keys_distinct(orig),
            rest@.len() <= n,
            entry_views(rest@) == orig.subrange(0, rest@.len() as int),
            keys_ascending(entry_views(out@)),
            forall|q: int| 0 <= q < out@.len() ==> exists|j: int| rest@.len() <= j < n && orig[j] == #[trigger] entry_views(out@)[q],
            forall|j: int| rest@.len() <= j < n ==> entry_views(out@).contains(#[trigger] orig[j]),
        decreases rest@.len(),
    {
        let ghost t = rest@.len() - 1;
        assert(entry_views(rest@)[t] == orig[t]);
        let e = rest.pop().unwrap();
        assert(entry_views(rest@) =~= orig.subrange(0, t));
        let ghost ev = (e.0@, e.1@);
        let ghost ov = entry_views(out@);
        assert(ev == orig[t]);
        let mut p: usize = 0;
        while p < out.len() && key_less(&out[p].0, &e.0)
            invariant
                p <= out@.len(),
                ov == entry_views(out@),
                ev == (e.0@, e.1@),
                forall|q: int| 0 <= q < p ==> key_below(#[trigger] ov[q].0, ev.0),
            decreases out@.len() - p,
        {
            p = p + 1;
        }
        proof {
            if p < out@.len() {
                let j = choose|j: int| t + 1 <= j < n && orig[j] == #[trigger] ov[p as int];
                assert(orig[t].0 != orig[j].0);
                assert(key_below(ev.0, ov[p as int].0));
            }
        }
        out.insert(p, e);
        let ghost nv = entry_views(out@);
        assert(nv =~= ov.insert(p as int, ev));
        assert(keys_ascending(nv)) by {
            assert forall|x: int, y: int| 0 <= x < y < nv.len() implies key_below(#[trigger] nv[x].0, #[trigger] nv[y].0) by {
                if y < p {
                } else if y == p {
                } else if x < p {
                    assert(key_below(ov[x].0, ov[y - 1].0));
                } else if x == p {
                    if y - 1 > p {
                        assert(key_below(ov[p as int].0, ov[y - 1].0));
                        lemma_key_below_transitive(ev.0, ov[p as int].0, ov[y - 1].0);
                    }
                } else {
                    assert(key_below(ov[x - 1].0, ov[y - 1].0));
                }
            }
        }
        assert forall|q: int| 0 <= q < nv.len() implies exists|j: int| t <= j < n && orig[j] == #[trigger] nv[q] by {
            if q < p {
                let j = choose|j: int| t + 1 <= j < n && orig[j] == #[trigger] ov[q];
            } else if q > p {
                let j = choose|j: int| t + 1 <= j < n && orig[j] == #[trigger] ov[q - 1];
            } else {
                assert(orig[t] == nv[q]);
            }
        }
        assert forall|j: int| t <= j < n implies nv.contains(#[trigger] orig[j]) by {
            if j == t {
                assert(nv[p as int] == orig[j]);
            } else {
                assert(ov.contains(orig[j]));
                let q = choose|q: int| 0 <= q < ov.len() && ov[q] == orig[j];
                if q < p {
                    assert(nv[q] == orig[j]);
                } else {
                    assert(nv[q + 1] == orig[j]);
                }
            }
        }
    }
    let ghost rv = entry_views(out@);
    assert forall|x: (Seq<u8>, Seq<u8>)| #[trigger] rv.contains(x) <==> orig.contains(x) by {
        if rv.contains(x) {
            let q = choose|q: int| 0 <= q < rv.len() && rv[q] == x;
            let j = choose|j: int| 0 <= j < n && orig[j] == #[trigger] rv[q];
        }
        if orig.contains(x) {
            let j = choose|j: int| 0 <= j < n && orig[j] == x;
            assert(rv.contains(orig[j]));
        }
    }
    out
}

} // verus!
