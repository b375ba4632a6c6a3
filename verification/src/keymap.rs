//! Key-addressed association sequences at the model level: the shared
//! machinery behind merged language maps, `@context` term maps and the
//! schema's name-keyed tables.

use vstd::prelude::*;

verus! {

/// Position of the first entry with key `k`, if any.
pub open spec fn vkey_index<V>(s: Seq<(Seq<char>, V)>, k: Seq<char>) -> Option<int>
    decreases s.len(),
{
    if s.len() == 0 {
        None
    } else if s[0].0 == k {
        Some(0int)
    } else {
        match vkey_index(s.drop_first(), k) {
            Some(i) => Some(i + 1),
            None => None,
        }
    }
}

/// The map with `v` written under `k`: replaced in place or appended.
pub open spec fn vupserted<V>(s: Seq<(Seq<char>, V)>, k: Seq<char>, v: V) -> Seq<(Seq<char>, V)> {
    match vkey_index(s, k) {
        Some(i) => s.update(i, (k, v)),
        None => s.push((k, v)),
    }
}

/// The map extended entry by entry, later writes winning.
pub open spec fn vextended<V>(a: Seq<(Seq<char>, V)>, b: Seq<(Seq<char>, V)>) -> Seq<
    (Seq<char>, V),
>
    decreases b.len(),
{
    if b.len() == 0 {
        a
    } else {
        vupserted(vextended(a, b.drop_last()), b.last().0, b.last().1)
    }
}

/// Keys of a map are pairwise distinct.
pub open spec fn vkeys_unique<V>(s: Seq<(Seq<char>, V)>) -> bool {
    forall|i: int, j: int| 0 <= i < j < s.len() ==> (#[trigger] s[i]).0 != (#[trigger] s[j]).0
}

/// `vkey_index` is within bounds and finds its key.
pub proof fn lemma_vkey_index<V>(s: Seq<(Seq<char>, V)>, k: Seq<char>)
    ensures
        match vkey_index(s, k) {
            Some(i) => 0 <= i < s.len() && s[i].0 == k,
            None => forall|j: int| 0 <= j < s.len() ==> (#[trigger] s[j]).0 != k,
        },
    decreases s.len(),
{
    if s.len() > 0 && s[0].0 != k {
        lemma_vkey_index(s.drop_first(), k);
        match vkey_index(s.drop_first(), k) {
            Some(i) => {
                assert(s.drop_first()[i] == s[i + 1]);
            },
            None => {
                assert forall|j: int| 0 <= j < s.len() implies (#[trigger] s[j]).0 != k by {
                    if j > 0 {
                        assert(s.drop_first()[j - 1] == s[j]);
                    }
                }
            },
        }
    }
}

/// The first matching entry is the one `vkey_index` names.
pub proof fn lemma_vkey_index_first<V>(s: Seq<(Seq<char>, V)>, k: Seq<char>, f: int)
    requires
        0 <= f < s.len(),
        s[f].0 == k,
        forall|j: int| 0 <= j < f ==> (#[trigger] s[j]).0 != k,
    ensures
        vkey_index(s, k) == Some(f),
    decreases f,
{
    if f > 0 {
        assert(s[0].0 != k);
        assert(s.drop_first()[f - 1] == s[f]);
        assert forall|j: int| 0 <= j < f - 1 implies (#[trigger] s.drop_first()[j]).0 != k by {
            assert(s.drop_first()[j] == s[j + 1]);
        }
        lemma_vkey_index_first(s.drop_first(), k, f - 1);
    }
}

/// Writing fresh, pairwise-distinct keys into a map appends them in order.
pub proof fn lemma_vextended_fresh<V>(a: Seq<(Seq<char>, V)>, b: Seq<(Seq<char>, V)>)
    requires
        vkeys_unique(b),
        forall|i: int| 0 <= i < b.len() ==> vkey_index(a, (#[trigger] b[i]).0) is None,
    ensures
        vextended(a, b) == a + b,
    decreases b.len(),
{
    if b.len() == 0 {
        assert(vextended(a, b) =~= a + b);
    } else {
        let b0 = b.drop_last();
        assert(vkeys_unique(b0));
        assert forall|i: int| 0 <= i < b0.len() implies vkey_index(
            a,
            (#[trigger] b0[i]).0,
        ) is None by {
            assert(b0[i] == b[i]);
        }
        lemma_vextended_fresh(a, b0);
        let last = b.last();
        lemma_vkey_index(a, last.0);
        assert forall|j: int| 0 <= j < (a + b0).len() implies ((a + b0)[j]).0 != last.0 by {
            if j < a.len() {
                assert((a + b0)[j] == a[j]);
                lemma_vkey_index(a, last.0);
                assert(vkey_index(a, b[b.len() - 1].0) is None);
            } else {
                assert((a + b0)[j] == b[j - a.len()]);
            }
        }
        assert(vkey_index(a + b0, last.0) is None) by {
            lemma_vkey_index(a + b0, last.0);
        }
        assert(vextended(a, b) == (a + b0).push(last));
        assert((a + b0).push(last) =~= a + b);
    }
}

} // verus!

verus! {

/// The fold may also consume its entries from the front.
pub proof fn lemma_vextended_shift<V>(a: Seq<(Seq<char>, V)>, b: Seq<(Seq<char>, V)>)
    requires
        b.len() > 0,
    ensures
        vextended(a, b) == vextended(vupserted(a, b[0].0, b[0].1), b.drop_first()),
    decreases b.len(),
{
    let a2 = vupserted(a, b[0].0, b[0].1);
    if b.len() == 1 {
        assert(b.drop_last() =~= Seq::<(Seq<char>, V)>::empty());
        assert(b.drop_first() =~= Seq::<(Seq<char>, V)>::empty());
        assert(b.last() == b[0]);
        assert(vextended(a, b.drop_last()) == a);
        assert(vextended(a, b) == vupserted(a, b[0].0, b[0].1));
        assert(vextended(a2, b.drop_first()) == a2);
    } else {
        let b0 = b.drop_last();
        lemma_vextended_shift(a, b0);
        assert(b0[0] == b[0]);
        assert(b.drop_first().drop_last() =~= b0.drop_first());
        assert(b.drop_first().last() == b.last());
        assert(vextended(a, b) == vupserted(vextended(a, b0), b.last().0, b.last().1));
        assert(vextended(a, b0) == vextended(a2, b0.drop_first()));
        assert(vextended(a2, b.drop_first()) == vupserted(
            vextended(a2, b.drop_first().drop_last()),
            b.drop_first().last().0,
            b.drop_first().last().1,
        ));
        assert(vextended(a2, b.drop_first().drop_last()) == vextended(a2, b0.drop_first()));
    }
}

} // verus!

verus! {

/// Writing into a map with unique keys keeps its keys unique.
pub proof fn lemma_vupserted_unique<V>(s: Seq<(Seq<char>, V)>, k: Seq<char>, v: V)
    requires
        vkeys_unique(s),
    ensures
        vkeys_unique(vupserted(s, k, v)),
{
    lemma_vkey_index(s, k);
    match vkey_index(s, k) {
        Some(i) => {
            let t = s.update(i, (k, v));
            assert forall|a: int, b: int| 0 <= a < b < t.len() implies (#[trigger] t[a]).0 != (
            #[trigger] t[b]).0 by {
                assert(t[a].0 == if a == i {
                    k
                } else {
                    s[a].0
                });
                assert(t[b].0 == if b == i {
                    k
                } else {
                    s[b].0
                });
                assert(s[i].0 == k);
            }
        },
        None => {
            let t = s.push((k, v));
            assert forall|a: int, b: int| 0 <= a < b < t.len() implies (#[trigger] t[a]).0 != (
            #[trigger] t[b]).0 by {
                if b < s.len() {
                    assert(t[a] == s[a] && t[b] == s[b]);
                } else {
                    assert(t[a] == s[a] && t[b].0 == k);
                }
            }
        },
    }
}

} // verus!
