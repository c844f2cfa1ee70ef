//! Association lists: sequences of (key, value) pairs read as maps.
use vstd::prelude::*;

verus! {

/// The value of the first pair with key `k`.
pub open spec fn find<K, V>(s: Seq<(K, V)>, k: K) -> Option<V>
    decreases s.len(),
{
    if s.len() == 0 {
        None
    } else if s[0].0 == k {
        Some(s[0].1)
    } else {
        find(s.drop_first(), k)
    }
}

/// The value of the last pair with key `k`.
pub open spec fn find_last<K, V>(s: Seq<(K, V)>, k: K) -> Option<V>
    decreases s.len(),
{
    if s.len() == 0 {
        None
    } else if s.last().0 == k {
        Some(s.last().1)
    } else {
        find_last(s.drop_last(), k)
    }
}

/// The map that `find` reads out of the list.
pub open spec fn as_map<K, V>(s: Seq<(K, V)>) -> Map<K, V> {
    Map::new(|k: K| find(s, k) is Some, |k: K| find(s, k).unwrap())
}

pub proof fn lemma_find_append<K, V>(a: Seq<(K, V)>, b: Seq<(K, V)>, k: K)
    ensures
        find(a + b, k) == (match find(a, k) {
            Some(v) => Some(v),
            None => find(b, k),
        }),
    decreases a.len(),
{
    if a.len() == 0 {
        assert(a + b =~= b);
    } else {
        assert((a + b)[0] == a[0]);
        assert((a + b).drop_first() =~= a.drop_first() + b);
        lemma_find_append(a.drop_first(), b, k);
    }
}

pub proof fn lemma_find_absent<K, V>(s: Seq<(K, V)>, k: K)
    requires
        forall|j: int| 0 <= j < s.len() ==> s[j].0 != k,
    ensures
        find(s, k) is None,
    decreases s.len(),
{
    if s.len() > 0 {
        assert forall|j: int| 0 <= j < s.drop_first().len() implies s.drop_first()[j].0 != k by {
            assert(s.drop_first()[j] == s[j + 1]);
        }
        lemma_find_absent(s.drop_first(), k);
    }
}

pub proof fn lemma_find_single<K, V>(p: (K, V), k: K)
    ensures
        find(seq![p], k) == (if p.0 == k {
            Some(p.1)
        } else {
            None
        }),
{
    assert(seq![p][0] == p);
    assert(seq![p].drop_first() =~= Seq::<(K, V)>::empty());
    assert(find(Seq::<(K, V)>::empty(), k) is None);
}

pub proof fn lemma_find_push<K, V>(s: Seq<(K, V)>, p: (K, V), k: K)
    ensures
        find(s.push(p), k) == (match find(s, k) {
            Some(v) => Some(v),
            None => if p.0 == k {
                Some(p.1)
            } else {
                None
            },
        }),
{
    assert(s.push(p) =~= s + seq![p]);
    lemma_find_append(s, seq![p], k);
    lemma_find_single(p, k);
}

/// The first pair with key `k` stands at `i`.
pub open spec fn first_key_at<K, V>(s: Seq<(K, V)>, k: K, i: int) -> bool {
    &&& 0 <= i < s.len()
    &&& s[i].0 == k
    &&& forall|j: int| 0 <= j < i ==> s[j].0 != k
}

proof fn lemma_split_at<K, V>(s: Seq<(K, V)>, i: int)
    requires
        0 <= i < s.len(),
    ensures
        s =~= s.take(i) + seq![s[i]] + s.skip(i + 1),
{
}

pub proof fn lemma_find_at<K, V>(s: Seq<(K, V)>, k: K, i: int)
    requires
        first_key_at(s, k, i),
    ensures
        find(s, k) == Some(s[i].1),
{
    lemma_split_at(s, i);
    lemma_find_absent(s.take(i), k);
    lemma_find_append(s.take(i) + seq![s[i]], s.skip(i + 1), k);
    lemma_find_append(s.take(i), seq![s[i]], k);
    lemma_find_single(s[i], k);
}

/// Overwriting the value of the first pair with key `k` changes the map at `k` only.
pub proof fn lemma_find_update<K, V>(s: Seq<(K, V)>, k: K, i: int, v: V)
    requires
        first_key_at(s, k, i),
    ensures
        forall|k2: K|
            #[trigger] find(s.update(i, (k, v)), k2) == (if k2 == k {
                Some(v)
            } else {
                find(s, k2)
            }),
{
    let t = s.update(i, (k, v));
    lemma_split_at(s, i);
    lemma_split_at(t, i);
    assert(t.take(i) =~= s.take(i));
    assert(t.skip(i + 1) =~= s.skip(i + 1));
    assert forall|k2: K| #[trigger]
        find(t, k2) == (if k2 == k {
            Some(v)
        } else {
            find(s, k2)
        }) by {
        lemma_find_append(s.take(i) + seq![s[i]], s.skip(i + 1), k2);
        lemma_find_append(s.take(i), seq![s[i]], k2);
        lemma_find_single(s[i], k2);
        lemma_find_append(t.take(i) + seq![t[i]], t.skip(i + 1), k2);
        lemma_find_append(t.take(i), seq![t[i]], k2);
        lemma_find_single(t[i], k2);
        if k2 == k {
            lemma_find_absent(s.take(i), k);
        }
    }
}

pub proof fn lemma_find_last_take<K, V>(s: Seq<(K, V)>, k: K, i: int)
    requires
        0 <= i <= s.len(),
        forall|j: int| i <= j < s.len() ==> s[j].0 != k,
    ensures
        find_last(s, k) == find_last(s.take(i), k),
    decreases s.len() - i,
{
    if i < s.len() {
        assert(s.drop_last().take(i) =~= s.take(i));
        lemma_find_last_take(s.drop_last(), k, i);
    } else {
        assert(s.take(i) =~= s);
    }
}

/// No key occurs twice.
pub open spec fn keys_distinct<K, V>(s: Seq<(K, V)>) -> bool {
    forall|i: int, j: int| 0 <= i < j < s.len() ==> s[i].0 != s[j].0
}

/// The position of the first pair with key `k`.
pub open spec fn first_index<K, V>(s: Seq<(K, V)>, k: K) -> Option<int>
    decreases s.len(),
{
    if s.len() == 0 {
        None
    } else if s[0].0 == k {
        Some(0)
    } else {
        match first_index(s.drop_first(), k) {
            Some(i) => Some(i + 1),
            None => None,
        }
    }
}

/// The list with key `k` set to `v`: the first pair with key `k` gets the
/// value where it stands, or, where there is none, the pair is appended.
pub open spec fn with_key_set<K, V>(s: Seq<(K, V)>, k: K, v: V) -> Seq<(K, V)> {
    match first_index(s, k) {
        Some(i) => s.update(i, (k, v)),
        None => s.push((k, v)),
    }
}

/// The list without the pairs with key `k`, the others in their order.
pub open spec fn without_key<K, V>(s: Seq<(K, V)>, k: K) -> Seq<(K, V)>
    decreases s.len(),
{
    if s.len() == 0 {
        Seq::empty()
    } else if s.last().0 == k {
        without_key(s.drop_last(), k)
    } else {
        without_key(s.drop_last(), k).push(s.last())
    }
}

pub proof fn lemma_first_index_at<K, V>(s: Seq<(K, V)>, k: K, i: int)
    requires
        first_key_at(s, k, i),
    ensures
        first_index(s, k) == Some(i),
    decreases s.len(),
{
    if i > 0 {
        assert(first_key_at(s.drop_first(), k, i - 1));
        lemma_first_index_at(s.drop_first(), k, i - 1);
    }
}

pub proof fn lemma_first_index_absent<K, V>(s: Seq<(K, V)>, k: K)
    requires
        forall|j: int| 0 <= j < s.len() ==> s[j].0 != k,
    ensures
        first_index(s, k) is None,
    decreases s.len(),
{
    if s.len() > 0 {
        assert forall|j: int| 0 <= j < s.drop_first().len() implies s.drop_first()[j].0 != k by {
            assert(s.drop_first()[j] == s[j + 1]);
        }
        lemma_first_index_absent(s.drop_first(), k);
    }
}

proof fn lemma_without_key_from<K, V>(s: Seq<(K, V)>, k: K)
    ensures
        forall|m: int|
            0 <= m < without_key(s, k).len() ==> exists|i: int|
                0 <= i < s.len() && #[trigger] without_key(s, k)[m] == s[i] && s[i].0 != k,
    decreases s.len(),
{
    if s.len() > 0 {
        let d = s.drop_last();
        lemma_without_key_from(d, k);
        assert forall|m: int| 0 <= m < without_key(s, k).len() implies exists|i: int|
            0 <= i < s.len() && #[trigger] without_key(s, k)[m] == s[i] && s[i].0 != k by {
            if m < without_key(d, k).len() {
                let i = choose|i: int| 0 <= i < d.len() && without_key(d, k)[m] == d[i] && d[i].0 != k;
                assert(without_key(s, k)[m] == s[i]);
            } else {
                assert(without_key(s, k)[m] == s[s.len() - 1]);
            }
        }
    }
}

/// Leaving out the pairs of one key keeps the other keys distinct.
pub proof fn lemma_without_key_distinct<K, V>(s: Seq<(K, V)>, k: K)
    requires
        keys_distinct(s),
    ensures
        keys_distinct(without_key(s, k)),
    decreases s.len(),
{
    if s.len() > 0 {
        let d = s.drop_last();
        assert(keys_distinct(d));
        lemma_without_key_distinct(d, k);
        lemma_without_key_from(d, k);
        if s.last().0 != k {
            let w = without_key(d, k);
            assert forall|a: int, b: int| 0 <= a < b < w.push(s.last()).len() implies w.push(
                s.last(),
            )[a].0 != w.push(s.last())[b].0 by {
                if b == w.len() {
                    let i = choose|i: int| 0 <= i < d.len() && #[trigger] w[a] == d[i] && d[i].0 != k;
                    assert(s[i] == d[i]);
                    assert(i < s.len() - 1);
                }
            }
        }
    }
}

/// Setting a key keeps keys distinct.
pub proof fn lemma_with_key_set_distinct<K, V>(s: Seq<(K, V)>, k: K, v: V)
    requires
        keys_distinct(s),
    ensures
        keys_distinct(with_key_set(s, k, v)),
{
    match first_index(s, k) {
        Some(i) => {
            let t = s.update(i, (k, v));
            if 0 <= i < s.len() {
                assert(forall|j: int| 0 <= j < s.len() ==> t[j].0 == s[j].0 || j == i);
            }
            lemma_first_index_some(s, k);
        },
        None => {
            lemma_first_index_some(s, k);
        },
    }
}

/// `first_index` points at a pair with the key, and none earlier has it.
pub proof fn lemma_first_index_some<K, V>(s: Seq<(K, V)>, k: K)
    ensures
        match first_index(s, k) {
            Some(i) => first_key_at(s, k, i),
            None => forall|j: int| 0 <= j < s.len() ==> s[j].0 != k,
        },
    decreases s.len(),
{
    if s.len() > 0 && s[0].0 != k {
        lemma_first_index_some(s.drop_first(), k);
        match first_index(s.drop_first(), k) {
            Some(i) => {
                assert(s[i + 1] == s.drop_first()[i]);
                assert forall|j: int| 0 <= j < i + 1 implies s[j].0 != k by {
                    if j > 0 {
                        assert(s[j] == s.drop_first()[j - 1]);
                    }
                }
            },
            None => {
                assert forall|j: int| 0 <= j < s.len() implies s[j].0 != k by {
                    if j > 0 {
                        assert(s[j] == s.drop_first()[j - 1]);
                    }
                }
            },
        }
    }
}

pub proof fn lemma_find_has_key<K, V>(s: Seq<(K, V)>, k: K)
    requires
        find(s, k) is Some,
    ensures
        exists|i: int| 0 <= i < s.len() && s[i].0 == k,
    decreases s.len(),
{
    if s[0].0 != k {
        lemma_find_has_key(s.drop_first(), k);
        let i = choose|i: int| 0 <= i < s.drop_first().len() && s.drop_first()[i].0 == k;
        assert(s[i + 1] == s.drop_first()[i]);
    }
}

pub proof fn lemma_find_last_has_key<K, V>(s: Seq<(K, V)>, k: K)
    requires
        find_last(s, k) is Some,
    ensures
        exists|i: int| 0 <= i < s.len() && s[i].0 == k,
    decreases s.len(),
{
    if s.last().0 != k {
        lemma_find_last_has_key(s.drop_last(), k);
        let i = choose|i: int| 0 <= i < s.drop_last().len() && s.drop_last()[i].0 == k;
        assert(s[i] == s.drop_last()[i]);
    }
}

} // verus!
