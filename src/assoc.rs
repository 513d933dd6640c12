use vstd::prelude::*;

verus! {

/// No key occurs twice in an association list.
pub open spec fn keys_unique<K, V>(s: Seq<(K, V)>) -> bool {
    forall|i: int, j: int| 0 <= i < s.len() && 0 <= j < s.len() && i != j ==> #[trigger] s[i].0
        != #[trigger] s[j].0
}

/// Some entry of the list has key `k`.
pub open spec fn has_key<K, V>(s: Seq<(K, V)>, k: K) -> bool {
    exists|i: int| 0 <= i < s.len() && #[trigger] s[i].0 == k
}

/// The value that an association list gives to key `k`.
pub open spec fn assoc<K, V>(s: Seq<(K, V)>, k: K) -> Option<V> {
    if has_key(s, k) {
        Some(s[choose|i: int| 0 <= i < s.len() && #[trigger] s[i].0 == k].1)
    } else {
        None
    }
}

pub proof fn lemma_assoc_at<K, V>(s: Seq<(K, V)>, i: int)
    requires
        keys_unique(s),
        0 <= i < s.len(),
    ensures
        assoc(s, s[i].0) == Some(s[i].1),
{
    let k = s[i].0;
    assert(has_key(s, k));
    let j = choose|j: int| 0 <= j < s.len() && #[trigger] s[j].0 == k;
    assert(i == j);
}

pub proof fn lemma_assoc_update<K, V>(s: Seq<(K, V)>, i: int, v: V)
    requires
        keys_unique(s),
        0 <= i < s.len(),
    ensures
        keys_unique(s.update(i, (s[i].0, v))),
        assoc(s.update(i, (s[i].0, v)), s[i].0) == Some(v),
        forall|k: K| k != s[i].0 ==> assoc(s.update(i, (s[i].0, v)), k) == assoc(s, k),
{
    let t = s.update(i, (s[i].0, v));
    assert(keys_unique(t));
    lemma_assoc_at(t, i);
    assert forall|k: K| k != s[i].0 implies assoc(t, k) == assoc(s, k) by {
        if has_key(s, k) {
            let j = choose|j: int| 0 <= j < s.len() && #[trigger] s[j].0 == k;
            assert(t[j].0 == k);
            lemma_assoc_at(s, j);
            lemma_assoc_at(t, j);
        } else {
            assert forall|j: int| 0 <= j < t.len() implies #[trigger] t[j].0 != k by {
                assert(s[j].0 != k);
            }
        }
    }
}

pub proof fn lemma_assoc_push<K, V>(s: Seq<(K, V)>, k: K, v: V)
    requires
        keys_unique(s),
        !has_key(s, k),
    ensures
        keys_unique(s.push((k, v))),
        assoc(s.push((k, v)), k) == Some(v),
        forall|k2: K| k2 != k ==> assoc(s.push((k, v)), k2) == assoc(s, k2),
{
    let t = s.push((k, v));
    assert(keys_unique(t));
    lemma_assoc_at(t, s.len() as int);
    assert forall|k2: K| k2 != k implies assoc(t, k2) == assoc(s, k2) by {
        if has_key(s, k2) {
            let j = choose|j: int| 0 <= j < s.len() && #[trigger] s[j].0 == k2;
            assert(t[j].0 == k2);
            lemma_assoc_at(s, j);
            lemma_assoc_at(t, j);
        } else {
            assert forall|j: int| 0 <= j < t.len() implies #[trigger] t[j].0 != k2 by {
                if j < s.len() {
                    assert(s[j].0 != k2);
                }
            }
        }
    }
}

pub proof fn lemma_assoc_remove<K, V>(s: Seq<(K, V)>, i: int)
    requires
        keys_unique(s),
        0 <= i < s.len(),
    ensures
        keys_unique(s.remove(i)),
        assoc(s.remove(i), s[i].0) is None,
        forall|k: K| k != s[i].0 ==> assoc(s.remove(i), k) == assoc(s, k),
{
    let t = s.remove(i);
    assert(keys_unique(t));
    assert forall|j: int| 0 <= j < t.len() implies #[trigger] t[j].0 != s[i].0 by {
        if j < i {
            assert(t[j] == s[j]);
        } else {
            assert(t[j] == s[j + 1]);
        }
    }
    assert forall|k: K| k != s[i].0 implies assoc(t, k) == assoc(s, k) by {
        if has_key(s, k) {
            let j = choose|j: int| 0 <= j < s.len() && #[trigger] s[j].0 == k;
            assert(j != i);
            let jt = if j < i {
                j
            } else {
                j - 1
            };
            assert(t[jt] == s[j]);
            lemma_assoc_at(s, j);
            lemma_assoc_at(t, jt);
        } else {
            assert forall|j: int| 0 <= j < t.len() implies #[trigger] t[j].0 != k by {
                if j < i {
                    assert(t[j] == s[j]);
                } else {
                    assert(t[j] == s[j + 1]);
                }
            }
        }
    }
}

} // verus!
