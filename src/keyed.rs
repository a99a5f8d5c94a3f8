//! A vector whose elements carry distinct keys, read as a map from key to value.

use vstd::prelude::*;

verus! {

pub proof fn lemma_contains_push<T>(s: Seq<T>, x: T, y: T)
    ensures
        s.push(x).contains(y) <==> s.contains(y) || y == x,
{
    if s.push(x).contains(y) {
        let j = choose|j: int| 0 <= j < s.push(x).len() && s.push(x)[j] == y;
        if j < s.len() {
            assert(s[j] == y);
        }
    }
    if s.contains(y) {
        let j = choose|j: int| 0 <= j < s.len() && s[j] == y;
        assert(s.push(x)[j] == y);
    }
    if y == x {
        assert(s.push(x)[s.len() as int] == y);
    }
}

pub open spec fn unique_keys<T, K>(es: Seq<T>, key: spec_fn(T) -> K) -> bool {
    forall|i: int, j: int|
        0 <= i < es.len() && 0 <= j < es.len() && i != j ==> key(#[trigger] es[i]) != key(
            #[trigger] es[j],
        )
}

pub open spec fn has_key<T, K>(es: Seq<T>, key: spec_fn(T) -> K, k: K) -> bool {
    exists|i: int| 0 <= i < es.len() && key(#[trigger] es[i]) == k
}

/// The map from each element's key to its value.
pub open spec fn keyed_map<T, K, V>(es: Seq<T>, key: spec_fn(T) -> K, val: spec_fn(T) -> V) -> Map<
    K,
    V,
> {
    Map::new(
        |k: K| has_key(es, key, k),
        |k: K| val(es[choose|i: int| 0 <= i < es.len() && key(#[trigger] es[i]) == k]),
    )
}

pub proof fn lemma_keyed_at<T, K, V>(
    es: Seq<T>,
    key: spec_fn(T) -> K,
    val: spec_fn(T) -> V,
    i: int,
)
    requires
        unique_keys(es, key),
        0 <= i < es.len(),
    ensures
        keyed_map(es, key, val).contains_key(key(es[i])),
        keyed_map(es, key, val)[key(es[i])] == val(es[i]),
{
    let k = key(es[i]);
    assert(has_key(es, key, k));
    let j = choose|j: int| 0 <= j < es.len() && key(#[trigger] es[j]) == k;
    assert(j == i);
}

pub proof fn lemma_keyed_absent<T, K, V>(es: Seq<T>, key: spec_fn(T) -> K, val: spec_fn(T) -> V, k: K)
    requires
        unique_keys(es, key),
        !keyed_map(es, key, val).contains_key(k),
    ensures
        forall|i: int| 0 <= i < es.len() ==> key(#[trigger] es[i]) != k,
{
    assert forall|i: int| 0 <= i < es.len() implies key(#[trigger] es[i]) != k by {
        if key(es[i]) == k {
            lemma_keyed_at(es, key, val, i);
        }
    }
}

pub proof fn lemma_keyed_update<T, K, V>(
    es: Seq<T>,
    key: spec_fn(T) -> K,
    val: spec_fn(T) -> V,
    i: int,
    e: T,
)
    requires
        unique_keys(es, key),
        0 <= i < es.len(),
        key(e) == key(es[i]),
    ensures
        unique_keys(es.update(i, e), key),
        keyed_map(es.update(i, e), key, val) == keyed_map(es, key, val).insert(key(e), val(e)),
{
    let qs = es.update(i, e);
    assert forall|a: int, b: int|
        0 <= a < qs.len() && 0 <= b < qs.len() && a != b implies key(#[trigger] qs[a]) != key(
        #[trigger] qs[b],
    ) by {
        assert(key(es[a]) != key(es[b]));
    }
    let m = keyed_map(es, key, val).insert(key(e), val(e));
    assert forall|k: K| #[trigger] keyed_map(qs, key, val).contains_key(k) <==> m.contains_key(k) by {
        if has_key(es, key, k) {
            let j = choose|j: int| 0 <= j < es.len() && key(#[trigger] es[j]) == k;
            assert(key(qs[j]) == k);
        }
        if has_key(qs, key, k) {
            let j = choose|j: int| 0 <= j < qs.len() && key(#[trigger] qs[j]) == k;
            assert(key(es[j]) == k);
        }
    }
    assert forall|k: K| #[trigger] keyed_map(qs, key, val).contains_key(k) implies keyed_map(
        qs,
        key,
        val,
    )[k] == m[k] by {
        let j = choose|j: int| 0 <= j < qs.len() && key(#[trigger] qs[j]) == k;
        lemma_keyed_at(qs, key, val, j);
        if j != i {
            lemma_keyed_at(es, key, val, j);
        }
    }
    assert(keyed_map(qs, key, val) =~= m);
}

pub proof fn lemma_keyed_push<T, K, V>(es: Seq<T>, key: spec_fn(T) -> K, val: spec_fn(T) -> V, e: T)
    requires
        unique_keys(es, key),
        !keyed_map(es, key, val).contains_key(key(e)),
    ensures
        unique_keys(es.push(e), key),
        keyed_map(es.push(e), key, val) == keyed_map(es, key, val).insert(key(e), val(e)),
{
    lemma_keyed_absent(es, key, val, key(e));
    let qs = es.push(e);
    assert forall|a: int, b: int|
        0 <= a < qs.len() && 0 <= b < qs.len() && a != b implies key(#[trigger] qs[a]) != key(
        #[trigger] qs[b],
    ) by {
        if a < es.len() && b < es.len() {
            assert(key(es[a]) != key(es[b]));
        } else if a < es.len() {
            assert(key(es[a]) != key(e));
        } else {
            assert(key(es[b]) != key(e));
        }
    }
    let m = keyed_map(es, key, val).insert(key(e), val(e));
    assert forall|k: K| #[trigger] keyed_map(qs, key, val).contains_key(k) <==> m.contains_key(k) by {
        if has_key(es, key, k) {
            let j = choose|j: int| 0 <= j < es.len() && key(#[trigger] es[j]) == k;
            assert(key(qs[j]) == k);
        }
        if k == key(e) {
            assert(key(qs[es.len() as int]) == k);
        }
        if has_key(qs, key, k) && k != key(e) {
            let j = choose|j: int| 0 <= j < qs.len() && key(#[trigger] qs[j]) == k;
            assert(key(es[j]) == k);
        }
    }
    assert forall|k: K| #[trigger] keyed_map(qs, key, val).contains_key(k) implies keyed_map(
        qs,
        key,
        val,
    )[k] == m[k] by {
        let j = choose|j: int| 0 <= j < qs.len() && key(#[trigger] qs[j]) == k;
        lemma_keyed_at(qs, key, val, j);
        if j < es.len() {
            lemma_keyed_at(es, key, val, j);
        }
    }
    assert(keyed_map(qs, key, val) =~= m);
}

pub proof fn lemma_keyed_remove<T, K, V>(es: Seq<T>, key: spec_fn(T) -> K, val: spec_fn(T) -> V, i: int)
    requires
        unique_keys(es, key),
        0 <= i < es.len(),
    ensures
        unique_keys(es.remove(i), key),
        keyed_map(es.remove(i), key, val) == keyed_map(es, key, val).remove(key(es[i])),
{
    let qs = es.remove(i);
    let gone = key(es[i]);
    assert forall|k: int| 0 <= k < qs.len() implies #[trigger] qs[k] == (if k < i {
        es[k]
    } else {
        es[k + 1]
    }) by {}
    assert forall|a: int, b: int|
        0 <= a < qs.len() && 0 <= b < qs.len() && a != b implies key(#[trigger] qs[a]) != key(
        #[trigger] qs[b],
    ) by {
        let a2 = if a < i {
            a
        } else {
            a + 1
        };
        let b2 = if b < i {
            b
        } else {
            b + 1
        };
        assert(key(es[a2]) != key(es[b2]));
    }
    let m = keyed_map(es, key, val).remove(gone);
    assert forall|k: K| #[trigger] keyed_map(qs, key, val).contains_key(k) <==> m.contains_key(k) by {
        if has_key(es, key, k) && k != gone {
            let j = choose|j: int| 0 <= j < es.len() && key(#[trigger] es[j]) == k;
            let j2 = if j < i {
                j
            } else {
                j - 1
            };
            assert(key(qs[j2]) == k);
        }
        if has_key(qs, key, k) {
            let j = choose|j: int| 0 <= j < qs.len() && key(#[trigger] qs[j]) == k;
            let j2 = if j < i {
                j
            } else {
                j + 1
            };
            assert(key(es[j2]) == k);
            assert(j2 != i);
        }
    }
    assert forall|k: K| #[trigger] keyed_map(qs, key, val).contains_key(k) implies keyed_map(
        qs,
        key,
        val,
    )[k] == m[k] by {
        let j = choose|j: int| 0 <= j < qs.len() && key(#[trigger] qs[j]) == k;
        lemma_keyed_at(qs, key, val, j);
        let j2 = if j < i {
            j
        } else {
            j + 1
        };
        lemma_keyed_at(es, key, val, j2);
    }
    assert(keyed_map(qs, key, val) =~= m);
}

} // verus!
