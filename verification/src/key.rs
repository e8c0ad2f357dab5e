//! The order of keys: byte strings, compared lexicographically.

use vstd::prelude::*;

verus! {

/// How one key stands to another.
#[derive(Clone, Copy, Debug, PartialEq, Eq)]
pub enum KeyOrder {
    Less,
    Equal,
    Greater,
}

/// `a` and `b` agree on their first `k` bytes.
pub open spec fn common_prefix(a: Seq<u8>, b: Seq<u8>, k: int) -> bool {
    &&& 0 <= k <= a.len()
    &&& k <= b.len()
    &&& forall|i: int| 0 <= i < k ==> a[i] == b[i]
}

/// `a` and `b` agree on their first `k` bytes, and right after them `a` either
/// ends while `b` goes on, or holds the smaller byte.
pub open spec fn less_at(a: Seq<u8>, b: Seq<u8>, k: int) -> bool {
    &&& common_prefix(a, b, k)
    &&& (k == a.len() && k < b.len()) || (k < a.len() && k < b.len() && a[k] < b[k])
}

/// `a` sorts strictly before `b`.
pub open spec fn key_lt(a: Seq<u8>, b: Seq<u8>) -> bool {
    exists|k: int| less_at(a, b, k)
}

/// Every key sorts strictly before each key after it: ascending, no duplicates.
pub open spec fn strictly_ascending(keys: Seq<Seq<u8>>) -> bool {
    forall|i: int, j: int| 0 <= i < j < keys.len() ==> key_lt(keys[i], keys[j])
}

/// `p` is where a search for `target` lands in `keys`: every key before `p`
/// sorts before `target`, and no key from `p` on does. With `p == keys.len()`
/// the target exceeds every key.
pub open spec fn is_lower_bound(keys: Seq<Seq<u8>>, target: Seq<u8>, p: int) -> bool {
    &&& 0 <= p <= keys.len()
    &&& forall|i: int| 0 <= i < p ==> key_lt(#[trigger] keys[i], target)
    &&& forall|i: int| p <= i < keys.len() ==> !key_lt(#[trigger] keys[i], target)
}

/// No key sorts before itself, and no two keys sort before each other.
pub proof fn lemma_key_lt_asymmetric(a: Seq<u8>, b: Seq<u8>)
    requires
        key_lt(a, b),
    ensures
        a != b,
        !key_lt(b, a),
{
    let k1 = choose|k: int| less_at(a, b, k);
    if a == b {
        assert(false);
    }
    if key_lt(b, a) {
        let k2 = choose|k: int| less_at(b, a, k);
        if k1 < k2 {
            assert(b[k1] == a[k1]);
        } else if k2 < k1 {
            assert(a[k2] == b[k2]);
        }
        assert(false);
    }
}

/// The order is transitive.
pub proof fn lemma_key_lt_transitive(a: Seq<u8>, b: Seq<u8>, c: Seq<u8>)
    requires
        key_lt(a, b),
        key_lt(b, c),
    ensures
        key_lt(a, c),
{
    let k1 = choose|k: int| less_at(a, b, k);
    let k2 = choose|k: int| less_at(b, c, k);
    let k = if k1 <= k2 { k1 } else { k2 };
    assert forall|i: int| 0 <= i < k implies a[i] == c[i] by {
        assert(a[i] == b[i]);
        assert(b[i] == c[i]);
    }
    if k1 < k2 {
        assert(b[k1] == c[k1]);
    } else if k2 < k1 {
        assert(a[k2] == b[k2]);
    }
    assert(less_at(a, c, k));
}

/// The order is total: of two different keys one sorts before the other.
pub proof fn lemma_key_lt_total(a: Seq<u8>, b: Seq<u8>)
    ensures
        a == b || key_lt(a, b) || key_lt(b, a),
    decreases a.len(),
{
    if a.len() == 0 || b.len() == 0 {
        if a.len() == 0 && b.len() == 0 {
            assert(a =~= b);
        } else if a.len() == 0 {
            assert(less_at(a, b, 0));
        } else {
            assert(less_at(b, a, 0));
        }
    } else if a[0] != b[0] {
        if a[0] < b[0] {
            assert(less_at(a, b, 0));
        } else {
            assert(less_at(b, a, 0));
        }
    } else {
        let ta = a.skip(1);
        let tb = b.skip(1);
        lemma_key_lt_total(ta, tb);
        if ta == tb {
            assert(a =~= seq![a[0]] + ta);
            assert(b =~= seq![b[0]] + tb);
        } else if key_lt(ta, tb) {
            let k = choose|k: int| less_at(ta, tb, k);
            assert forall|i: int| 0 <= i < k + 1 implies a[i] == b[i] by {
                if i > 0 {
                    assert(ta[i - 1] == tb[i - 1]);
                }
            }
            assert(less_at(a, b, k + 1));
        } else {
            let k = choose|k: int| less_at(tb, ta, k);
            assert forall|i: int| 0 <= i < k + 1 implies b[i] == a[i] by {
                if i > 0 {
                    assert(tb[i - 1] == ta[i - 1]);
                }
            }
            assert(less_at(b, a, k + 1));
        }
    }
}

/// A key that sorts behind the last of an ascending list keeps the list
/// ascending when it is put behind it.
pub proof fn lemma_ascending_push(keys: Seq<Seq<u8>>, key: Seq<u8>)
    requires
        strictly_ascending(keys),
        keys.len() > 0 ==> key_lt(keys.last(), key),
    ensures
        strictly_ascending(keys.push(key)),
{
    let longer = keys.push(key);
    assert forall|i: int, j: int| 0 <= i < j < longer.len() implies key_lt(
        longer[i],
        longer[j],
    ) by {
        if j == keys.len() && i < keys.len() - 1 {
            lemma_key_lt_transitive(keys[i], keys.last(), key);
        }
    }
}

/// A list of keys has at most one landing place for a target.
pub proof fn lemma_lower_bound_unique(keys: Seq<Seq<u8>>, target: Seq<u8>, p: int, q: int)
    requires
        is_lower_bound(keys, target, p),
        is_lower_bound(keys, target, q),
    ensures
        p == q,
{
    if p < q {
        assert(key_lt(keys[p], target));
    } else if q < p {
        assert(key_lt(keys[q], target));
    }
}

/// In an ascending list, the landing place of a target is settled by the keys
/// next to it: the one before sorts before the target, the one at it does not.
pub proof fn lemma_lower_bound_from_neighbours(keys: Seq<Seq<u8>>, target: Seq<u8>, p: int)
    requires
        strictly_ascending(keys),
        0 <= p <= keys.len(),
        p > 0 ==> key_lt(keys[p - 1], target),
        p < keys.len() ==> !key_lt(keys[p], target),
    ensures
        is_lower_bound(keys, target, p),
{
    assert forall|i: int| 0 <= i < p implies key_lt(#[trigger] keys[i], target) by {
        if i < p - 1 {
            lemma_key_lt_transitive(keys[i], keys[p - 1], target);
        }
    }
    assert forall|i: int| p <= i < keys.len() implies !key_lt(#[trigger] keys[i], target) by {
        if i > p && key_lt(keys[i], target) {
            lemma_key_lt_transitive(keys[p], keys[i], target);
        }
    }
}

/// Compares two keys byte by byte.
pub fn compare_keys(a: &[u8], b: &[u8]) -> (r: KeyOrder)
    ensures
        r == KeyOrder::Less <==> key_lt(a@, b@),
        r == KeyOrder::Equal <==> a@ == b@,
        r == KeyOrder::Greater <==> key_lt(b@, a@),
{
    let mut i: usize = 0;
    while i < a.len() && i < b.len()
        invariant
            common_prefix(a@, b@, i as int),
        decreases a.len() - i,
    {
        if a[i] < b[i] {
            proof {
                assert(less_at(a@, b@, i as int));
                lemma_key_lt_asymmetric(a@, b@);
            }
            return KeyOrder::Less;
        }
        if a[i] > b[i] {
            proof {
                assert(less_at(b@, a@, i as int));
                lemma_key_lt_asymmetric(b@, a@);
            }
            return KeyOrder::Greater;
        }
        i += 1;
    }
    if a.len() < b.len() {
        proof {
            assert(less_at(a@, b@, i as int));
            lemma_key_lt_asymmetric(a@, b@);
        }
        KeyOrder::Less
    } else if a.len() > b.len() {
        proof {
            assert(less_at(b@, a@, i as int));
            lemma_key_lt_asymmetric(b@, a@);
        }
        KeyOrder::Greater
    } else {
        proof {
            assert(a@ =~= b@);
            if key_lt(a@, b@) {
                lemma_key_lt_asymmetric(a@, b@);
            }
        }
        KeyOrder::Equal
    }
}

} // verus!
