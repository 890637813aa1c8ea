//! The order of keys: byte strings compared lexicographically, and the
//! sorting of keys by it.

use vstd::prelude::*;

verus! {

/// `a` and `b` agree before index `k`, and at `k` either `a` ends while `b`
/// goes on, or `a` has the smaller byte.
pub open spec fn less_at(a: Seq<u8>, b: Seq<u8>, k: int) -> bool {
    &&& 0 <= k <= a.len()
    &&& k < b.len()
    &&& forall|j: int| 0 <= j < k ==> a[j] == b[j]
    &&& (k == a.len() || a[k] < b[k])
}

/// `a` comes before `b` in lexicographic order.
pub open spec fn key_less(a: Seq<u8>, b: Seq<u8>) -> bool {
    exists|k: int| less_at(a, b, k)
}

/// The first index at or after `from` where `a` and `b` differ or one of
/// them ends.
pub open spec fn first_difference(a: Seq<u8>, b: Seq<u8>, from: int) -> int
    decreases a.len() - from,
{
    if from >= a.len() || from >= b.len() || a[from] != b[from] {
        from
    } else {
        first_difference(a, b, from + 1)
    }
}

proof fn lemma_first_difference(a: Seq<u8>, b: Seq<u8>, from: int)
    requires
        0 <= from <= a.len(),
        from <= b.len(),
        forall|j: int| 0 <= j < from ==> a[j] == b[j],
    ensures
        from <= first_difference(a, b, from) <= a.len(),
        first_difference(a, b, from) <= b.len(),
        forall|j: int| 0 <= j < first_difference(a, b, from) ==> a[j] == b[j],
        first_difference(a, b, from) < a.len() && first_difference(a, b, from) < b.len()
            ==> a[first_difference(a, b, from)] != b[first_difference(a, b, from)],
    decreases a.len() - from,
{
    if !(from >= a.len() || from >= b.len() || a[from] != b[from]) {
        lemma_first_difference(a, b, from + 1);
    }
}

/// No key comes before itself.
pub proof fn lemma_key_less_irreflexive(a: Seq<u8>)
    ensures
        !key_less(a, a),
{
}

/// The order is transitive.
pub proof fn lemma_key_less_transitive(a: Seq<u8>, b: Seq<u8>, c: Seq<u8>)
    requires
        key_less(a, b),
        key_less(b, c),
    ensures
        key_less(a, c),
{
    let k1 = choose|k: int| less_at(a, b, k);
    let k2 = choose|k: int| less_at(b, c, k);
    if k1 <= k2 {
        assert(less_at(a, c, k1));
    } else {
        assert(less_at(a, c, k2));
    }
}

/// Of two different keys one comes before the other.
pub proof fn lemma_key_less_total(a: Seq<u8>, b: Seq<u8>)
    ensures
        key_less(a, b) || key_less(b, a) || a == b,
{
    lemma_first_difference(a, b, 0);
    let k = first_difference(a, b, 0);
    if k == a.len() && k == b.len() {
        assert(a =~= b);
    } else if k == a.len() {
        assert(less_at(a, b, k));
    } else if k == b.len() {
        assert(less_at(b, a, k));
    } else if a[k] < b[k] {
        assert(less_at(a, b, k));
    } else {
        assert(less_at(b, a, k));
    }
}

/// No two keys come before each other.
pub proof fn lemma_key_less_asymmetric(a: Seq<u8>, b: Seq<u8>)
    requires
        key_less(a, b),
    ensures
        !key_less(b, a),
{
    if key_less(b, a) {
        lemma_key_less_transitive(a, b, a);
        lemma_key_less_irreflexive(a);
    }
}

/// Whether `a` comes before `b` in lexicographic order.
pub fn key_before(a: &[u8], b: &[u8]) -> (less: bool)
    ensures
        less == key_less(a@, b@),
{
    let n: usize = a.len();
    let m: usize = b.len();
    let mut i: usize = 0;
    while i < n && i < m
        invariant
            n == a@.len(),
            m == b@.len(),
            0 <= i <= n,
            i <= m,
            forall|j: int| 0 <= j < i ==> a@[j] == b@[j],
        decreases n - i,
    {
        if a[i] != b[i] {
            proof {
                if a@[i as int] < b@[i as int] {
                    assert(less_at(a@, b@, i as int));
                } else {
                    assert(less_at(b@, a@, i as int));
                    lemma_key_less_asymmetric(b@, a@);
                }
            }
            return a[i] < b[i];
        }
        i += 1;
    }
    proof {
        if i < m {
            assert(less_at(a@, b@, i as int));
        } else {
            if n == m {
                assert(a@ =~= b@);
                lemma_key_less_irreflexive(a@);
            } else {
                assert(less_at(b@, a@, i as int));
                lemma_key_less_asymmetric(b@, a@);
            }
        }
    }
    i < m
}

/// Every key of the sequence comes before all keys behind it.
pub open spec fn ascending(keys: Seq<Seq<u8>>) -> bool {
    forall|i: int, j: int| 0 <= i < j < keys.len() ==> key_less(#[trigger] keys[i], #[trigger] keys[j])
}

/// `keys` lists `domain` in ascending order: the keys of the sequence are
/// those of the set, each once.
pub open spec fn lists_keys(keys: Seq<Seq<u8>>, domain: Set<Seq<u8>>) -> bool {
    &&& ascending(keys)
    &&& forall|key: Seq<u8>| domain.contains(key) <==> keys.contains(key)
}

/// The keys of `domain` in ascending order.
pub open spec fn sorted_keys(domain: Set<Seq<u8>>) -> Seq<Seq<u8>> {
    choose|keys: Seq<Seq<u8>>| lists_keys(keys, domain)
}

/// Two ascending sequences with the same keys are the same sequence.
pub proof fn lemma_ascending_unique(a: Seq<Seq<u8>>, b: Seq<Seq<u8>>)
    requires
        ascending(a),
        ascending(b),
        forall|key: Seq<u8>| a.contains(key) <==> b.contains(key),
    ensures
        a == b,
    decreases a.len(),
{
    if a.len() == 0 {
        if b.len() > 0 {
            assert(b.contains(b[0]));
        }
        assert(a =~= b);
    } else {
        assert(a.contains(a[0]));
        assert(b.contains(a[0]));
        assert(b.len() > 0);
        assert(b.contains(b[0]));
        assert(a.contains(b[0]));
        let i = choose|i: int| 0 <= i < a.len() && a[i] == b[0];
        let j = choose|j: int| 0 <= j < b.len() && b[j] == a[0];
        if i > 0 && j > 0 {
            assert(key_less(a[0], a[i]));
            assert(key_less(b[0], b[j]));
            lemma_key_less_asymmetric(a[0], b[0]);
        }
        assert(a[0] == b[0]);
        let ra = a.skip(1);
        let rb = b.skip(1);
        assert forall|key: Seq<u8>| ra.contains(key) <==> rb.contains(key) by {
            if ra.contains(key) {
                let x = choose|x: int| 0 <= x < ra.len() && ra[x] == key;
                assert(a[x + 1] == key);
                assert(key_less(a[0], a[x + 1]));
                lemma_key_less_irreflexive(key);
                assert(a.contains(key));
                let y = choose|y: int| 0 <= y < b.len() && b[y] == key;
                assert(y > 0);
                assert(rb[y - 1] == key);
            }
            if rb.contains(key) {
                let y = choose|y: int| 0 <= y < rb.len() && rb[y] == key;
                assert(b[y + 1] == key);
                assert(key_less(b[0], b[y + 1]));
                lemma_key_less_irreflexive(key);
                assert(b.contains(key));
                let x = choose|x: int| 0 <= x < a.len() && a[x] == key;
                assert(x > 0);
                assert(ra[x - 1] == key);
            }
        }
        assert(ascending(ra)) by {
            assert forall|x: int, y: int| 0 <= x < y < ra.len() implies key_less(
                #[trigger] ra[x],
                #[trigger] ra[y],
            ) by {
                assert(key_less(a[x + 1], a[y + 1]));
            }
        }
        assert(ascending(rb)) by {
            assert forall|x: int, y: int| 0 <= x < y < rb.len() implies key_less(
                #[trigger] rb[x],
                #[trigger] rb[y],
            ) by {
                assert(key_less(b[x + 1], b[y + 1]));
            }
        }
        lemma_ascending_unique(ra, rb);
        assert(a =~= seq![a[0]] + ra);
        assert(b =~= seq![b[0]] + rb);
    }
}

/// A sequence that lists a set in ascending order is its sorted listing.
pub proof fn lemma_sorted_keys(keys: Seq<Seq<u8>>, domain: Set<Seq<u8>>)
    requires
        lists_keys(keys, domain),
    ensures
        sorted_keys(domain) == keys,
{
    lemma_ascending_unique(sorted_keys(domain), keys);
}

} // verus!
