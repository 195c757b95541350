//! Ordered search over runs of keys of any type whose order obeys the laws
//! of a total order.
use core::cmp::Ordering;
use vstd::laws_cmp::{obeys_cmp, obeys_cmp_ord, obeys_cmp_partial_ord, obeys_partial_cmp_spec_properties};
use vstd::laws_eq::obeys_eq_spec_properties;
use crate::byte_format::at;
use vstd::prelude::*;
use vstd::std_specs::cmp::{OrdSpec, PartialEqSpec, PartialOrdSpec};

verus! {

/// Whether the key type's order obeys the laws of a strict total order.
pub open spec fn total_order<K: Ord>() -> bool {
    obeys_cmp::<K>()
}

/// `a` comes before `b`.
pub open spec fn key_lt<K: Ord>(a: K, b: K) -> bool {
    a.cmp_spec(&b) == Ordering::Less
}

/// `a` and `b` are equal in the order.
pub open spec fn key_eq<K: Ord>(a: K, b: K) -> bool {
    a.cmp_spec(&b) == Ordering::Equal
}

/// Every key comes before every later key.
pub open spec fn strictly_sorted<K: Ord>(s: Seq<K>) -> bool {
    forall|i: int, j: int| 0 <= i < j < s.len() ==> key_lt(#[trigger] s[i], #[trigger] s[j])
}

/// The laws of a strict total order that `obeys_cmp` gives.
pub proof fn lemma_order_laws<K: Ord>()
    requires
        obeys_cmp::<K>(),
    ensures
        K::obeys_cmp_spec(),
        forall|a: K, b: K| #[trigger] key_lt(a, b) <==> b.cmp_spec(&a) == Ordering::Greater,
        forall|a: K, b: K| #[trigger] key_eq(a, b) ==> key_eq(b, a),
        forall|a: K, b: K, c: K| #[trigger] key_lt(a, b) && #[trigger] key_lt(b, c) ==> key_lt(a, c),
        forall|a: K, b: K, c: K| #[trigger] key_lt(a, b) && #[trigger] key_eq(b, c) ==> key_lt(a, c),
        forall|a: K, b: K, c: K| #[trigger] key_eq(a, b) && #[trigger] key_lt(b, c) ==> key_lt(a, c),
        forall|a: K, b: K, c: K| #[trigger] key_eq(a, b) && #[trigger] key_eq(b, c) ==> key_eq(a, c),
{
    reveal(obeys_cmp_ord);
    reveal(obeys_cmp_partial_ord);
    reveal(obeys_partial_cmp_spec_properties);
    reveal(obeys_eq_spec_properties);
    assert forall|a: K, b: K| #[trigger] key_lt(a, b) <==> b.cmp_spec(&a) == Ordering::Greater by {
        assert(a.partial_cmp_spec(&b) == Some(a.cmp_spec(&b)));
        assert(b.partial_cmp_spec(&a) == Some(b.cmp_spec(&a)));
    }
    assert forall|a: K, b: K| #[trigger] key_eq(a, b) implies key_eq(b, a) by {
        assert(a.partial_cmp_spec(&b) == Some(a.cmp_spec(&b)));
        assert(b.partial_cmp_spec(&a) == Some(b.cmp_spec(&a)));
        assert(a.eq_spec(&b));
        assert(b.eq_spec(&a));
    }
    assert forall|a: K, b: K, c: K| #[trigger] key_lt(a, b) && #[trigger] key_lt(b, c) implies key_lt(a, c) by {
        assert(a.partial_cmp_spec(&b) == Some(a.cmp_spec(&b)));
        assert(b.partial_cmp_spec(&c) == Some(b.cmp_spec(&c)));
        assert(a.partial_cmp_spec(&c) == Some(a.cmp_spec(&c)));
    }
    assert forall|a: K, b: K, c: K| #[trigger] key_eq(a, b) && #[trigger] key_eq(b, c) implies key_eq(a, c) by {
        assert(a.partial_cmp_spec(&b) == Some(a.cmp_spec(&b)));
        assert(b.partial_cmp_spec(&c) == Some(b.cmp_spec(&c)));
        assert(a.partial_cmp_spec(&c) == Some(a.cmp_spec(&c)));
        assert(a.eq_spec(&b));
        assert(b.eq_spec(&c));
        assert(a.eq_spec(&c));
    }
    assert forall|a: K, b: K, c: K| #[trigger] key_lt(a, b) && #[trigger] key_eq(b, c) implies key_lt(a, c) by {
        assert(a.partial_cmp_spec(&b) == Some(a.cmp_spec(&b)));
        assert(b.partial_cmp_spec(&c) == Some(b.cmp_spec(&c)));
        assert(a.partial_cmp_spec(&c) == Some(a.cmp_spec(&c)));
        assert(c.partial_cmp_spec(&a) == Some(c.cmp_spec(&a)));
        assert(c.partial_cmp_spec(&b) == Some(c.cmp_spec(&b)));
        assert(b.partial_cmp_spec(&a) == Some(b.cmp_spec(&a)));
        assert(b.eq_spec(&c));
        assert(c.eq_spec(&b));
        if a.cmp_spec(&c) == Ordering::Equal {
            assert(a.eq_spec(&c));
            assert(a.eq_spec(&b));
        } else if a.cmp_spec(&c) == Ordering::Greater {
            assert(c.cmp_spec(&a) == Ordering::Less);
        }
    }
    assert forall|a: K, b: K, c: K| #[trigger] key_eq(a, b) && #[trigger] key_lt(b, c) implies key_lt(a, c) by {
        assert(a.partial_cmp_spec(&b) == Some(a.cmp_spec(&b)));
        assert(b.partial_cmp_spec(&c) == Some(b.cmp_spec(&c)));
        assert(a.partial_cmp_spec(&c) == Some(a.cmp_spec(&c)));
        assert(c.partial_cmp_spec(&a) == Some(c.cmp_spec(&a)));
        assert(b.partial_cmp_spec(&a) == Some(b.cmp_spec(&a)));
        assert(c.partial_cmp_spec(&b) == Some(c.cmp_spec(&b)));
        assert(a.eq_spec(&b));
        assert(b.eq_spec(&a));
        if a.cmp_spec(&c) == Ordering::Equal {
            assert(a.eq_spec(&c));
            assert(c.eq_spec(&a));
            assert(c.eq_spec(&b));
        } else if a.cmp_spec(&c) == Ordering::Greater {
            assert(c.cmp_spec(&a) == Ordering::Less);
        }
    }
}

/// No key comes both before and after another.
pub proof fn lemma_lt_asymmetric<K: Ord>(a: K, b: K)
    requires
        total_order::<K>(),
        key_lt(a, b),
    ensures
        !key_lt(b, a),
{
    lemma_order_laws::<K>();
}

/// Keys are equal in the order exactly when they are the same value, and a
/// key is known by its view.
pub open spec fn key_model<K: Ord + View>() -> bool {
    &&& total_order::<K>()
    &&& forall|a: K, b: K| #[trigger] key_eq(a, b) <==> a == b
    &&& forall|a: K, b: K| a@ == b@ ==> a == b
}

/// Where one key stands relative to another.
pub enum KeyOrder {
    Less,
    Equal,
    Greater,
}

/// Compares two keys in their order.
pub fn compare_keys<K: Ord>(a: &K, b: &K) -> (r: KeyOrder)
    requires
        total_order::<K>(),
    ensures
        (r is Less) == key_lt(*a, *b),
        (r is Equal) == key_eq(*a, *b),
        (r is Greater) == key_lt(*b, *a),
{
    proof {
        lemma_order_laws::<K>();
    }
    match a.cmp(b) {
        Ordering::Less => KeyOrder::Less,
        Ordering::Equal => KeyOrder::Equal,
        Ordering::Greater => KeyOrder::Greater,
    }
}

/// Binary search of a strictly sorted run: `Ok` with the position of the
/// equal key, or `Err` with the position where the key would go.
///
/// On a run that is not sorted the position is still in range, as with
/// `slice::binary_search`, but tells nothing more.
pub fn binary_search<K: Ord>(s: &Vec<K>, key: &K) -> (r: Result<usize, usize>)
    requires
        total_order::<K>(),
    ensures
        match r {
            Ok(i) => i < s@.len() && key_eq(s@[at(i)], *key),
            Err(i) => {
                &&& i <= s@.len()
                &&& strictly_sorted(s@) ==> forall|j: int| 0 <= j < i ==> key_lt(#[trigger] s@[j], *key)
                &&& strictly_sorted(s@) ==> forall|j: int| i <= j < s@.len() ==> key_lt(*key, #[trigger] s@[j])
            },
        },
{
    proof {
        lemma_order_laws::<K>();
    }
    let mut lo: usize = 0;
    let mut hi: usize = s.len();
    while lo < hi
        invariant
            total_order::<K>(),
            lo <= hi <= s@.len(),
            strictly_sorted(s@) ==> forall|j: int| 0 <= j < lo ==> key_lt(#[trigger] s@[j], *key),
            strictly_sorted(s@) ==> forall|j: int| hi <= j < s@.len() ==> key_lt(*key, #[trigger] s@[j]),
        decreases hi - lo,
    {
        let mid = lo + (hi - lo) / 2;
        let ghost m = at(mid);
        proof {
            lemma_order_laws::<K>();
        }
        let x = &s[mid];
        assert(*x == s@[m]);
        match compare_keys(x, key) {
            KeyOrder::Less => {
                proof {
                    if strictly_sorted(s@) {
                        assert forall|j: int| 0 <= j < mid + 1 implies key_lt(#[trigger] s@[j], *key) by {
                            if j < mid {
                                assert(key_lt(s@[j], s@[m]));
                            }
                        }
                    }
                }
                lo = mid + 1;
            },
            KeyOrder::Greater => {
                proof {
                    if strictly_sorted(s@) {
                        assert forall|j: int| mid <= j < s@.len() implies key_lt(*key, #[trigger] s@[j]) by {
                            if j > mid {
                                assert(key_lt(s@[m], s@[j]));
                            }
                        }
                    }
                }
                hi = mid;
            },
            KeyOrder::Equal => {
                return Ok(mid);
            },
        }
    }
    Err(lo)
}

} // verus!
