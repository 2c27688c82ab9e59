//! Stable ordering of satellite indices by a two-part key: a flag (dark
//! before lit) and then a weight (smaller first).

use vstd::prelude::*;
use vstd::relations::{sorted_by, total_ordering};

verus! {

/// Strict order on the key of item `a` against item `b`.
pub open spec fn key_lt(flag: Seq<bool>, weight: Seq<usize>, a: usize, b: usize) -> bool {
    (!flag[a as int] && flag[b as int]) || (flag[a as int] == flag[b as int] && weight[a as int]
        < weight[b as int])
}

/// Items are in non-decreasing key order.
pub open spec fn key_sorted(flag: Seq<bool>, weight: Seq<usize>, s: Seq<usize>) -> bool {
    forall|i: int, j: int| 0 <= i < j < s.len() ==> !key_lt(flag, weight, #[trigger] s[j], #[trigger] s[i])
}

/// Items ordered by `(flag, weight, index)`: the key first, the lower index
/// among equal keys.
pub open spec fn key_leq(flag: Seq<bool>, weight: Seq<usize>) -> spec_fn(usize, usize) -> bool {
    |a: usize, b: usize|
        key_lt(flag, weight, a, b) || (flag[a as int] == flag[b as int] && weight[a as int] == weight[b as int]
            && a <= b)
}

/// Strictly ascending.
pub open spec fn ascending(s: Seq<usize>) -> bool {
    forall|i: int, j: int| 0 <= i < j < s.len() ==> #[trigger] s[i] < #[trigger] s[j]
}

/// Where `x` goes among `r[from..]`: before the first item whose key is
/// strictly larger than its own, or at the end.
pub open spec fn place_of(flag: Seq<bool>, weight: Seq<usize>, r: Seq<usize>, x: usize, from: int) -> int
    decreases r.len() - from,
{
    if from >= r.len() {
        r.len() as int
    } else if key_lt(flag, weight, x, r[from]) {
        from
    } else {
        place_of(flag, weight, r, x, from + 1)
    }
}

/// The first `k` items, each placed in turn after every earlier item whose
/// key is no larger than its own: ascending by key, equal keys in input order.
pub open spec fn key_order_upto(flag: Seq<bool>, weight: Seq<usize>, items: Seq<usize>, k: int) -> Seq<usize>
    decreases k,
{
    if k <= 0 {
        Seq::empty()
    } else {
        let r = key_order_upto(flag, weight, items, k - 1);
        r.insert(place_of(flag, weight, r, items[k - 1], 0), items[k - 1])
    }
}

/// `items` stably ordered by ascending `(flag[item], weight[item])`.
pub open spec fn key_order(flag: Seq<bool>, weight: Seq<usize>, items: Seq<usize>) -> Seq<usize> {
    key_order_upto(flag, weight, items, items.len() as int)
}

pub proof fn lemma_key_leq_total(flag: Seq<bool>, weight: Seq<usize>)
    ensures
        total_ordering(key_leq(flag, weight)),
{
}

/// `items` reordered by ascending `(flag[item], weight[item])`, keeping the
/// input order among equal keys.
pub fn stable_sort_by_key(items: &Vec<usize>, flag: &Vec<bool>, weight: &Vec<usize>) -> (r: Vec<usize>)
    requires
        flag@.len() == weight@.len(),
        forall|i: int| 0 <= i < items@.len() ==> #[trigger] items@[i] < flag@.len(),
    ensures
        r@.len() == items@.len(),
        forall|x: usize| r@.contains(x) <==> items@.contains(x),
        items@.no_duplicates() ==> r@.no_duplicates(),
        key_sorted(flag@, weight@, r@),
        r@.to_multiset() == items@.to_multiset(),
        ascending(items@) ==> sorted_by(r@, key_leq(flag@, weight@)),
        r@ == key_order(flag@, weight@, items@),
{
    let mut r: Vec<usize> = Vec::new();
    let mut k: usize = 0;
    proof {
        assert(items@.take(0) =~= r@);
    }
    while k < items.len()
        invariant
            k <= items.len(),
            flag@.len() == weight@.len(),
            forall|i: int| 0 <= i < items@.len() ==> #[trigger] items@[i] < flag@.len(),
            r@.len() == k,
            forall|x: usize| r@.contains(x) <==> items@.take(k as int).contains(x),
            items@.no_duplicates() ==> r@.no_duplicates(),
            forall|i: int| 0 <= i < r@.len() ==> #[trigger] r@[i] < flag@.len(),
            key_sorted(flag@, weight@, r@),
            r@.to_multiset() == items@.take(k as int).to_multiset(),
            ascending(items@) ==> sorted_by(r@, key_leq(flag@, weight@)),
            r@ == key_order_upto(flag@, weight@, items@, k as int),
        decreases items.len() - k,
    {
        let x = items[k];
        let mut j: usize = 0;
        while j < r.len() && !(flag[x] == false && flag[r[j]] == true || flag[x] == flag[r[j]]
            && weight[x] < weight[r[j]])
            invariant
                j <= r@.len(),
                x < flag@.len(),
                flag@.len() == weight@.len(),
                forall|i: int| 0 <= i < r@.len() ==> #[trigger] r@[i] < flag@.len(),
                forall|i: int| 0 <= i < j ==> !key_lt(flag@, weight@, x, #[trigger] r@[i]),
                place_of(flag@, weight@, r@, x, 0) == place_of(flag@, weight@, r@, x, j as int),
            decreases r@.len() - j,
        {
            j = j + 1;
        }
        let ghost old_r = r@;
        assert(place_of(flag@, weight@, old_r, x, 0) == j);
        proof {
            assert forall|i: int| j <= i < old_r.len() implies key_lt(
                flag@,
                weight@,
                x,
                #[trigger] old_r[i],
            ) by {
                assert(key_lt(flag@, weight@, x, old_r[j as int]));
                if i > j {
                    assert(!key_lt(flag@, weight@, old_r[i], old_r[j as int]));
                }
            }
        }
        r.insert(j, x);
        proof {
            assert(r@ =~= old_r.insert(j as int, x));
            assert(items@.take(k as int + 1) =~= items@.take(k as int).push(x));
            broadcast use vstd::seq_lib::group_to_multiset_ensures;
            if ascending(items@) {
                assert forall|i: int| 0 <= i < old_r.len() implies #[trigger] old_r[i] < x by {
                    assert(old_r.contains(old_r[i]));
                    assert(items@.take(k as int).contains(old_r[i]));
                    let m = choose|m: int| 0 <= m < k && items@.take(k as int)[m] == old_r[i];
                    assert(items@[m] < items@[k as int]);
                }
                let leq = key_leq(flag@, weight@);
                assert forall|a: int, b: int| 0 <= a < b < r@.len() implies #[trigger] leq(r@[a], r@[b]) by {
                    if a < j && b < j {
                        assert(r@[a] == old_r[a] && r@[b] == old_r[b]);
                        assert(leq(old_r[a], old_r[b]));
                    } else if a > j && b > j {
                        assert(r@[a] == old_r[a - 1] && r@[b] == old_r[b - 1]);
                        assert(leq(old_r[a - 1], old_r[b - 1]));
                    } else if a < j && b == j {
                        assert(r@[a] == old_r[a]);
                        assert(!key_lt(flag@, weight@, x, old_r[a]));
                        assert(old_r[a] < x);
                    } else if a < j && b > j {
                        assert(r@[a] == old_r[a] && r@[b] == old_r[b - 1]);
                        assert(leq(old_r[a], old_r[b - 1]));
                    } else {
                        assert(r@[b] == old_r[b - 1]);
                        assert(key_lt(flag@, weight@, x, old_r[b - 1]));
                    }
                }
            }
            assert forall|y: usize| r@.contains(y) <==> items@.take(k as int + 1).contains(y) by {
                if r@.contains(y) {
                    let i = choose|i: int| 0 <= i < r@.len() && r@[i] == y;
                    if i < j {
                        assert(old_r[i] == y);
                    } else if i > j {
                        assert(old_r[i - 1] == y);
                    }
                    if y != x {
                        assert(old_r.contains(y));
                        assert(items@.take(k as int).contains(y));
                        let m = choose|m: int| 0 <= m < k && items@.take(k as int)[m] == y;
                        assert(items@.take(k as int + 1)[m] == y);
                    } else {
                        assert(items@.take(k as int + 1)[k as int] == y);
                    }
                }
                if items@.take(k as int + 1).contains(y) {
                    let m = choose|m: int| 0 <= m < k + 1 && #[trigger] items@.take(k as int + 1)[m] == y;
                    if m < k {
                        assert(items@.take(k as int)[m] == y);
                        assert(old_r.contains(y));
                        let i = choose|i: int| 0 <= i < old_r.len() && old_r[i] == y;
                        if i < j {
                            assert(r@[i] == y);
                        } else {
                            assert(r@[i + 1] == y);
                        }
                    } else {
                        assert(r@[j as int] == y);
                    }
                }
            }
            if items@.no_duplicates() {
                assert(!old_r.contains(x)) by {
                    if old_r.contains(x) {
                        let m = choose|m: int| 0 <= m < k && items@.take(k as int)[m] == x;
                        assert(items@[m] == items@[k as int]);
                    }
                }
                assert forall|a: int, b: int|
                    0 <= a < r@.len() && 0 <= b < r@.len() && a != b implies r@[a] != r@[b] by {
                    if a != j && b != j {
                        let oa = if a < j { a } else { a - 1 };
                        let ob = if b < j { b } else { b - 1 };
                        assert(r@[a] == old_r[oa]);
                        assert(r@[b] == old_r[ob]);
                    } else if a == j {
                        let ob = if b < j { b } else { b - 1 };
                        assert(r@[b] == old_r[ob]);
                    } else {
                        let oa = if a < j { a } else { a - 1 };
                        assert(r@[a] == old_r[oa]);
                    }
                }
            }
            assert forall|a: int, b: int| 0 <= a < b < r@.len() implies !key_lt(
                flag@,
                weight@,
                #[trigger] r@[b],
                #[trigger] r@[a],
            ) by {
                if a < j && b < j {
                    assert(r@[a] == old_r[a] && r@[b] == old_r[b]);
                } else if a > j && b > j {
                    assert(r@[a] == old_r[a - 1] && r@[b] == old_r[b - 1]);
                } else if a < j && b == j {
                    assert(r@[a] == old_r[a]);
                } else if a < j && b > j {
                    assert(r@[a] == old_r[a] && r@[b] == old_r[b - 1]);
                } else {
                    assert(r@[b] == old_r[b - 1]);
                }
            }
        }
        k = k + 1;
    }
    assert(items@.take(k as int) =~= items@);
    r
}

} // verus!
