//! Distinct values in first-appearance order, tallies over pairs, and
//! ascending sorting of counts: the vocabulary of the terminal-demand model.

use vstd::prelude::*;
use vstd::relations::{sorted_by, total_ordering};
use vstd::seq_lib::lemma_sorted_unique;

verus! {

/// The values of `xs`, each once, in order of first appearance.
pub open spec fn distinct<T>(xs: Seq<T>) -> Seq<T>
    decreases xs.len(),
{
    if xs.len() == 0 {
        Seq::empty()
    } else {
        let d = distinct(xs.drop_last());
        if d.contains(xs.last()) {
            d
        } else {
            d.push(xs.last())
        }
    }
}

/// Pairs of `ps` whose first component is `x`.
pub open spec fn count_first(ps: Seq<(usize, usize)>, x: usize) -> nat
    decreases ps.len(),
{
    if ps.len() == 0 {
        0
    } else {
        count_first(ps.drop_last(), x) + if ps.last().0 == x {
            1nat
        } else {
            0nat
        }
    }
}

/// First components of `ps`.
pub open spec fn firsts(ps: Seq<(usize, usize)>) -> Seq<usize> {
    ps.map_values(|p: (usize, usize)| p.0)
}

/// Order on counts.
pub open spec fn usize_le() -> spec_fn(usize, usize) -> bool {
    |a: usize, b: usize| a <= b
}

/// `s` in ascending order.
pub open spec fn sorted_asc(s: Seq<usize>) -> Seq<usize> {
    s.sort_by(usize_le())
}

/// For each distinct first component of the distinct pairs, how many distinct
/// partners it has, ascending.
pub open spec fn partner_counts(pairs: Seq<(usize, usize)>) -> Seq<usize> {
    let dp = distinct(pairs);
    sorted_asc(distinct(firsts(dp)).map_values(|x: usize| count_first(dp, x) as usize))
}

pub proof fn lemma_usize_le_total()
    ensures
        total_ordering(usize_le()),
{
}

/// `v` in ascending order.
pub fn sort_usize(v: Vec<usize>) -> (r: Vec<usize>)
    ensures
        r@ == sorted_asc(v@),
        r@.len() == v@.len(),
{
    let mut r: Vec<usize> = Vec::new();
    let mut k: usize = 0;
    proof {
        assert(v@.take(0) =~= r@);
    }
    while k < v.len()
        invariant
            k <= v@.len(),
            r@.to_multiset() == v@.take(k as int).to_multiset(),
            sorted_by(r@, usize_le()),
        decreases v@.len() - k,
    {
        let x = v[k];
        let mut j: usize = 0;
        while j < r.len() && r[j] <= x
            invariant
                j <= r@.len(),
                forall|i: int| 0 <= i < j ==> #[trigger] r@[i] <= x,
            decreases r@.len() - j,
        {
            j = j + 1;
        }
        let ghost old_r = r@;
        r.insert(j, x);
        proof {
            broadcast use vstd::seq_lib::group_to_multiset_ensures;
            assert(r@ =~= old_r.insert(j as int, x));
            assert(v@.take(k as int + 1) =~= v@.take(k as int).push(x));
            assert forall|a: int, b: int| 0 <= a < b < r@.len() implies #[trigger] (usize_le())(r@[a], r@[b]) by {
                if j < old_r.len() {
                    assert(x < old_r[j as int]);
                }
                if a < j && b < j {
                    assert(usize_le()(old_r[a], old_r[b]));
                } else if a > j && b > j {
                    assert(usize_le()(old_r[a - 1], old_r[b - 1]));
                } else if a < j && b == j {
                } else if a < j && b > j {
                    assert(usize_le()(old_r[j as int], old_r[b - 1]) || j == b - 1);
                } else {
                    if b - 1 > j {
                        assert(usize_le()(old_r[j as int], old_r[b - 1]));
                    }
                }
            }
        }
        k = k + 1;
    }
    proof {
        assert(v@.take(k as int) =~= v@);
        lemma_usize_le_total();
        v@.lemma_sort_by_ensures(usize_le());
        lemma_sorted_unique(r@, v@.sort_by(usize_le()), usize_le());
        broadcast use vstd::seq_lib::group_to_multiset_ensures;
        assert(r@.to_multiset().len() == v@.to_multiset().len());
    }
    r
}

/// Sorting keeps the length.
pub proof fn lemma_sorted_asc_len(s: Seq<usize>)
    ensures
        sorted_asc(s).len() == s.len(),
{
    broadcast use vstd::seq_lib::group_to_multiset_ensures;
    lemma_usize_le_total();
    s.lemma_sort_by_ensures(usize_le());
    assert(s.to_multiset().len() == s.sort_by(usize_le()).to_multiset().len());
}

/// The values `ps` pairs with `x`.
pub open spec fn partners(ps: Seq<(usize, usize)>, x: usize) -> Set<usize> {
    Set::new(|y: usize| ps.contains((x, y)))
}

/// The first components of `ps`, each once.
pub open spec fn pair_keys(ps: Seq<(usize, usize)>) -> Seq<usize> {
    distinct(firsts(distinct(ps)))
}

proof fn lemma_count_first_is_partners(qs: Seq<(usize, usize)>, x: usize)
    requires
        qs.no_duplicates(),
    ensures
        partners(qs, x).finite(),
        count_first(qs, x) == partners(qs, x).len(),
    decreases qs.len(),
{
    if qs.len() == 0 {
        assert(partners(qs, x) =~= Set::empty());
    } else {
        let rest = qs.drop_last();
        let l = qs.last();
        assert(rest.no_duplicates()) by {
            assert forall|i: int, j: int| 0 <= i < rest.len() && 0 <= j < rest.len() && i != j implies rest[i]
                != rest[j] by {
                assert(rest[i] == qs[i] && rest[j] == qs[j]);
            }
        }
        lemma_count_first_is_partners(rest, x);
        assert forall|y: usize| qs.contains((x, y)) <==> (rest.contains((x, y)) || l == (x, y)) by {
            if qs.contains((x, y)) {
                let k = choose|k: int| 0 <= k < qs.len() && qs[k] == (x, y);
                if k < qs.len() - 1 {
                    assert(rest[k] == (x, y));
                }
            }
            if rest.contains((x, y)) {
                let k = choose|k: int| 0 <= k < rest.len() && rest[k] == (x, y);
                assert(qs[k] == (x, y));
            }
            if l == (x, y) {
                assert(qs[qs.len() - 1] == (x, y));
            }
        }
        if l.0 == x {
            assert(partners(qs, x) =~= partners(rest, x).insert(l.1));
            assert(!partners(rest, x).contains(l.1)) by {
                if rest.contains((x, l.1)) {
                    let k = choose|k: int| 0 <= k < rest.len() && rest[k] == (x, l.1);
                    assert(qs[k] == qs[qs.len() - 1]);
                }
            }
        } else {
            assert(partners(qs, x) =~= partners(rest, x));
        }
    }
}

/// `partner_counts` lists, ascending, how many distinct partners each first
/// component has: one entry per first component occurring in the pairs.
pub proof fn lemma_partner_counts_are_partner_sets(ps: Seq<(usize, usize)>)
    ensures
        pair_keys(ps).no_duplicates(),
        forall|x: usize| #[trigger] pair_keys(ps).contains(x) <==> exists|y: usize| ps.contains((x, y)),
        forall|x: usize| #[trigger] partners(ps, x).finite(),
        partner_counts(ps) == sorted_asc(pair_keys(ps).map_values(|x: usize| partners(ps, x).len() as usize)),
{
    let dp = distinct(ps);
    lemma_distinct_props(ps);
    lemma_distinct_props(firsts(dp));
    assert forall|x: usize| partners(dp, x) == partners(ps, x) by {
        assert(partners(dp, x) =~= partners(ps, x));
    }
    assert forall|x: usize| #[trigger] partners(ps, x).finite() by {
        lemma_count_first_is_partners(dp, x);
    }
    assert forall|x: usize| #[trigger] pair_keys(ps).contains(x) <==> exists|y: usize| ps.contains((x, y)) by {
        if pair_keys(ps).contains(x) {
            assert(firsts(dp).contains(x));
            let k = choose|k: int| 0 <= k < firsts(dp).len() && firsts(dp)[k] == x;
            assert(dp.contains(dp[k]));
            assert(ps.contains((x, dp[k].1)));
        }
        if exists|y: usize| ps.contains((x, y)) {
            let y = choose|y: usize| ps.contains((x, y));
            assert(dp.contains((x, y)));
            let k = choose|k: int| 0 <= k < dp.len() && dp[k] == (x, y);
            assert(firsts(dp)[k] == x);
            assert(firsts(dp).contains(x));
        }
    }
    let keys = pair_keys(ps);
    assert forall|i: int| 0 <= i < keys.len() implies count_first(dp, keys[i]) as usize == partners(ps, keys[i]).len()
        as usize by {
        lemma_count_first_is_partners(dp, keys[i]);
    }
    assert(keys.map_values(|x: usize| count_first(dp, x) as usize) =~= keys.map_values(
        |x: usize| partners(ps, x).len() as usize,
    ));
}

/// Nothing occurs twice in `distinct(xs)`, and it holds exactly the values of `xs`.
pub proof fn lemma_distinct_props<T>(xs: Seq<T>)
    ensures
        distinct(xs).no_duplicates(),
        distinct(xs).len() <= xs.len(),
        forall|v: T| distinct(xs).contains(v) <==> xs.contains(v),
    decreases xs.len(),
{
    if xs.len() > 0 {
        let rest = xs.drop_last();
        lemma_distinct_props(rest);
        let d = distinct(rest);
        assert forall|v: T| distinct(xs).contains(v) <==> xs.contains(v) by {
            if xs.contains(v) {
                let k = choose|k: int| 0 <= k < xs.len() && xs[k] == v;
                if k < xs.len() - 1 {
                    assert(rest[k] == v);
                    assert(rest.contains(v));
                    assert(d.contains(v));
                    let j = choose|j: int| 0 <= j < d.len() && d[j] == v;
                    assert(distinct(xs)[j] == v);
                } else {
                    assert(v == xs.last());
                    if !d.contains(v) {
                        assert(distinct(xs)[d.len() as int] == v);
                    }
                }
            }
            if distinct(xs).contains(v) {
                let k = choose|k: int| 0 <= k < distinct(xs).len() && distinct(xs)[k] == v;
                if k < d.len() {
                    assert(d[k] == v);
                    assert(d.contains(v));
                    assert(rest.contains(v));
                    let j = choose|j: int| 0 <= j < rest.len() && rest[j] == v;
                    assert(xs[j] == v);
                } else {
                    assert(xs[xs.len() - 1] == v);
                }
            }
        }
    }
}

/// Entries of `gs` equal to `x`.
pub open spec fn occurrences(gs: Seq<usize>, x: usize) -> nat
    decreases gs.len(),
{
    if gs.len() == 0 {
        0
    } else {
        occurrences(gs.drop_last(), x) + if gs.last() == x {
            1nat
        } else {
            0nat
        }
    }
}

/// Pairs of `ps` whose first component is one of `gs`, counted per entry of `gs`.
pub open spec fn sum_first_counts(ps: Seq<(usize, usize)>, gs: Seq<usize>) -> nat
    decreases gs.len(),
{
    if gs.len() == 0 {
        0
    } else {
        sum_first_counts(ps, gs.drop_last()) + count_first(ps, gs.last())
    }
}

proof fn lemma_occurrences_absent(gs: Seq<usize>, x: usize)
    requires
        !gs.contains(x),
    ensures
        occurrences(gs, x) == 0,
    decreases gs.len(),
{
    if gs.len() > 0 {
        assert(!gs.drop_last().contains(x)) by {
            if gs.drop_last().contains(x) {
                let k = choose|k: int| 0 <= k < gs.drop_last().len() && gs.drop_last()[k] == x;
                assert(gs[k] == x);
            }
        }
        assert(gs[gs.len() - 1] != x);
        lemma_occurrences_absent(gs.drop_last(), x);
    }
}

proof fn lemma_occurrences_at_most_one(gs: Seq<usize>, x: usize)
    requires
        gs.no_duplicates(),
    ensures
        occurrences(gs, x) <= 1,
    decreases gs.len(),
{
    if gs.len() > 0 {
        let rest = gs.drop_last();
        assert(rest.no_duplicates());
        lemma_occurrences_at_most_one(rest, x);
        if gs.last() == x {
            assert(!rest.contains(x)) by {
                if rest.contains(x) {
                    let k = choose|k: int| 0 <= k < rest.len() && rest[k] == x;
                    assert(gs[k] == gs[gs.len() - 1]);
                }
            }
            lemma_occurrences_absent(rest, x);
        }
    }
}

proof fn lemma_sum_first_counts_step(ps: Seq<(usize, usize)>, gs: Seq<usize>)
    requires
        ps.len() > 0,
    ensures
        sum_first_counts(ps, gs) == sum_first_counts(ps.drop_last(), gs) + occurrences(gs, ps.last().0),
    decreases gs.len(),
{
    if gs.len() > 0 {
        lemma_sum_first_counts_step(ps, gs.drop_last());
    }
}

/// Counting the pairs of each first component, over first components that
/// never repeat, counts no pair twice.
pub proof fn lemma_sum_first_counts_le(ps: Seq<(usize, usize)>, gs: Seq<usize>)
    requires
        gs.no_duplicates(),
    ensures
        sum_first_counts(ps, gs) <= ps.len(),
    decreases ps.len(),
{
    if ps.len() == 0 {
        lemma_sum_first_counts_empty(ps, gs);
    } else {
        lemma_sum_first_counts_le(ps.drop_last(), gs);
        lemma_sum_first_counts_step(ps, gs);
        lemma_occurrences_at_most_one(gs, ps.last().0);
    }
}

proof fn lemma_sum_first_counts_empty(ps: Seq<(usize, usize)>, gs: Seq<usize>)
    requires
        ps.len() == 0,
    ensures
        sum_first_counts(ps, gs) == 0,
    decreases gs.len(),
{
    if gs.len() > 0 {
        lemma_sum_first_counts_empty(ps, gs.drop_last());
    }
}

proof fn lemma_distinct_take<T>(xs: Seq<T>, i: int)
    requires
        0 <= i < xs.len(),
    ensures
        distinct(xs.take(i + 1)) == if distinct(xs.take(i)).contains(xs[i]) {
            distinct(xs.take(i))
        } else {
            distinct(xs.take(i)).push(xs[i])
        },
{
    assert(xs.take(i + 1).drop_last() =~= xs.take(i));
}

proof fn lemma_count_first_take(ps: Seq<(usize, usize)>, i: int, x: usize)
    requires
        0 <= i < ps.len(),
    ensures
        count_first(ps.take(i + 1), x) == count_first(ps.take(i), x) + if ps[i].0 == x {
            1nat
        } else {
            0nat
        },
{
    assert(ps.take(i + 1).drop_last() =~= ps.take(i));
}

proof fn lemma_count_first_le(ps: Seq<(usize, usize)>, x: usize)
    ensures
        count_first(ps, x) <= ps.len(),
    decreases ps.len(),
{
    if ps.len() > 0 {
        lemma_count_first_le(ps.drop_last(), x);
    }
}

fn contains_usize(v: &Vec<usize>, x: usize) -> (b: bool)
    ensures
        b == v@.contains(x),
{
    let mut i: usize = 0;
    while i < v.len()
        invariant
            i <= v@.len(),
            forall|j: int| 0 <= j < i ==> #[trigger] v@[j] != x,
        decreases v@.len() - i,
    {
        if v[i] == x {
            return true;
        }
        i = i + 1;
    }
    false
}

fn contains_pair(v: &Vec<(usize, usize)>, x: (usize, usize)) -> (b: bool)
    ensures
        b == v@.contains(x),
{
    let mut i: usize = 0;
    while i < v.len()
        invariant
            i <= v@.len(),
            forall|j: int| 0 <= j < i ==> #[trigger] v@[j] != x,
        decreases v@.len() - i,
    {
        if v[i].0 == x.0 && v[i].1 == x.1 {
            return true;
        }
        i = i + 1;
    }
    false
}

/// The values of `xs`, each once, in order of first appearance.
pub fn distinct_usize(xs: &Vec<usize>) -> (r: Vec<usize>)
    ensures
        r@ == distinct(xs@),
{
    let mut r: Vec<usize> = Vec::new();
    let mut i: usize = 0;
    while i < xs.len()
        invariant
            i <= xs@.len(),
            r@ == distinct(xs@.take(i as int)),
        decreases xs@.len() - i,
    {
        proof {
            lemma_distinct_take(xs@, i as int);
        }
        if !contains_usize(&r, xs[i]) {
            r.push(xs[i]);
        }
        i = i + 1;
    }
    assert(xs@.take(i as int) =~= xs@);
    r
}

/// The pairs of `xs`, each once, in order of first appearance.
pub fn distinct_pairs(xs: &Vec<(usize, usize)>) -> (r: Vec<(usize, usize)>)
    ensures
        r@ == distinct(xs@),
{
    let mut r: Vec<(usize, usize)> = Vec::new();
    let mut i: usize = 0;
    while i < xs.len()
        invariant
            i <= xs@.len(),
            r@ == distinct(xs@.take(i as int)),
        decreases xs@.len() - i,
    {
        proof {
            lemma_distinct_take(xs@, i as int);
        }
        if !contains_pair(&r, xs[i]) {
            r.push(xs[i]);
        }
        i = i + 1;
    }
    assert(xs@.take(i as int) =~= xs@);
    r
}

fn count_first_exec(ps: &Vec<(usize, usize)>, x: usize) -> (c: usize)
    ensures
        c == count_first(ps@, x),
{
    let mut c: usize = 0;
    let mut i: usize = 0;
    while i < ps.len()
        invariant
            i <= ps@.len(),
            c == count_first(ps@.take(i as int), x),
        decreases ps@.len() - i,
    {
        proof {
            lemma_count_first_take(ps@, i as int, x);
            lemma_count_first_le(ps@.take(i as int), x);
        }
        if ps[i].0 == x {
            c = c + 1;
        }
        i = i + 1;
    }
    assert(ps@.take(i as int) =~= ps@);
    c
}

/// For each distinct first component of the distinct pairs, how many distinct
/// partners it has, ascending.
pub fn partner_counts_exec(pairs: &Vec<(usize, usize)>) -> (r: Vec<usize>)
    ensures
        r@ == partner_counts(pairs@),
{
    let dp = distinct_pairs(pairs);
    let mut fs: Vec<usize> = Vec::new();
    let mut i: usize = 0;
    while i < dp.len()
        invariant
            i <= dp@.len(),
            fs@ == firsts(dp@).take(i as int),
        decreases dp@.len() - i,
    {
        fs.push(dp[i].0);
        proof {
            assert(firsts(dp@).take(i as int + 1) =~= firsts(dp@).take(i as int).push(dp@[i as int].0));
        }
        i = i + 1;
    }
    assert(firsts(dp@).take(i as int) =~= firsts(dp@));
    let xs = distinct_usize(&fs);
    let mut counts: Vec<usize> = Vec::new();
    let mut k: usize = 0;
    while k < xs.len()
        invariant
            k <= xs@.len(),
            counts@ == xs@.map_values(|x: usize| count_first(dp@, x) as usize).take(k as int),
        decreases xs@.len() - k,
    {
        let c = count_first_exec(&dp, xs[k]);
        counts.push(c);
        proof {
            let f = |x: usize| count_first(dp@, x) as usize;
            assert(xs@.map_values(f).take(k as int + 1) =~= xs@.map_values(f).take(k as int).push(f(xs@[k as int])));
        }
        k = k + 1;
    }
    assert(xs@.map_values(|x: usize| count_first(dp@, x) as usize).take(k as int) =~= xs@.map_values(
        |x: usize| count_first(dp@, x) as usize,
    ));
    sort_usize(counts)
}

} // verus!
