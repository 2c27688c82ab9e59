//! Counting over sequences of satellite indices and lit flags, shared by the
//! activation planners.

use vstd::prelude::*;

verus! {

/// Number of entries of `s` equal to `v`.
pub open spec fn count_of(s: Seq<usize>, v: usize) -> nat
    decreases s.len(),
{
    if s.len() == 0 {
        0
    } else {
        count_of(s.drop_last(), v) + if s.last() == v {
            1nat
        } else {
            0nat
        }
    }
}

/// Number of entries of `sats` naming a satellite that `active` has lit.
pub open spec fn count_lit(sats: Seq<usize>, active: Seq<bool>) -> nat
    decreases sats.len(),
{
    if sats.len() == 0 {
        0
    } else {
        count_lit(sats.drop_last(), active) + if active[sats.last() as int] {
            1nat
        } else {
            0nat
        }
    }
}

/// Number of `true` flags.
pub open spec fn count_true(a: Seq<bool>) -> nat
    decreases a.len(),
{
    if a.len() == 0 {
        0
    } else {
        count_true(a.drop_last()) + if a.last() {
            1nat
        } else {
            0nat
        }
    }
}

/// Every entry of `sats` is below `n`.
pub open spec fn all_below(sats: Seq<usize>, n: int) -> bool {
    forall|i: int| 0 <= i < sats.len() ==> #[trigger] sats[i] < n
}

pub proof fn lemma_count_of_push(s: Seq<usize>, x: usize, v: usize)
    ensures
        count_of(s.push(x), v) == count_of(s, v) + if x == v {
            1nat
        } else {
            0nat
        },
{
    assert(s.push(x).drop_last() =~= s);
}

pub proof fn lemma_count_lit_push(s: Seq<usize>, x: usize, active: Seq<bool>)
    ensures
        count_lit(s.push(x), active) == count_lit(s, active) + if active[x as int] {
            1nat
        } else {
            0nat
        },
{
    assert(s.push(x).drop_last() =~= s);
}

pub proof fn lemma_count_true_push(a: Seq<bool>, x: bool)
    ensures
        count_true(a.push(x)) == count_true(a) + if x {
            1nat
        } else {
            0nat
        },
{
    assert(a.push(x).drop_last() =~= a);
}

/// A prefix one longer counts its last entry once more.
pub proof fn lemma_count_of_take(s: Seq<usize>, k: int, v: usize)
    requires
        0 <= k < s.len(),
    ensures
        count_of(s.take(k + 1), v) == count_of(s.take(k), v) + if s[k] == v {
            1nat
        } else {
            0nat
        },
{
    assert(s.take(k + 1) =~= s.take(k).push(s[k]));
    lemma_count_of_push(s.take(k), s[k], v);
}

pub proof fn lemma_count_lit_take(s: Seq<usize>, k: int, active: Seq<bool>)
    requires
        0 <= k < s.len(),
    ensures
        count_lit(s.take(k + 1), active) == count_lit(s.take(k), active) + if active[s[k] as int] {
            1nat
        } else {
            0nat
        },
{
    assert(s.take(k + 1) =~= s.take(k).push(s[k]));
    lemma_count_lit_push(s.take(k), s[k], active);
}

pub proof fn lemma_count_true_take(a: Seq<bool>, k: int)
    requires
        0 <= k < a.len(),
    ensures
        count_true(a.take(k + 1)) == count_true(a.take(k)) + if a[k] {
            1nat
        } else {
            0nat
        },
{
    assert(a.take(k + 1) =~= a.take(k).push(a[k]));
    lemma_count_true_push(a.take(k), a[k]);
}

/// A prefix never counts more than the whole.
pub proof fn lemma_count_of_take_le(s: Seq<usize>, k: int, v: usize)
    requires
        0 <= k <= s.len(),
    ensures
        count_of(s.take(k), v) <= count_of(s, v),
    decreases s.len() - k,
{
    if k < s.len() {
        lemma_count_of_take(s, k, v);
        lemma_count_of_take_le(s, k + 1, v);
    } else {
        assert(s.take(k) =~= s);
    }
}

/// An entry is present exactly when it is counted.
pub proof fn lemma_count_of_contains(s: Seq<usize>, v: usize)
    ensures
        count_of(s, v) > 0 <==> s.contains(v),
    decreases s.len(),
{
    if s.len() > 0 {
        lemma_count_of_contains(s.drop_last(), v);
        if s.drop_last().contains(v) {
            let i = choose|i: int| 0 <= i < s.drop_last().len() && s.drop_last()[i] == v;
            assert(s[i] == v);
        }
        if s.contains(v) {
            let i = choose|i: int| 0 <= i < s.len() && s[i] == v;
            if i < s.len() - 1 {
                assert(s.drop_last()[i] == v);
            }
        }
    }
}

/// A sequence without repeats counts each value at most once.
pub proof fn lemma_count_of_no_dup(s: Seq<usize>, v: usize)
    requires
        s.no_duplicates(),
    ensures
        count_of(s, v) <= 1,
    decreases s.len(),
{
    if s.len() > 0 {
        lemma_count_of_no_dup(s.drop_last(), v);
        if s.last() == v {
            if count_of(s.drop_last(), v) > 0 {
                lemma_count_of_contains(s.drop_last(), v);
                let i = choose|i: int| 0 <= i < s.drop_last().len() && s.drop_last()[i] == v;
                assert(s[i] == s[s.len() - 1]);
            }
        }
    }
}

pub proof fn lemma_count_lit_le_len(sats: Seq<usize>, active: Seq<bool>)
    ensures
        count_lit(sats, active) <= sats.len(),
    decreases sats.len(),
{
    if sats.len() > 0 {
        lemma_count_lit_le_len(sats.drop_last(), active);
    }
}

pub proof fn lemma_count_true_le_len(a: Seq<bool>)
    ensures
        count_true(a) <= a.len(),
    decreases a.len(),
{
    if a.len() > 0 {
        lemma_count_true_le_len(a.drop_last());
    }
}

/// With some entry dark, fewer than all entries are lit.
pub proof fn lemma_count_lit_dark_entry(sats: Seq<usize>, active: Seq<bool>, i: int)
    requires
        0 <= i < sats.len(),
        !active[sats[i] as int],
    ensures
        count_lit(sats, active) < sats.len(),
    decreases sats.len(),
{
    if i == sats.len() - 1 {
        lemma_count_lit_le_len(sats.drop_last(), active);
    } else {
        lemma_count_lit_dark_entry(sats.drop_last(), active, i);
    }
}

/// With some entry lit, at least one entry is counted.
pub proof fn lemma_count_lit_lit_entry(sats: Seq<usize>, active: Seq<bool>, i: int)
    requires
        0 <= i < sats.len(),
        active[sats[i] as int],
    ensures
        count_lit(sats, active) >= 1,
    decreases sats.len(),
{
    if i < sats.len() - 1 {
        lemma_count_lit_lit_entry(sats.drop_last(), active, i);
    }
}

/// A count above zero is witnessed by a lit entry.
pub proof fn lemma_count_lit_witness(sats: Seq<usize>, active: Seq<bool>) -> (i: int)
    requires
        count_lit(sats, active) > 0,
    ensures
        0 <= i < sats.len(),
        active[sats[i] as int],
    decreases sats.len(),
{
    if active[sats.last() as int] {
        sats.len() - 1
    } else {
        lemma_count_lit_witness(sats.drop_last(), active)
    }
}

/// With every entry lit, every entry is counted.
pub proof fn lemma_all_lit_counts_all(sats: Seq<usize>, active: Seq<bool>)
    requires
        forall|i: int| 0 <= i < sats.len() ==> active[#[trigger] sats[i] as int],
    ensures
        count_lit(sats, active) == sats.len(),
    decreases sats.len(),
{
    if sats.len() > 0 {
        assert forall|i: int| 0 <= i < sats.drop_last().len() implies active[#[trigger] sats.drop_last()[i] as int] by {
            assert(sats.drop_last()[i] == sats[i]);
        }
        lemma_all_lit_counts_all(sats.drop_last(), active);
        assert(active[sats[sats.len() - 1] as int]);
    }
}

/// Lighting a dark satellite adds every entry that names it.
pub proof fn lemma_count_lit_switch_on(sats: Seq<usize>, active: Seq<bool>, t: usize)
    requires
        all_below(sats, active.len() as int),
        t < active.len(),
        !active[t as int],
    ensures
        count_lit(sats, active.update(t as int, true)) == count_lit(sats, active) + count_of(
            sats,
            t,
        ),
    decreases sats.len(),
{
    if sats.len() > 0 {
        assert(all_below(sats.drop_last(), active.len() as int)) by {
            assert forall|i: int| 0 <= i < sats.drop_last().len() implies #[trigger] sats.drop_last()[i]
                < active.len() by {
                assert(sats[i] < active.len());
            }
        }
        lemma_count_lit_switch_on(sats.drop_last(), active, t);
        assert(sats[sats.len() - 1] < active.len());
    }
}

/// Switching off a lit satellite removes every entry that names it.
pub proof fn lemma_count_lit_switch_off(sats: Seq<usize>, active: Seq<bool>, t: usize)
    requires
        all_below(sats, active.len() as int),
        t < active.len(),
        active[t as int],
    ensures
        count_lit(sats, active.update(t as int, false)) + count_of(sats, t) == count_lit(
            sats,
            active,
        ),
    decreases sats.len(),
{
    if sats.len() > 0 {
        assert(all_below(sats.drop_last(), active.len() as int)) by {
            assert forall|i: int| 0 <= i < sats.drop_last().len() implies #[trigger] sats.drop_last()[i]
                < active.len() by {
                assert(sats[i] < active.len());
            }
        }
        lemma_count_lit_switch_off(sats.drop_last(), active, t);
        assert(sats[sats.len() - 1] < active.len());
    }
}

/// A lit satellite contributes all of its entries to the count.
pub proof fn lemma_count_lit_ge_count_of(sats: Seq<usize>, active: Seq<bool>, t: usize)
    requires
        all_below(sats, active.len() as int),
        t < active.len(),
        active[t as int],
    ensures
        count_lit(sats, active) >= count_of(sats, t),
{
    lemma_count_lit_switch_off(sats, active, t);
}

/// Switching a satellite off never raises a count.
pub proof fn lemma_count_lit_off_le(sats: Seq<usize>, active: Seq<bool>, t: usize)
    requires
        all_below(sats, active.len() as int),
        t < active.len(),
    ensures
        count_lit(sats, active.update(t as int, false)) <= count_lit(sats, active),
{
    if active[t as int] {
        lemma_count_lit_switch_off(sats, active, t);
    } else {
        assert(active.update(t as int, false) =~= active);
    }
}

pub proof fn lemma_count_true_all_dark(a: Seq<bool>)
    requires
        forall|i: int| 0 <= i < a.len() ==> !#[trigger] a[i],
    ensures
        count_true(a) == 0,
    decreases a.len(),
{
    if a.len() > 0 {
        lemma_count_true_all_dark(a.drop_last());
    }
}

pub proof fn lemma_count_true_switch(a: Seq<bool>, t: int, v: bool)
    requires
        0 <= t < a.len(),
        a[t] != v,
    ensures
        v ==> count_true(a.update(t, v)) == count_true(a) + 1,
        !v ==> count_true(a.update(t, v)) + 1 == count_true(a),
    decreases a.len(),
{
    if t == a.len() - 1 {
        assert(a.update(t, v).drop_last() =~= a.drop_last());
    } else {
        assert(a.update(t, v).drop_last() =~= a.drop_last().update(t, v));
        lemma_count_true_switch(a.drop_last(), t, v);
    }
}

/// Number of entries of `sats` that `active` has lit.
pub fn count_lit_exec(sats: &Vec<usize>, active: &Vec<bool>) -> (c: usize)
    requires
        all_below(sats@, active@.len() as int),
    ensures
        c == count_lit(sats@, active@),
{
    let mut c: usize = 0;
    let mut i: usize = 0;
    while i < sats.len()
        invariant
            i <= sats.len(),
            all_below(sats@, active@.len() as int),
            c == count_lit(sats@.take(i as int), active@),
        decreases sats.len() - i,
    {
        proof {
            lemma_count_lit_take(sats@, i as int, active@);
            lemma_count_lit_le_len(sats@.take(i as int), active@);
        }
        assert(sats@[i as int] < active@.len());
        if active[sats[i]] {
            c = c + 1;
        }
        i = i + 1;
    }
    assert(sats@.take(i as int) =~= sats@);
    c
}

/// Number of lit flags.
pub fn count_true_exec(a: &Vec<bool>) -> (c: usize)
    ensures
        c == count_true(a@),
{
    let mut c: usize = 0;
    let mut i: usize = 0;
    while i < a.len()
        invariant
            i <= a.len(),
            c == count_true(a@.take(i as int)),
        decreases a.len() - i,
    {
        proof {
            lemma_count_true_take(a@, i as int);
            lemma_count_true_le_len(a@.take(i as int));
        }
        if a[i] {
            c = c + 1;
        }
        i = i + 1;
    }
    assert(a@.take(i as int) =~= a@);
    c
}

} // verus!
