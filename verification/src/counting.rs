//! Counting the candidates that a sequence of flags still allows.

use vstd::prelude::*;
use vstd::relations::injective_on;
use vstd::set_lib::{lemma_int_range, lemma_map_size, lemma_subset_equality, set_int_range};

verus! {

/// The number of `true` entries of `s`.
pub open spec fn count_true(s: Seq<bool>) -> nat
    decreases s.len(),
{
    if s.len() == 0 {
        0
    } else {
        count_true(s.drop_last()) + if s.last() {
            1nat
        } else {
            0nat
        }
    }
}

/// The index of the first `true` entry of `s`, or `s.len()` if there is none.
pub open spec fn first_true(s: Seq<bool>) -> int
    decreases s.len(),
{
    if s.len() == 0 {
        0
    } else if first_true(s.drop_last()) < s.len() - 1 {
        first_true(s.drop_last())
    } else if s.last() {
        s.len() - 1
    } else {
        s.len() as int
    }
}

/// `a` allows nothing that `b` forbids.
pub open spec fn flags_within(a: Seq<bool>, b: Seq<bool>) -> bool {
    &&& a.len() == b.len()
    &&& forall|i: int| 0 <= i < a.len() && a[i] ==> b[i]
}

/// No more entries are `true` than there are entries.
pub proof fn lemma_count_bounds(s: Seq<bool>)
    ensures
        count_true(s) <= s.len(),
    decreases s.len(),
{
    if s.len() > 0 {
        lemma_count_bounds(s.drop_last());
    }
}

/// One entry more counts one more if that entry is `true`.
pub proof fn lemma_count_prefix_step(s: Seq<bool>, k: int)
    requires
        0 <= k < s.len(),
    ensures
        count_true(s.take(k + 1)) == count_true(s.take(k)) + if s[k] {
            1nat
        } else {
            0nat
        },
{
    assert(s.take(k + 1).drop_last() =~= s.take(k));
}

/// A sequence counts zero if and only if no entry is `true`.
pub proof fn lemma_count_zero(s: Seq<bool>)
    ensures
        count_true(s) == 0 <==> forall|i: int| 0 <= i < s.len() ==> !s[i],
    decreases s.len(),
{
    if s.len() > 0 {
        let t = s.drop_last();
        lemma_count_zero(t);
        if count_true(s) == 0 {
            assert forall|i: int| 0 <= i < s.len() implies !s[i] by {
                if i < s.len() - 1 {
                    assert(t[i] == s[i]);
                }
            }
        } else {
            if count_true(t) != 0 {
                let i = choose|i: int| 0 <= i < t.len() && t[i];
                assert(s[i]);
            }
        }
    }
}

/// A sequence counts its length if and only if every entry is `true`.
pub proof fn lemma_count_full(s: Seq<bool>)
    ensures
        count_true(s) == s.len() <==> forall|i: int| 0 <= i < s.len() ==> s[i],
    decreases s.len(),
{
    if s.len() > 0 {
        let t = s.drop_last();
        lemma_count_full(t);
        lemma_count_bounds(t);
        if count_true(s) == s.len() {
            assert forall|i: int| 0 <= i < s.len() implies s[i] by {
                if i < s.len() - 1 {
                    assert(t[i] == s[i]);
                }
            }
        } else {
            if count_true(t) != t.len() {
                let i = choose|i: int| 0 <= i < t.len() && !t[i];
                assert(!s[i]);
            }
        }
    }
}

/// Setting one entry changes the count by that entry alone.
pub proof fn lemma_count_update(s: Seq<bool>, i: int, v: bool)
    requires
        0 <= i < s.len(),
    ensures
        count_true(s.update(i, v)) + (if s[i] {
            1nat
        } else {
            0nat
        }) == count_true(s) + (if v {
            1nat
        } else {
            0nat
        }),
    decreases s.len(),
{
    let u = s.update(i, v);
    if i == s.len() - 1 {
        assert(u.drop_last() =~= s.drop_last());
    } else {
        assert(u.drop_last() =~= s.drop_last().update(i, v));
        lemma_count_update(s.drop_last(), i, v);
    }
}

/// A sequence with a `true` entry counts at least one.
pub proof fn lemma_count_positive(s: Seq<bool>, i: int)
    requires
        0 <= i < s.len(),
        s[i],
    ensures
        count_true(s) >= 1,
{
    lemma_count_zero(s);
}

/// A sequence with two distinct `true` entries counts at least two.
pub proof fn lemma_count_two(s: Seq<bool>, i: int, j: int)
    requires
        0 <= i < s.len(),
        0 <= j < s.len(),
        i != j,
        s[i],
        s[j],
    ensures
        count_true(s) >= 2,
{
    let t = s.update(i, false);
    lemma_count_update(s, i, false);
    lemma_count_positive(t, j);
}

/// A sequence that counts one has its only `true` entry at `first_true`.
pub proof fn lemma_count_one(s: Seq<bool>)
    requires
        count_true(s) == 1,
    ensures
        0 <= first_true(s) < s.len(),
        s[first_true(s)],
        forall|i: int| 0 <= i < s.len() && s[i] ==> i == first_true(s),
{
    lemma_first_true(s);
    lemma_count_zero(s);
    let f = first_true(s);
    assert forall|i: int| 0 <= i < s.len() && s[i] implies i == f by {
        if i != f {
            lemma_count_two(s, i, f);
        }
    }
}

/// A sequence whose only `true` entry is at `d` counts one.
pub proof fn lemma_count_one_at(s: Seq<bool>, d: int)
    requires
        0 <= d < s.len(),
        s[d],
        forall|i: int| 0 <= i < s.len() && s[i] ==> i == d,
    ensures
        count_true(s) == 1,
        first_true(s) == d,
{
    let t = s.update(d, false);
    lemma_count_update(s, d, false);
    lemma_count_zero(t);
    lemma_first_true(s);
}

/// What `first_true` finds.
pub proof fn lemma_first_true(s: Seq<bool>)
    ensures
        0 <= first_true(s) <= s.len(),
        first_true(s) < s.len() ==> s[first_true(s)],
        forall|i: int| 0 <= i < first_true(s) ==> !s[i],
    decreases s.len(),
{
    if s.len() > 0 {
        let t = s.drop_last();
        lemma_first_true(t);
        assert forall|i: int| 0 <= i < first_true(s) implies !s[i] by {
            if i < t.len() {
                assert(t[i] == s[i]);
            }
        }
    }
}

/// Allowing less counts less.
pub proof fn lemma_count_within(a: Seq<bool>, b: Seq<bool>)
    requires
        flags_within(a, b),
    ensures
        count_true(a) <= count_true(b),
    decreases a.len(),
{
    if a.len() > 0 {
        let ta = a.drop_last();
        let tb = b.drop_last();
        assert forall|i: int| 0 <= i < ta.len() && ta[i] implies tb[i] by {
            assert(a[i] == ta[i] && b[i] == tb[i]);
        }
        lemma_count_within(ta, tb);
    }
}

/// Allowing less, and at `i` strictly less, counts strictly less.
pub proof fn lemma_count_within_strict(a: Seq<bool>, b: Seq<bool>, i: int)
    requires
        flags_within(a, b),
        0 <= i < a.len(),
        !a[i],
        b[i],
    ensures
        count_true(a) < count_true(b),
{
    let c = b.update(i, false);
    lemma_count_update(b, i, false);
    assert(flags_within(a, c));
    lemma_count_within(a, c);
}

/// Allowing less while counting the same is allowing the same.
pub proof fn lemma_count_within_equal(a: Seq<bool>, b: Seq<bool>)
    requires
        flags_within(a, b),
        count_true(a) == count_true(b),
    ensures
        a =~= b,
{
    assert forall|i: int| 0 <= i < a.len() implies a[i] == b[i] by {
        if a[i] != b[i] {
            lemma_count_within_strict(a, b, i);
        }
    }
}

/// A function that maps `0..n` into `0..n` without hitting a value twice
/// hits every value.
pub proof fn lemma_injection_is_onto(n: int, f: spec_fn(int) -> int, d: int)
    requires
        forall|k: int| 0 <= k < n ==> 0 <= #[trigger] f(k) < n,
        forall|k1: int, k2: int| 0 <= k1 < k2 < n ==> #[trigger] f(k1) != #[trigger] f(k2),
        0 <= d < n,
    ensures
        exists|k: int| 0 <= k < n && #[trigger] f(k) == d,
{
    let domain = set_int_range(0, n);
    let image = domain.map(f);
    lemma_int_range(0, n);
    assert(injective_on(f, domain)) by {
        assert forall|x1: int, x2: int|
            domain.contains(x1) && domain.contains(x2) && #[trigger] f(x1) == #[trigger] f(
                x2,
            ) implies x1 == x2 by {
            if x1 < x2 {
                assert(f(x1) != f(x2));
            } else if x2 < x1 {
                assert(f(x2) != f(x1));
            }
        }
    }
    lemma_map_size(domain, image, f);
    assert(image.subset_of(domain)) by {
        assert forall|y: int| image.contains(y) implies domain.contains(y) by {
            let x = choose|x: int| domain.contains(x) && y == f(x);
            assert(0 <= f(x) < n);
        }
    }
    lemma_subset_equality(image, domain);
    assert(domain.contains(d));
    assert(image.contains(d));
    let k = choose|k: int| domain.contains(k) && d == f(k);
    assert(0 <= k < n && f(k) == d);
}

} // verus!
