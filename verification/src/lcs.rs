use vstd::prelude::*;

verus! {

/// The larger of two naturals.
pub open spec fn max_nat(a: nat, b: nat) -> nat {
    if a >= b { a } else { b }
}

/// Length of a longest common subsequence of the first `k` source items and the
/// first `l` destination items, where `m(a, b)` says that source item `a` and
/// destination item `b` may be paired.
pub open spec fn lcs_len(m: spec_fn(int, int) -> bool, k: int, l: int) -> nat
    decreases k, l,
{
    if k <= 0 || l <= 0 {
        0
    } else if m(k - 1, l - 1) {
        lcs_len(m, k - 1, l - 1) + 1
    } else {
        max_nat(lcs_len(m, k, l - 1), lcs_len(m, k - 1, l))
    }
}

/// `c` pairs source and destination positions below `k` and `l`, every pair
/// allowed by `m`, both coordinates strictly increasing along `c`: a common
/// subsequence.
pub open spec fn is_common_chain(
    m: spec_fn(int, int) -> bool,
    k: int,
    l: int,
    c: Seq<(int, int)>,
) -> bool {
    &&& forall|x: int|
        0 <= x < c.len() ==> 0 <= #[trigger] c[x].0 < k && 0 <= c[x].1 < l && m(c[x].0, c[x].1)
    &&& forall|x: int, y: int|
        0 <= x < y < c.len() ==> #[trigger] c[x].0 < #[trigger] c[y].0 && c[x].1 < c[y].1
}

/// The table of `lcs_len` for every pair of prefix lengths up to `n1` and `n2`,
/// stored as `u32`.
pub open spec fn is_lcs_table(t: Seq<Seq<u32>>, m: spec_fn(int, int) -> bool, n1: int, n2: int) -> bool {
    &&& t.len() == n1 + 1
    &&& forall|k: int| 0 <= k <= n1 ==> (#[trigger] t[k]).len() == n2 + 1
    &&& forall|k: int, l: int| 0 <= k <= n1 && 0 <= l <= n2 ==> t[k][l] == lcs_len(m, k, l)
}

/// A common subsequence is never longer than the prefixes it is drawn from.
pub proof fn lemma_lcs_len_bounded(m: spec_fn(int, int) -> bool, k: int, l: int)
    requires
        0 <= k,
        0 <= l,
    ensures
        lcs_len(m, k, l) <= k,
        lcs_len(m, k, l) <= l,
    decreases k, l,
{
    if k > 0 && l > 0 {
        if m(k - 1, l - 1) {
            lemma_lcs_len_bounded(m, k - 1, l - 1);
        } else {
            lemma_lcs_len_bounded(m, k, l - 1);
            lemma_lcs_len_bounded(m, k - 1, l);
        }
    }
}

/// A chain inside smaller prefixes is a chain inside larger ones.
proof fn lemma_chain_widen(m: spec_fn(int, int) -> bool, k: int, l: int, k2: int, l2: int, c: Seq<(int, int)>)
    requires
        is_common_chain(m, k, l, c),
        k <= k2,
        l <= l2,
    ensures
        is_common_chain(m, k2, l2, c),
{
}

/// No common subsequence is longer than `lcs_len`.
proof fn lemma_lcs_upper_bound(m: spec_fn(int, int) -> bool, k: int, l: int, c: Seq<(int, int)>)
    requires
        is_common_chain(m, k, l, c),
    ensures
        c.len() <= lcs_len(m, k, l),
    decreases k, l,
{
    if c.len() == 0 {
        return;
    }
    let last = c[c.len() - 1];
    assert(0 <= last.0 < k && 0 <= last.1 < l);
    if m(k - 1, l - 1) {
        let p = c.drop_last();
        assert forall|x: int| 0 <= x < p.len() implies 0 <= #[trigger] p[x].0 < k - 1 && 0 <= p[x].1 < l - 1
            && m(p[x].0, p[x].1) by {
            assert(c[x].0 < c[c.len() - 1].0);
        }
        assert forall|x: int, y: int| 0 <= x < y < p.len() implies #[trigger] p[x].0 < #[trigger] p[y].0
            && p[x].1 < p[y].1 by {
            assert(c[x].0 < c[y].0);
        }
        lemma_lcs_upper_bound(m, k - 1, l - 1, p);
    } else if last.0 < k - 1 {
        assert forall|x: int| 0 <= x < c.len() implies 0 <= #[trigger] c[x].0 < k - 1 by {
            if x < c.len() - 1 {
                assert(c[x].0 < c[c.len() - 1].0);
            }
        }
        lemma_lcs_upper_bound(m, k - 1, l, c);
    } else {
        assert(last.1 < l - 1);
        assert forall|x: int| 0 <= x < c.len() implies 0 <= #[trigger] c[x].1 < l - 1 by {
            if x < c.len() - 1 {
                assert(c[x].0 < c[c.len() - 1].0);
            }
        }
        lemma_lcs_upper_bound(m, k, l - 1, c);
    }
}

/// A common subsequence as long as `lcs_len`.
proof fn lcs_witness(m: spec_fn(int, int) -> bool, k: int, l: int) -> (c: Seq<(int, int)>)
    ensures
        is_common_chain(m, k, l, c),
        c.len() == lcs_len(m, k, l),
    decreases k, l,
{
    if k <= 0 || l <= 0 {
        Seq::empty()
    } else if m(k - 1, l - 1) {
        let p = lcs_witness(m, k - 1, l - 1);
        let c = p.push((k - 1, l - 1));
        assert forall|x: int| 0 <= x < c.len() implies 0 <= #[trigger] c[x].0 < k && 0 <= c[x].1 < l
            && m(c[x].0, c[x].1) by {
            if x < p.len() {
                assert(c[x] == p[x]);
            }
        }
        assert forall|x: int, y: int| 0 <= x < y < c.len() implies #[trigger] c[x].0 < #[trigger] c[y].0
            && c[x].1 < c[y].1 by {
            assert(c[x] == p[x]);
            if y < p.len() {
                assert(c[y] == p[y]);
            }
        }
        c
    } else if lcs_len(m, k, l - 1) >= lcs_len(m, k - 1, l) {
        let c = lcs_witness(m, k, l - 1);
        lemma_chain_widen(m, k, l - 1, k, l, c);
        c
    } else {
        let c = lcs_witness(m, k - 1, l);
        lemma_chain_widen(m, k - 1, l, k, l, c);
        c
    }
}

/// `lcs_len` is the length of a longest common subsequence: no common
/// subsequence is longer, and one is exactly that long.
pub proof fn lemma_lcs_len_is_longest(m: spec_fn(int, int) -> bool, k: int, l: int)
    ensures
        forall|c: Seq<(int, int)>| is_common_chain(m, k, l, c) ==> c.len() <= lcs_len(m, k, l),
        exists|c: Seq<(int, int)>| is_common_chain(m, k, l, c) && c.len() == lcs_len(m, k, l),
{
    assert forall|c: Seq<(int, int)>| is_common_chain(m, k, l, c) implies c.len() <= lcs_len(m, k, l) by {
        lemma_lcs_upper_bound(m, k, l, c);
    }
    let w = lcs_witness(m, k, l);
    assert(is_common_chain(m, k, l, w) && w.len() == lcs_len(m, k, l));
}

/// Pairing destination items with source items gives the same lengths as
/// pairing source items with destination items, with the prefixes swapped.
pub proof fn lemma_lcs_len_transpose(m: spec_fn(int, int) -> bool, m2: spec_fn(int, int) -> bool, k: int, l: int)
    requires
        0 <= k,
        0 <= l,
        forall|x: int, y: int| 0 <= x < k && 0 <= y < l ==> #[trigger] m2(y, x) == m(x, y),
    ensures
        lcs_len(m, k, l) == lcs_len(m2, l, k),
    decreases k + l,
{
    if k > 0 && l > 0 {
        assert(m2(l - 1, k - 1) == m(k - 1, l - 1));
        lemma_lcs_len_transpose(m, m2, k - 1, l - 1);
        lemma_lcs_len_transpose(m, m2, k, l - 1);
        lemma_lcs_len_transpose(m, m2, k - 1, l);
    }
}

/// Two pairings that agree on the first `k` source and `l` destination items
/// give the same length for those prefixes.
pub proof fn lemma_lcs_len_congruent(m1: spec_fn(int, int) -> bool, m2: spec_fn(int, int) -> bool, k: int, l: int)
    requires
        0 <= k,
        0 <= l,
        forall|x: int, y: int| 0 <= x < k && 0 <= y < l ==> #[trigger] m1(x, y) == m2(x, y),
    ensures
        lcs_len(m1, k, l) == lcs_len(m2, k, l),
    decreases k + l,
{
    if k > 0 && l > 0 {
        assert(m1(k - 1, l - 1) == m2(k - 1, l - 1));
        lemma_lcs_len_congruent(m1, m2, k - 1, l - 1);
        lemma_lcs_len_congruent(m1, m2, k, l - 1);
        lemma_lcs_len_congruent(m1, m2, k - 1, l);
    }
}

/// When every item of a prefix pairs with the item at the same place, the
/// whole prefix is common: the length for `k` items against `k` items is `k`.
pub proof fn lemma_lcs_len_diagonal(m: spec_fn(int, int) -> bool, k: int)
    requires
        0 <= k,
        forall|x: int| 0 <= x < k ==> #[trigger] m(x, x),
    ensures
        lcs_len(m, k, k) == k,
    decreases k,
{
    if k > 0 {
        assert(m(k - 1, k - 1));
        lemma_lcs_len_diagonal(m, k - 1);
    }
}

/// The length for two prefixes is 0 exactly when no item of the first is
/// paired with an item of the second.
pub proof fn lemma_lcs_len_zero(m: spec_fn(int, int) -> bool, k: int, l: int)
    requires
        0 <= k,
        0 <= l,
    ensures
        lcs_len(m, k, l) == 0 <==> forall|x: int, y: int| 0 <= x < k && 0 <= y < l ==> !#[trigger] m(x, y),
    decreases k + l,
{
    if k > 0 && l > 0 {
        lemma_lcs_len_zero(m, k, l - 1);
        lemma_lcs_len_zero(m, k - 1, l);
        if lcs_len(m, k, l) == 0 {
            assert forall|x: int, y: int| 0 <= x < k && 0 <= y < l implies !#[trigger] m(x, y) by {
                if x == k - 1 && y == l - 1 {
                } else if y < l - 1 {
                    assert(!m(x, y));
                } else {
                    assert(!m(x, y));
                }
            }
        } else if forall|x: int, y: int| 0 <= x < k && 0 <= y < l ==> !#[trigger] m(x, y) {
            assert(!m(k - 1, l - 1));
            assert forall|x: int, y: int| 0 <= x < k && 0 <= y < l - 1 implies !#[trigger] m(x, y) by {
                assert(!m(x, y));
            }
            assert forall|x: int, y: int| 0 <= x < k - 1 && 0 <= y < l implies !#[trigger] m(x, y) by {
                assert(!m(x, y));
            }
        }
    }
}

} // verus!
