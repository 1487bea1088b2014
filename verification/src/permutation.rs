//! The multiset-permutation successor: advances a deck to the next
//! arrangement in lexicographic order, reordering symbols without ever
//! changing the multiset.

use vstd::prelude::*;
use vstd::seq_lib::lemma_multiset_commutative;
use crate::card::Card;

verus! {

/// Strict lexicographic order on decks by symbol ordinal: `a` comes before
/// `b` when they agree on a prefix and `a` holds the smaller symbol at the
/// first position where they differ.
pub open spec fn lex_less(a: Seq<Card>, b: Seq<Card>) -> bool {
    exists|i: int|
        0 <= i < a.len() && i < b.len() && (forall|j: int| 0 <= j < i ==> a[j] == b[j]) && (
        #[trigger] a[i]).ordinal() < b[i].ordinal()
}

/// A deck whose symbols never ascend from one position to the next: the
/// lexicographically greatest arrangement of its multiset, on which the
/// enumeration stops.
pub open spec fn non_increasing(d: Seq<Card>) -> bool {
    forall|k: int| 1 <= k < d.len() ==> (#[trigger] d[k]).ordinal() <= d[k - 1].ordinal()
}


/// A deck whose symbols never descend from one position to the next: the
/// lexicographically smallest arrangement of its multiset.
pub open spec fn non_decreasing(d: Seq<Card>) -> bool {
    forall|k: int| 1 <= k < d.len() ==> (#[trigger] d[k]).ordinal() >= d[k - 1].ordinal()
}

/// `b` is the immediate successor of `a`: strictly greater, and no
/// arrangement of the same multiset lies strictly between the two.
pub open spec fn is_immediate_successor(a: Seq<Card>, b: Seq<Card>) -> bool {
    &&& lex_less(a, b)
    &&& forall|s: Seq<Card>|
        s.len() == a.len() && #[trigger] s.to_multiset() == a.to_multiset() && lex_less(a, s) && s
            != b ==> lex_less(b, s)
}

/// Advances `array` to the immediate lexicographic successor of its current
/// arrangement. Returns `false` — leaving the arrangement unchanged — exactly
/// when the arrangement is already maximal (non-increasing), signalling that
/// the permutation space is exhausted; otherwise reorders the symbols in
/// place to a strictly greater arrangement with the same multiset.
pub fn has_next_permutation(array: &mut Vec<Card>) -> (more: bool)
    ensures
        more <==> !non_increasing(old(array)@),
        final(array)@.len() == old(array)@.len(),
        !more ==> final(array)@ == old(array)@,
        more ==> final(array)@.to_multiset() == old(array)@.to_multiset(),
        more ==> is_immediate_successor(old(array)@, final(array)@),
{
    let ghost orig = array@;
    let n = array.len();
    if n == 0 {
        return false;
    }
    // Find the pivot boundary: the rightmost i with array[i-1] < array[i].
    let mut i: usize = n - 1;
    while i > 0 && array[i - 1].value() >= array[i].value()
        invariant
            i < n,
            n == array@.len(),
            forall|k: int|
                #![trigger array@[k], array@[k - 1]]
                i < k < n ==> array@[k].ordinal() <= array@[k - 1].ordinal(),
        decreases i,
    {
        i -= 1;
    }
    if i == 0 {
        return false;
    }
    let pivot = i - 1;
    assert(array@[pivot as int].ordinal() < array@[i as int].ordinal());
    // Find the rightmost j whose symbol exceeds the pivot's.
    let mut j: usize = n - 1;
    while array[j].value() <= array[pivot].value()
        invariant
            i <= j < n,
            pivot == i - 1,
            i < n,
            n == array@.len(),
            array@[pivot as int].ordinal() < array@[i as int].ordinal(),
            forall|t: int|
                j < t < n ==> (#[trigger] array@[t]).ordinal() <= array@[pivot as int].ordinal(),
        decreases j,
    {
        assert(j != i);
        j -= 1;
    }
    assert(array@[pivot as int].ordinal() < array@[j as int].ordinal());
    let ghost j0 = j as int;
    let ghost piv = pivot as int;
    proof {
        assert(orig == array@);
        assert forall|t: int| j0 < t < n implies (#[trigger] orig[t]).ordinal() <= orig[
        piv].ordinal() by {
            assert(orig[t] == array@[t]);
            assert(orig[piv] == array@[piv]);
        }
        assert forall|k: int| #![trigger orig[k], orig[k - 1]] i < k < n implies orig[k].ordinal()
            <= orig[k - 1].ordinal() by {
            assert(orig[k] == array@[k]);
            assert(orig[k - 1] == array@[k - 1]);
        }
        assert(orig[piv].ordinal() < orig[j0].ordinal());
    }
    // Swap the pivot with that symbol.
    let a = array[pivot];
    let b = array[j];
    array[pivot] = b;
    array[j] = a;
    let ghost mid = array@;
    proof {
        assert(mid[piv] == orig[j0]);
        assert(mid[j0] == orig[piv]);
        assert forall|t: int| #![trigger mid[t]] 0 <= t < n && t != piv && t != j0 implies mid[t]
            == orig[t] by {
            assert(mid[t] == array@[t]);
        }
    }
    // Reverse the suffix after the pivot back into ascending order.
    let mut lo = i;
    let mut hi = n - 1;
    while lo < hi
        invariant
            i <= lo,
            lo + hi == i + n - 1,
            hi < n,
            n == array@.len(),
            mid.len() == n,
            forall|k: int| 0 <= k < i ==> array@[k] == mid[k],
            forall|k: int| lo <= k <= hi ==> array@[k] == mid[k],
            forall|k: int| i <= k < lo ==> array@[k] == mid[i + n - 1 - k],
            forall|k: int| hi < k < n ==> array@[k] == mid[i + n - 1 - k],
        decreases n - lo,
    {
        let x = array[lo];
        let y = array[hi];
        array[lo] = y;
        array[hi] = x;
        lo += 1;
        hi -= 1;
    }
    proof {
        let fin = array@;
        assert forall|k: int| i <= k < n implies fin[k] == mid[i + n - 1 - k] by {}
        assert(forall|k: int| 0 <= k < i ==> fin[k] == mid[k]);
        lemma_swap_reverse_successor(orig, mid, fin, i as int, j0);
    }
    true
}

/// In a run that never ascends from position `lo` on, an earlier position
/// never holds a smaller symbol than a later one.
proof fn lemma_ge_within(x: Seq<Card>, lo: int, a: int, b: int)
    requires
        0 <= lo <= a <= b < x.len(),
        forall|k: int| lo < k < x.len() ==> (#[trigger] x[k]).ordinal() <= x[k - 1].ordinal(),
    ensures
        x[a].ordinal() >= x[b].ordinal(),
    decreases b - a,
{
    if a < b {
        lemma_ge_within(x, lo, a + 1, b);
    }
}

/// A non-increasing arrangement is lexicographically greatest among the
/// arrangements of its multiset.
proof fn lemma_max_arrangement(x: Seq<Card>, y: Seq<Card>)
    requires
        x.len() == y.len(),
        x.to_multiset() == y.to_multiset(),
        non_increasing(x),
    ensures
        !lex_less(x, y),
    decreases x.len(),
{
    broadcast use vstd::seq_lib::group_to_multiset_ensures;
    broadcast use vstd::multiset::group_multiset_axioms;

    if lex_less(x, y) {
        let w = choose|w: int|
            0 <= w < x.len() && w < y.len() && (forall|j: int| 0 <= j < w ==> x[j] == y[j]) && (
            #[trigger] x[w]).ordinal() < y[w].ordinal();
        assert(y.contains(y[0]));
        assert(x.to_multiset().count(y[0]) > 0);
        assert(x.contains(y[0]));
        let k = choose|k: int| 0 <= k < x.len() && x[k] == y[0];
        lemma_ge_within(x, 0, 0, k);
        if w == 0 {
            assert(false);
        } else {
            let xt = x.drop_first();
            let yt = y.drop_first();
            assert(xt =~= x.remove(0));
            assert(yt =~= y.remove(0));
            assert(xt.to_multiset() == yt.to_multiset());
            assert forall|k2: int| 1 <= k2 < xt.len() implies (#[trigger] xt[k2]).ordinal()
                <= xt[k2 - 1].ordinal() by {
                assert(xt[k2] == x[k2 + 1]);
                assert(xt[k2 - 1] == x[k2]);
            }
            lemma_max_arrangement(xt, yt);
            assert forall|j: int| 0 <= j < w - 1 implies xt[j] == yt[j] by {
                assert(xt[j] == x[j + 1]);
                assert(yt[j] == y[j + 1]);
            }
            assert((xt[w - 1]).ordinal() < yt[w - 1].ordinal());
            assert(lex_less(xt, yt));
            assert(false);
        }
    }
}

/// A non-decreasing arrangement is lexicographically least among the
/// arrangements of its multiset: strictly below every other one.
proof fn lemma_min_arrangement(x: Seq<Card>, y: Seq<Card>)
    requires
        x.len() == y.len(),
        x.to_multiset() == y.to_multiset(),
        non_decreasing(x),
        x != y,
    ensures
        lex_less(x, y),
    decreases x.len(),
{
    broadcast use vstd::seq_lib::group_to_multiset_ensures;
    broadcast use vstd::multiset::group_multiset_axioms;

    if x.len() == 0 {
        assert(x =~= y);
    } else {
        assert(y.contains(y[0]));
        assert(x.to_multiset().count(y[0]) > 0);
        assert(x.contains(y[0]));
        let k = choose|k: int| 0 <= k < x.len() && x[k] == y[0];
        assert forall|a: int, b: int| 0 <= a <= b < x.len() implies x[a].ordinal()
            <= x[b].ordinal() by {
            lemma_le_within(x, a, b);
        }
        if x[0] != y[0] {
            assert(x[0].ordinal() <= x[k].ordinal());
            assert(x[0].ordinal() != y[0].ordinal());
            assert(x[0].ordinal() < y[0].ordinal());
            assert(lex_less(x, y));
        } else {
            let xt = x.drop_first();
            let yt = y.drop_first();
            assert(xt =~= x.remove(0));
            assert(yt =~= y.remove(0));
            assert(xt.to_multiset() == yt.to_multiset());
            assert forall|k2: int| 1 <= k2 < xt.len() implies (#[trigger] xt[k2]).ordinal()
                >= xt[k2 - 1].ordinal() by {
                assert(xt[k2] == x[k2 + 1]);
                assert(xt[k2 - 1] == x[k2]);
            }
            if xt == yt {
                assert forall|t: int| 0 <= t < x.len() implies x[t] == y[t] by {
                    if t > 0 {
                        assert(x[t] == xt[t - 1]);
                        assert(y[t] == yt[t - 1]);
                    }
                }
                assert(x =~= y);
                assert(false);
            }
            lemma_min_arrangement(xt, yt);
            let w = choose|w: int|
                0 <= w < xt.len() && w < yt.len() && (forall|j: int| 0 <= j < w ==> xt[j] == yt[j])
                    && (#[trigger] xt[w]).ordinal() < yt[w].ordinal();
            assert forall|j: int| 0 <= j < w + 1 implies x[j] == y[j] by {
                if j > 0 {
                    assert(x[j] == xt[j - 1]);
                    assert(y[j] == yt[j - 1]);
                }
            }
            assert((x[w + 1]).ordinal() < y[w + 1].ordinal());
            assert(lex_less(x, y));
        }
    }
}

/// In a run that never descends, an earlier position never holds a greater
/// symbol than a later one.
proof fn lemma_le_within(x: Seq<Card>, a: int, b: int)
    requires
        0 <= a <= b < x.len(),
        non_decreasing(x),
    ensures
        x[a].ordinal() <= x[b].ordinal(),
    decreases b - a,
{
    if a < b {
        lemma_le_within(x, a + 1, b);
    }
}

/// Two multiset-equal arrangements that agree on a prefix hold the same
/// multiset on the rest.
proof fn lemma_common_prefix_suffix_multiset(a: Seq<Card>, b: Seq<Card>, p: int)
    requires
        a.len() == b.len(),
        a.to_multiset() == b.to_multiset(),
        0 <= p <= a.len(),
        forall|j: int| 0 <= j < p ==> a[j] == b[j],
    ensures
        a.subrange(p, a.len() as int).to_multiset() == b.subrange(
            p,
            b.len() as int,
        ).to_multiset(),
{
    broadcast use vstd::multiset::group_multiset_axioms;

    let n = a.len() as int;
    let pre = a.subrange(0, p);
    let sa = a.subrange(p, n);
    let sb = b.subrange(p, n);
    assert(a =~= pre + sa);
    assert(b.subrange(0, p) =~= pre);
    assert(b =~= pre + sb);
    lemma_multiset_commutative(pre, sa);
    lemma_multiset_commutative(pre, sb);
    assert forall|e: Card| true implies sa.to_multiset().count(e) == sb.to_multiset().count(
        e,
    ) by {
        assert(a.to_multiset().count(e) == pre.to_multiset().count(e) + sa.to_multiset().count(e));
        assert(b.to_multiset().count(e) == pre.to_multiset().count(e) + sb.to_multiset().count(e));
    }
    assert(sa.to_multiset() =~= sb.to_multiset());
}

/// The structural facts the advance establishes force its result to be the
/// immediate successor: any strictly greater arrangement of the multiset,
/// other than the result itself, lies strictly above the result.
proof fn lemma_successor_minimal(orig: Seq<Card>, fin: Seq<Card>, pivot: int, s: Seq<Card>)
    requires
        0 <= pivot < orig.len(),
        fin.len() == orig.len(),
        fin.to_multiset() == orig.to_multiset(),
        forall|j: int| 0 <= j < pivot ==> fin[j] == orig[j],
        fin[pivot].ordinal() > orig[pivot].ordinal(),
        non_increasing(orig.subrange(pivot + 1, orig.len() as int)),
        non_decreasing(fin.subrange(pivot + 1, fin.len() as int)),
        forall|k: int|
            pivot < k < orig.len() && (#[trigger] orig[k]).ordinal() > orig[pivot].ordinal()
                ==> orig[k].ordinal() >= fin[pivot].ordinal(),
        s.len() == orig.len(),
        s.to_multiset() == orig.to_multiset(),
        lex_less(orig, s),
        s != fin,
    ensures
        lex_less(fin, s),
{
    broadcast use vstd::seq_lib::group_to_multiset_ensures;
    broadcast use vstd::multiset::group_multiset_axioms;

    let n = orig.len() as int;
    let w = choose|w: int|
        0 <= w < orig.len() && w < s.len() && (forall|j: int| 0 <= j < w ==> orig[j] == s[j]) && (
        #[trigger] orig[w]).ordinal() < s[w].ordinal();
    if w < pivot {
        assert forall|j: int| 0 <= j < w implies fin[j] == s[j] by {}
        assert((fin[w]).ordinal() < s[w].ordinal());
        assert(lex_less(fin, s));
    } else if w > pivot {
        // `s` agrees with `orig` through the pivot, but the rest of `orig`
        // is already the greatest arrangement of what remains.
        let ta = orig.subrange(pivot + 1, n);
        let ts = s.subrange(pivot + 1, n);
        lemma_common_prefix_suffix_multiset(orig, s, pivot + 1);
        lemma_max_arrangement(ta, ts);
        assert forall|j: int| 0 <= j < w - pivot - 1 implies ta[j] == ts[j] by {
            assert(ta[j] == orig[pivot + 1 + j]);
            assert(ts[j] == s[pivot + 1 + j]);
        }
        assert(ta[w - pivot - 1] == orig[w]);
        assert(ts[w - pivot - 1] == s[w]);
        assert(lex_less(ta, ts));
        assert(false);
    } else {
        // `s` first exceeds `orig` exactly at the pivot.
        let ro = orig.subrange(pivot, n);
        let rs = s.subrange(pivot, n);
        lemma_common_prefix_suffix_multiset(orig, s, pivot);
        assert(rs[0] == s[pivot]);
        assert(rs.contains(s[pivot]));
        assert(ro.to_multiset().count(s[pivot]) > 0);
        assert(ro.contains(s[pivot]));
        let k = choose|k: int| 0 <= k < ro.len() && ro[k] == s[pivot];
        assert(orig[pivot + k] == s[pivot]);
        assert(k != 0);
        assert(orig[pivot + k].ordinal() >= fin[pivot].ordinal());
        if s[pivot] != fin[pivot] {
            assert(s[pivot].ordinal() != fin[pivot].ordinal());
            assert(s[pivot].ordinal() > fin[pivot].ordinal());
            assert forall|j: int| 0 <= j < pivot implies fin[j] == s[j] by {}
            assert((fin[pivot]).ordinal() < s[pivot].ordinal());
            assert(lex_less(fin, s));
        } else {
            // Equal through the pivot; the rest of `fin` is the least
            // arrangement of what remains.
            let fa = fin.subrange(pivot + 1, n);
            let sa = s.subrange(pivot + 1, n);
            lemma_common_prefix_suffix_multiset(fin, s, pivot + 1);
            if fa == sa {
                assert forall|t: int| 0 <= t < fin.len() implies fin[t] == s[t] by {
                    if t > pivot {
                        assert(fin[t] == fa[t - pivot - 1]);
                        assert(s[t] == sa[t - pivot - 1]);
                    }
                }
                assert(fin =~= s);
                assert(false);
            }
            lemma_min_arrangement(fa, sa);
            let w2 = choose|w2: int|
                0 <= w2 < fa.len() && w2 < sa.len() && (forall|j: int|
                    0 <= j < w2 ==> fa[j] == sa[j]) && (#[trigger] fa[w2]).ordinal()
                    < sa[w2].ordinal();
            assert forall|j: int| 0 <= j < pivot + 1 + w2 implies fin[j] == s[j] by {
                if j > pivot {
                    assert(fin[j] == fa[j - pivot - 1]);
                    assert(s[j] == sa[j - pivot - 1]);
                }
            }
            assert(fin[pivot + 1 + w2] == fa[w2]);
            assert(s[pivot + 1 + w2] == sa[w2]);
            assert((fin[pivot + 1 + w2]).ordinal() < s[pivot + 1 + w2].ordinal());
            assert(lex_less(fin, s));
        }
    }
}

/// After the swap-and-reverse of one advance, the result is the immediate
/// successor: the swapped suffix is still non-increasing, so its reversal is
/// the least arrangement of what remains, and the pivot's new symbol is the
/// least of the suffix that exceeds its old one.
#[verifier::rlimit(60)]
proof fn lemma_swap_reverse_successor(orig: Seq<Card>, mid: Seq<Card>, fin: Seq<Card>, i: int, j0: int)
    requires
        1 <= i <= j0 < orig.len(),
        mid.len() == orig.len(),
        fin.len() == orig.len(),
        forall|k: int| i < k < orig.len() ==> (#[trigger] orig[k]).ordinal() <= orig[k - 1].ordinal(),
        forall|t: int| j0 < t < orig.len() ==> (#[trigger] orig[t]).ordinal() <= orig[i - 1].ordinal(),
        orig[i - 1].ordinal() < orig[j0].ordinal(),
        mid[i - 1] == orig[j0],
        mid[j0] == orig[i - 1],
        forall|t: int| #![trigger mid[t]] 0 <= t < orig.len() && t != i - 1 && t != j0 ==> mid[t] == orig[t],
        forall|k: int| 0 <= k < i ==> fin[k] == mid[k],
        forall|k: int| #![trigger fin[k]] i <= k < orig.len() ==> fin[k] == mid[i + orig.len() - 1 - k],
    ensures
        is_immediate_successor(orig, fin),
        fin.to_multiset() == orig.to_multiset(),
        !non_increasing(orig),
{
    broadcast use vstd::seq_lib::group_to_multiset_ensures;
    broadcast use vstd::multiset::group_multiset_axioms;
    broadcast use vstd::seq_lib::to_multiset_update;

    let n = orig.len() as int;
    let piv = i - 1;
    lemma_ge_within(orig, i, i, j0);
    assert(orig[i].ordinal() > orig[piv].ordinal());
    assert(!non_increasing(orig));
    assert(mid =~= orig.update(piv, orig[j0]).update(j0, orig[piv]));
    assert(mid.to_multiset() =~= orig.to_multiset());
    assert forall|k: int| i <= k < n implies fin[k] == mid[i + n - 1 - k] by {}
    assert(fin =~= mid.subrange(0, i) + mid.subrange(i, n).reverse());
    mid.subrange(i, n).lemma_reverse_to_multiset();
    lemma_multiset_commutative(mid.subrange(0, i), mid.subrange(i, n).reverse());
    lemma_multiset_commutative(mid.subrange(0, i), mid.subrange(i, n));
    assert(mid =~= mid.subrange(0, i) + mid.subrange(i, n));
    assert(fin.to_multiset() =~= orig.to_multiset());
    assert(forall|t: int| 0 <= t < piv ==> orig[t] == fin[t]);
    assert(orig[piv].ordinal() < fin[piv].ordinal());
    assert(lex_less(orig, fin));
    assert forall|k: int| 1 <= k < orig.subrange(piv + 1, n).len() implies (
    #[trigger] orig.subrange(piv + 1, n)[k]).ordinal() <= orig.subrange(piv + 1, n)[k
        - 1].ordinal() by {
        assert(orig.subrange(piv + 1, n)[k] == orig[piv + 1 + k]);
        assert(orig.subrange(piv + 1, n)[k - 1] == orig[piv + k]);
    }
    assert(non_increasing(orig.subrange(piv + 1, n)));
    assert forall|k: int| i < k < n implies (#[trigger] mid[k]).ordinal() <= mid[k - 1].ordinal() by {
        if k == j0 {
            assert(mid[k - 1] == orig[k - 1]);
            assert(orig[j0 - 1].ordinal() >= orig[j0].ordinal());
        } else if k - 1 == j0 {
            assert(mid[k] == orig[k]);
            assert(orig[k].ordinal() <= orig[piv].ordinal());
        } else {
            assert(mid[k] == orig[k]);
            assert(mid[k - 1] == orig[k - 1]);
        }
    }
    assert forall|k: int| 1 <= k < fin.subrange(piv + 1, n).len() implies (
    #[trigger] fin.subrange(piv + 1, n)[k]).ordinal() >= fin.subrange(piv + 1, n)[k
        - 1].ordinal() by {
        let a = i + n - 1 - (piv + 1 + k);
        assert(fin.subrange(piv + 1, n)[k] == fin[piv + 1 + k]);
        assert(fin.subrange(piv + 1, n)[k - 1] == fin[piv + k]);
        assert(fin[piv + 1 + k] == mid[a]);
        assert(fin[piv + k] == mid[a + 1]);
        assert(mid[a + 1].ordinal() <= mid[a].ordinal());
    }
    assert(non_decreasing(fin.subrange(piv + 1, n)));
    assert forall|k: int|
        piv < k < n && (#[trigger] orig[k]).ordinal() > orig[piv].ordinal() implies orig[
    k].ordinal() >= fin[piv].ordinal() by {
        if k <= j0 {
            lemma_ge_within(orig, i, k, j0);
        }
    }
    assert forall|s: Seq<Card>|
        s.len() == orig.len() && #[trigger] s.to_multiset() == orig.to_multiset() && lex_less(
            orig,
            s,
        ) && s != fin implies lex_less(fin, s) by {
        lemma_successor_minimal(orig, fin, piv, s);
    }
}

/// The canonical seed is the lexicographically smallest valid deck: every
/// other arrangement of the fixed multiset lies strictly above it, so the
/// enumeration that starts there visits the whole space.
pub proof fn lemma_seed_is_least(d: Seq<Card>)
    requires
        crate::codec::valid_deck(d),
        d != crate::codec::seed_deck(),
    ensures
        lex_less(crate::codec::seed_deck(), d),
{
    broadcast use vstd::multiset::group_multiset_axioms;

    let seed = crate::codec::seed_deck();
    crate::codec::lemma_seed_deck_valid();
    assert forall|e: Card| true implies seed.to_multiset().count(e) == d.to_multiset().count(
        e,
    ) by {
        match e {
            Card::Blank => {},
            Card::Jack => {},
            Card::Queen => {},
            Card::King => {},
            Card::Ace => {},
        }
    }
    assert(seed.to_multiset() =~= d.to_multiset());
    assert(non_decreasing(seed));
    lemma_min_arrangement(seed, d);
}

/// Advances a deck to its lexicographic successor; alias of
/// [`has_next_permutation`] under the name the enumeration tool uses.
pub fn next_permutation(array: &mut Vec<Card>) -> (more: bool)
    ensures
        more <==> !non_increasing(old(array)@),
        final(array)@.len() == old(array)@.len(),
        !more ==> final(array)@ == old(array)@,
        more ==> final(array)@.to_multiset() == old(array)@.to_multiset(),
        more ==> is_immediate_successor(old(array)@, final(array)@),
{
    has_next_permutation(array)
}

} // verus!
