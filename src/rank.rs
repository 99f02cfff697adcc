use vstd::prelude::*;
use vstd::relations::{sorted_by, total_ordering};

verus! {

/// Symbol `t` ranks no later than symbol `s`: its frequency is lower, or equal with `t`
/// coming no later in the input.
pub open spec fn rank_le(w: Seq<u64>) -> spec_fn(usize, usize) -> bool {
    |t: usize, s: usize| w[t as int] < w[s as int] || (w[t as int] == w[s as int] && t <= s)
}

/// The symbols `0 .. k` in input order.
pub open spec fn symbols(k: nat) -> Seq<usize> {
    Seq::new(k, |i: int| i as usize)
}

/// The symbols sorted by ascending frequency, ties kept in input order.
pub open spec fn ranking(w: Seq<u64>) -> Seq<usize> {
    symbols(w.len()).sort_by(rank_le(w))
}

/// `rank_le` orders the symbols totally.
pub proof fn lemma_rank_le_total(w: Seq<u64>)
    ensures
        total_ordering(rank_le(w)),
{
}

/// The ranking lists each symbol `0 .. w.len()` exactly once.
pub proof fn lemma_ranking_permutation(w: Seq<u64>)
    ensures
        ranking(w).len() == w.len(),
        forall|p: int| 0 <= p < w.len() ==> #[trigger] ranking(w)[p] < w.len(),
        forall|s: usize| s < w.len() ==> #[trigger] ranking(w).contains(s),
        sorted_by(ranking(w), rank_le(w)),
{
    broadcast use vstd::seq_lib::group_to_multiset_ensures;

    let sy = symbols(w.len());
    lemma_rank_le_total(w);
    sy.lemma_sort_by_ensures(rank_le(w));
    vstd::seq_lib::to_multiset_len(sy);
    vstd::seq_lib::to_multiset_len(ranking(w));
    assert(ranking(w).len() == sy.len());
    assert forall|p: int| 0 <= p < w.len() implies #[trigger] ranking(w)[p] < w.len() by {
        assert(ranking(w).contains(ranking(w)[p]));
        vstd::seq_lib::to_multiset_contains(ranking(w), ranking(w)[p]);
        vstd::seq_lib::to_multiset_contains(sy, ranking(w)[p]);
        assert(sy.contains(ranking(w)[p]));
    }
    assert forall|s: usize| s < w.len() implies #[trigger] ranking(w).contains(s) by {
        assert(sy[s as int] == s);
        assert(sy.contains(s));
        vstd::seq_lib::to_multiset_contains(ranking(w), s);
        vstd::seq_lib::to_multiset_contains(sy, s);
        assert(ranking(w).contains(s));
    }
}

/// `f` added up over the elements of `s`.
pub open spec fn seq_sum(s: Seq<usize>, f: spec_fn(usize) -> int) -> int
    decreases s.len(),
{
    if s.len() == 0 {
        0
    } else {
        seq_sum(s.drop_last(), f) + f(s.last())
    }
}

proof fn lemma_seq_sum_remove(s: Seq<usize>, f: spec_fn(usize) -> int, i: int)
    requires
        0 <= i < s.len(),
    ensures
        seq_sum(s, f) == seq_sum(s.remove(i), f) + f(s[i]),
    decreases s.len(),
{
    if i < s.len() - 1 {
        lemma_seq_sum_remove(s.drop_last(), f, i);
        assert(s.remove(i).drop_last() =~= s.drop_last().remove(i));
        assert(s.remove(i).last() == s.last());
    } else {
        assert(s.remove(i) =~= s.drop_last());
    }
}

/// Adding up over any order of the symbols `0 .. n` gives the same total.
pub proof fn lemma_seq_sum_permutation(s: Seq<usize>, f: spec_fn(usize) -> int, n: nat)
    requires
        s.to_multiset() == symbols(n).to_multiset(),
    ensures
        seq_sum(s, f) == seq_sum(symbols(n), f),
    decreases n,
{
    broadcast use vstd::seq_lib::group_to_multiset_ensures;

    vstd::seq_lib::to_multiset_len(s);
    vstd::seq_lib::to_multiset_len(symbols(n));
    if n > 0 {
        let top = (n - 1) as usize;
        let rest = symbols((n - 1) as nat);
        assert(symbols(n) =~= rest.push(top));
        vstd::seq_lib::to_multiset_build(rest, top);
        vstd::seq_lib::to_multiset_contains(s, top);
        assert(symbols(n)[n - 1] == top);
        vstd::seq_lib::to_multiset_contains(symbols(n), top);
        let i = choose|i: int| 0 <= i < s.len() && s[i] == top;
        vstd::seq_lib::to_multiset_remove(s, i);
        assert(s.remove(i).to_multiset() =~= rest.to_multiset());
        lemma_seq_sum_remove(s, f, i);
        lemma_seq_sum_permutation(s.remove(i), f, (n - 1) as nat);
        assert(symbols(n).drop_last() =~= rest);
    }
}

/// The ranking is a permutation of the symbols.
pub proof fn lemma_ranking_multiset(w: Seq<u64>)
    ensures
        ranking(w).to_multiset() == symbols(w.len()).to_multiset(),
{
    lemma_rank_le_total(w);
    symbols(w.len()).lemma_sort_by_ensures(rank_le(w));
}

/// Symbol `t` ranks strictly before symbol `s`.
pub open spec fn rank_lt(w: Seq<u64>) -> spec_fn(usize, usize) -> bool {
    |t: usize, s: usize| w[t as int] < w[s as int] || (w[t as int] == w[s as int] && t < s)
}

/// The symbols `lo .. hi` in input order.
pub open spec fn symbol_range(lo: nat, hi: nat) -> Seq<usize> {
    Seq::new((hi - lo) as nat, |i: int| (lo + i) as usize)
}

/// Merges two rankings, of the symbols `lo .. mid` and of `mid .. hi`, into one ranking.
fn merge_ranked(
    w: &[u64],
    a: Vec<usize>,
    b: Vec<usize>,
    mid: usize,
    Ghost(lo): Ghost<nat>,
    Ghost(hi): Ghost<nat>,
) -> (r: Vec<usize>)
    requires
        lo <= mid <= hi <= w@.len(),
        sorted_by(a@, rank_lt(w@)),
        sorted_by(b@, rank_lt(w@)),
        forall|k: int| 0 <= k < a@.len() ==> lo <= #[trigger] a@[k] < mid,
        forall|k: int| 0 <= k < b@.len() ==> mid <= #[trigger] b@[k] < hi,
    ensures
        sorted_by(r@, rank_lt(w@)),
        forall|k: int| 0 <= k < r@.len() ==> lo <= #[trigger] r@[k] < hi,
        r@.to_multiset() == a@.to_multiset().add(b@.to_multiset()),
{
    broadcast use vstd::seq_lib::group_to_multiset_ensures;
    broadcast use vstd::multiset::group_multiset_axioms;

    let ghost lt = rank_lt(w@);
    let mut out: Vec<usize> = Vec::new();
    let mut i: usize = 0;
    let mut j: usize = 0;
    assert(a@.skip(0) =~= a@);
    assert(b@.skip(0) =~= b@);
    assert(out@.to_multiset().add(a@.to_multiset()).add(b@.to_multiset()) =~= a@.to_multiset().add(
        b@.to_multiset(),
    ));
    while i < a.len() || j < b.len()
        invariant
            i <= a@.len(),
            j <= b@.len(),
            lt == rank_lt(w@),
            lo <= mid <= hi <= w@.len(),
            sorted_by(a@, lt),
            sorted_by(b@, lt),
            forall|k: int| 0 <= k < a@.len() ==> lo <= #[trigger] a@[k] < mid,
            forall|k: int| 0 <= k < b@.len() ==> mid <= #[trigger] b@[k] < hi,
            sorted_by(out@, lt),
            forall|k: int| 0 <= k < out@.len() ==> lo <= #[trigger] out@[k] < hi,
            out@.len() > 0 && i < a@.len() ==> lt(out@.last(), a@[i as int]),
            out@.len() > 0 && j < b@.len() ==> lt(out@.last(), b@[j as int]),
            out@.to_multiset().add(a@.skip(i as int).to_multiset()).add(
                b@.skip(j as int).to_multiset(),
            ) == a@.to_multiset().add(b@.to_multiset()),
        decreases a@.len() + b@.len() - i - j,
    {
        let ghost old_out = out@;
        if j >= b.len() || (i < a.len() && w[a[i]] <= w[b[j]]) {
            let x = a[i];
            proof {
                let sa = a@.skip(i as int);
                assert(sa.remove(0) =~= a@.skip(i + 1));
                vstd::seq_lib::to_multiset_remove(sa, 0);
                assert(sa[0] == x);
                vstd::seq_lib::to_multiset_contains(sa, x);
                assert(sa.to_multiset().count(x) > 0);
                vstd::seq_lib::to_multiset_build(old_out, x);
                if i + 1 < a@.len() {
                    assert(lt(a@[i as int], a@[i + 1]));
                }
            }
            out.push(x);
            i = i + 1;
            proof {
                assert(out@.to_multiset().add(a@.skip(i as int).to_multiset()).add(
                    b@.skip(j as int).to_multiset(),
                ) =~= old_out.to_multiset().add(a@.skip(i - 1).to_multiset()).add(
                    b@.skip(j as int).to_multiset(),
                ));
            }
        } else {
            let y = b[j];
            proof {
                let sb = b@.skip(j as int);
                assert(sb.remove(0) =~= b@.skip(j + 1));
                vstd::seq_lib::to_multiset_remove(sb, 0);
                assert(sb[0] == y);
                vstd::seq_lib::to_multiset_contains(sb, y);
                assert(sb.to_multiset().count(y) > 0);
                vstd::seq_lib::to_multiset_build(old_out, y);
                if j + 1 < b@.len() {
                    assert(lt(b@[j as int], b@[j + 1]));
                }
            }
            out.push(y);
            j = j + 1;
            proof {
                assert(out@.to_multiset().add(a@.skip(i as int).to_multiset()).add(
                    b@.skip(j as int).to_multiset(),
                ) =~= old_out.to_multiset().add(a@.skip(i as int).to_multiset()).add(
                    b@.skip(j - 1).to_multiset(),
                ));
            }
        }
        proof {
            assert forall|k: int, l: int| 0 <= k < l < out@.len() implies #[trigger] lt(
                out@[k],
                out@[l],
            ) by {
                if l == out@.len() - 1 && k < l - 1 {
                    assert(lt(old_out[k], old_out.last()));
                }
            }
        }
    }
    assert(a@.skip(i as int) =~= Seq::<usize>::empty());
    assert(b@.skip(j as int) =~= Seq::<usize>::empty());
    assert(out@.to_multiset() =~= out@.to_multiset().add(a@.skip(i as int).to_multiset()).add(
        b@.skip(j as int).to_multiset(),
    ));
    out
}

/// Ranks the symbols `lo .. hi` by merge sort.
fn sort_range(w: &[u64], lo: usize, hi: usize) -> (r: Vec<usize>)
    requires
        lo <= hi <= w@.len(),
    ensures
        sorted_by(r@, rank_lt(w@)),
        forall|k: int| 0 <= k < r@.len() ==> lo <= #[trigger] r@[k] < hi,
        r@.to_multiset() == symbol_range(lo as nat, hi as nat).to_multiset(),
    decreases hi - lo,
{
    if hi - lo == 0 {
        let r: Vec<usize> = Vec::new();
        assert(r@ =~= symbol_range(lo as nat, hi as nat));
        r
    } else if hi - lo == 1 {
        let mut r: Vec<usize> = Vec::new();
        r.push(lo);
        assert(r@ =~= symbol_range(lo as nat, hi as nat));
        r
    } else {
        let mid = lo + (hi - lo) / 2;
        let a = sort_range(w, lo, mid);
        let b = sort_range(w, mid, hi);
        proof {
            assert(symbol_range(lo as nat, hi as nat) =~= symbol_range(lo as nat, mid as nat)
                + symbol_range(mid as nat, hi as nat));
            vstd::seq_lib::lemma_multiset_commutative(
                symbol_range(lo as nat, mid as nat),
                symbol_range(mid as nat, hi as nat),
            );
        }
        merge_ranked(w, a, b, mid, Ghost(lo as nat), Ghost(hi as nat))
    }
}

/// Sorts the symbols `0 .. w.len()` by ascending frequency, keeping ties in input order.
pub fn rank_symbols(w: &[u64]) -> (r: Vec<usize>)
    ensures
        r@ == ranking(w@),
        r@.len() == w@.len(),
        forall|i: int| 0 <= i < r@.len() ==> r@[i] < w@.len(),
        forall|i: int, j: int| 0 <= i < j < r@.len() ==> r@[i] != r@[j],
{
    let r = sort_range(w, 0, w.len());
    proof {
        let le = rank_le(w@);
        let lt = rank_lt(w@);
        assert(symbol_range(0, w@.len()) =~= symbols(w@.len()));
        assert forall|i: int, j: int| 0 <= i < j < r@.len() implies #[trigger] le(r@[i], r@[j]) by {
            assert(lt(r@[i], r@[j]));
        }
        assert forall|i: int, j: int| 0 <= i < j < r@.len() implies r@[i] != r@[j] by {
            assert(lt(r@[i], r@[j]));
        }
        lemma_ranking_multiset(w@);
        lemma_rank_le_total(w@);
        symbols(w@.len()).lemma_sort_by_ensures(le);
        vstd::seq_lib::lemma_sorted_unique(r@, ranking(w@), le);
        lemma_ranking_permutation(w@);
    }
    r
}

} // verus!
