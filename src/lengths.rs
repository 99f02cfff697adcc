use vstd::prelude::*;

use crate::levels::{level, package_first, package_flags, pair_sums, ranked_weights};
use crate::mergeiter::{lemma_merged_sides, values};

verus! {

/// Position `k` of level `d` holds a package.
pub open spec fn is_package(w: Seq<u64>, d: nat, k: int) -> bool {
    0 <= k < level(w, d).len() && level(w, d)[k] is Left
}

/// The number of packages among the first `r` positions of level `d`.
pub open spec fn packages_before(w: Seq<u64>, d: nat, r: nat) -> nat
    decreases r,
{
    if r == 0 {
        0
    } else {
        packages_before(w, d, (r - 1) as nat) + if is_package(w, d, r - 1) {
            1nat
        } else {
            0nat
        }
    }
}

/// How many leading positions of level `d` take part in the code when the length limit is
/// `max_len`: all `2n - 2` at the last level, and below it two for each package among the
/// positions that take part one level up.
pub open spec fn relevant(w: Seq<u64>, max_len: nat, d: nat) -> nat
    decreases max_len - d,
{
    if d + 1 >= max_len {
        (2 * w.len() - 2) as nat
    } else {
        2 * packages_before(w, d + 1, relevant(w, max_len, d + 1))
    }
}

/// How many leaves, in ranked order, take part in the code at level `d`.
pub open spec fn leaves_at(w: Seq<u64>, max_len: nat, d: nat) -> nat {
    (relevant(w, max_len, d) - packages_before(w, d, relevant(w, max_len, d))) as nat
}

/// The number of levels from `lo` below `max_len` at which the symbol ranked `p` takes part.
pub open spec fn levels_from(w: Seq<u64>, max_len: nat, p: int, lo: nat) -> nat
    decreases max_len - lo,
{
    if lo >= max_len {
        0
    } else {
        (if p < leaves_at(w, max_len, lo) {
            1nat
        } else {
            0nat
        }) + levels_from(w, max_len, p, lo + 1)
    }
}

/// The code length of the symbol ranked `p`: the number of levels at which it takes part.
pub open spec fn code_length(w: Seq<u64>, max_len: nat, p: int) -> nat {
    levels_from(w, max_len, p, 0)
}

/// A level holds at most `2n - 1` entries: `n` leaves and at most `n - 1` packages.
pub proof fn lemma_level_len(w: Seq<u64>, d: nat)
    requires
        w.len() >= 1,
    ensures
        level(w, d).len() <= 2 * w.len() - 1,
        level(w, d).len() >= w.len(),
    decreases d,
{
    let prev = if d == 0 {
        Seq::empty()
    } else {
        values(level(w, (d - 1) as nat))
    };
    if d > 0 {
        lemma_level_len(w, (d - 1) as nat);
    }
    lemma_merged_sides(pair_sums(prev), ranked_weights(w), package_first());
}

/// At most `r` of the first `r` positions are packages, and at most the level's length.
pub proof fn lemma_packages_before_bound(w: Seq<u64>, d: nat, r: nat)
    ensures
        packages_before(w, d, r) <= r,
        packages_before(w, d, r) <= level(w, d).len(),
    decreases r,
{
    if r > 0 {
        lemma_packages_before_bound(w, d, (r - 1) as nat);
    }
}

/// A symbol takes part in at most one level per level counted.
pub proof fn lemma_levels_from_bound(w: Seq<u64>, max_len: nat, p: int, lo: nat)
    ensures
        levels_from(w, max_len, p, lo) <= if lo >= max_len {
            0
        } else {
            max_len - lo
        },
    decreases max_len - lo,
{
    if lo < max_len {
        lemma_levels_from_bound(w, max_len, p, lo + 1);
    }
}

/// Once no position of a level takes part, no lower level adds to a code length.
pub proof fn lemma_levels_below_empty(w: Seq<u64>, max_len: nat, p: int, depth: nat)
    requires
        0 < depth <= max_len,
        0 <= p,
        relevant(w, max_len, (depth - 1) as nat) == 0,
    ensures
        levels_from(w, max_len, p, 0) == levels_from(w, max_len, p, depth),
    decreases depth,
{
    let d = (depth - 1) as nat;
    assert(leaves_at(w, max_len, d) == 0);
    assert(levels_from(w, max_len, p, d) == levels_from(w, max_len, p, depth));
    if d > 0 {
        assert(relevant(w, max_len, (d - 1) as nat) == 0);
        lemma_levels_below_empty(w, max_len, p, d);
    }
}

/// A symbol ranked earlier takes part in at least as many levels as one ranked later.
pub proof fn lemma_levels_from_monotone(w: Seq<u64>, max_len: nat, p: int, q: int, lo: nat)
    requires
        p <= q,
    ensures
        levels_from(w, max_len, p, lo) >= levels_from(w, max_len, q, lo),
    decreases max_len - lo,
{
    if lo < max_len {
        lemma_levels_from_monotone(w, max_len, p, q, lo + 1);
    }
}

/// Walks the levels from the last down to the first and counts, for each symbol, the
/// levels at which it takes part.
pub(crate) fn decode(
    Ghost(w): Ghost<Seq<u64>>,
    flags: &Vec<Vec<bool>>,
    rank: &Vec<usize>,
    max_len: u32,
) -> (r: Vec<u32>)
    requires
        1 <= rank@.len() == w.len() <= 0x1_0000_0000,
        forall|i: int| 0 <= i < rank@.len() ==> rank@[i] < w.len(),
        forall|i: int, j: int| 0 <= i < j < rank@.len() ==> rank@[i] != rank@[j],
        flags@.len() == max_len <= 32,
        forall|d: int| 0 <= d < max_len ==> (#[trigger] flags@[d])@ == package_flags(level(w, d as nat)),
    ensures
        r@.len() == w.len(),
        forall|p: int| 0 <= p < w.len() ==> r@[rank@[p] as int] == code_length(w, max_len as nat, p),
{
    let n = rank.len();
    let ghost lim = max_len as nat;
    let mut code_lens: Vec<u32> = Vec::new();
    let mut k: usize = 0;
    while k < n
        invariant
            k <= n,
            code_lens@.len() == k,
            forall|s: int| 0 <= s < k ==> code_lens@[s] == 0,
        decreases n - k,
    {
        code_lens.push(0);
        k = k + 1;
    }
    let mut rel: u64 = 2 * (n as u64) - 2;
    let mut depth: u32 = max_len;
    while depth > 0 && rel > 0
        invariant
            n == rank@.len() == w.len() == code_lens@.len(),
            1 <= n <= 0x1_0000_0000,
            forall|i: int| 0 <= i < n ==> rank@[i] < n,
            forall|i: int, j: int| 0 <= i < j < n ==> rank@[i] != rank@[j],
            flags@.len() == max_len <= 32,
            forall|d: int| 0 <= d < max_len ==> (#[trigger] flags@[d])@ == package_flags(level(w, d as nat)),
            depth <= max_len,
            lim == max_len,
            depth > 0 ==> rel == relevant(w, lim, (depth - 1) as nat),
            rel <= 4 * n,
            forall|p: int| 0 <= p < n ==> code_lens@[rank@[p] as int] == levels_from(w, lim, p, depth as nat),
        decreases depth,
    {
        depth = depth - 1;
        let d: usize = depth as usize;
        let ghost dn = depth as nat;
        let row = &flags[d];
        let mut merged: u64 = 0;
        let mut i: u64 = 0;
        while i < rel
            invariant
                n == rank@.len() == w.len() == code_lens@.len(),
                1 <= n <= 0x1_0000_0000,
                forall|i: int| 0 <= i < n ==> rank@[i] < n,
                forall|i: int, j: int| 0 <= i < j < n ==> rank@[i] != rank@[j],
                row@ == package_flags(level(w, dn)),
                dn == d == depth < max_len == lim,
                rel == relevant(w, lim, dn),
                rel <= 4 * n,
                i <= rel,
                merged == packages_before(w, dn, i as nat),
                merged <= i,
                forall|p: int|
                    0 <= p < n ==> code_lens@[rank@[p] as int] == levels_from(w, lim, p, dn + 1) + (
                    if p < i - merged {
                        1nat
                    } else {
                        0nat
                    }),
            decreases rel - i,
        {
            let pk = if i < row.len() as u64 {
                row[i as usize]
            } else {
                false
            };
            assert(pk == is_package(w, dn, i as int));
            if !pk {
                let leaf = i - merged;
                if leaf < n as u64 {
                    let s = rank[leaf as usize];
                    proof {
                        lemma_levels_from_bound(w, lim, leaf as int, dn + 1);
                    }
                    code_lens.set(s, code_lens[s] + 1);
                }
            } else {
                merged = merged + 1;
            }
            i = i + 1;
        }
        proof {
            lemma_packages_before_bound(w, dn, rel as nat);
            lemma_level_len(w, dn);
            assert forall|p: int| 0 <= p < n implies code_lens@[rank@[p] as int] == levels_from(
                w,
                lim,
                p,
                dn,
            ) by {}
        }
        rel = merged * 2;
    }
    proof {
        assert forall|p: int| 0 <= p < n implies code_lens@[rank@[p] as int] == code_length(w, lim, p) by {
            if depth > 0 {
                lemma_levels_below_empty(w, lim, p, depth as nat);
            }
        }
    }
    code_lens
}

} // verus!
