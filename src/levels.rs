use vstd::arithmetic::power2::{
    lemma2_to64,
    lemma_pow2_pos,
    lemma_pow2_strictly_increases,
    lemma_pow2_unfold,
    pow2,
};
use vstd::prelude::*;

use crate::mergeiter::{follows_rule, lemma_merged_all, merged, values, Either, MergeIter, Pick};
use crate::rank::ranking;

verus! {

/// The frequencies in ranked order, widened so that sums of them fit.
pub open spec fn ranked_weights(w: Seq<u64>) -> Seq<u128> {
    Seq::new(w.len(), |i: int| w[ranking(w)[i] as int] as u128)
}

/// The sums of consecutive, non-overlapping pairs of `s`; a trailing odd element is left out.
pub open spec fn pair_sums(s: Seq<u128>) -> Seq<u128> {
    Seq::new(s.len() / 2, |i: int| (s[2 * i] + s[2 * i + 1]) as u128)
}

/// The merge rule between packages and leaves: a package goes first unless it is larger,
/// so on a tie the package comes before the leaf.
pub open spec fn package_first() -> spec_fn(u128, u128) -> bool {
    |x: u128, y: u128| x <= y
}

/// The sequence built at level `d`: the pair sums of the previous level's values (none at
/// level 0) merged with the ranked frequencies. `Left` marks a package, `Right` a leaf.
pub open spec fn level(w: Seq<u64>, d: nat) -> Seq<Either<u128, u128>>
    decreases d,
{
    let prev = if d == 0 {
        Seq::empty()
    } else {
        values(level(w, (d - 1) as nat))
    };
    merged(pair_sums(prev), ranked_weights(w), package_first())
}

/// Which positions of a level hold a package.
pub open spec fn package_flags(s: Seq<Either<u128, u128>>) -> Seq<bool> {
    s.map_values(|e: Either<u128, u128>| e is Left)
}

/// Every value at level `d` is at most `2^d` times the largest `u64`.
pub proof fn lemma_level_bound(w: Seq<u64>, d: nat)
    requires
        d <= 31,
    ensures
        forall|k: int|
            0 <= k < level(w, d).len() ==> (#[trigger] values(level(w, d))[k]) as int <= pow2(d)
                * 0xFFFF_FFFF_FFFF_FFFF,
    decreases d,
{
    let b = pow2(d) * 0xFFFF_FFFF_FFFF_FFFF;
    lemma_pow2_pos(d);
    let prev = if d == 0 {
        Seq::empty()
    } else {
        values(level(w, (d - 1) as nat))
    };
    let ps = pair_sums(prev);
    let lw = ranked_weights(w);
    if d > 0 {
        lemma_level_bound(w, (d - 1) as nat);
        lemma_pow2_unfold(d);
        lemma_pow2_strictly_increases((d - 1) as nat, 31);
        lemma2_to64();
    }
    let p = |x: u128| x as int <= b;
    assert forall|i: int| 0 <= i < ps.len() implies #[trigger] p(ps[i]) by {
        let x = prev[2 * i];
        let y = prev[2 * i + 1];
        assert(x as int <= pow2((d - 1) as nat) * 0xFFFF_FFFF_FFFF_FFFF);
        assert(y as int <= pow2((d - 1) as nat) * 0xFFFF_FFFF_FFFF_FFFF);
        assert(pow2((d - 1) as nat) <= 0x4000_0000);
        assert(x + y <= 2 * 0x4000_0000 * 0xFFFF_FFFF_FFFF_FFFF) by (nonlinear_arith)
            requires
                x as int <= pow2((d - 1) as nat) * 0xFFFF_FFFF_FFFF_FFFF,
                y as int <= pow2((d - 1) as nat) * 0xFFFF_FFFF_FFFF_FFFF,
                pow2((d - 1) as nat) <= 0x4000_0000,
        ;
    }
    assert forall|j: int| 0 <= j < lw.len() implies #[trigger] p(lw[j]) by {
        assert(lw[j] as int <= 0xFFFF_FFFF_FFFF_FFFF);
        assert(1 * 0xFFFF_FFFF_FFFF_FFFF <= pow2(d) * 0xFFFF_FFFF_FFFF_FFFF) by (nonlinear_arith)
            requires
                pow2(d) >= 1,
        ;
    }
    lemma_merged_all(ps, lw, package_first(), p);
    assert(level(w, d) == merged(ps, lw, package_first()));
    assert forall|k: int| 0 <= k < level(w, d).len() implies (#[trigger] values(level(w, d))[k]) as int <= b by {
        assert(p(values(level(w, d))[k]));
    }
}

/// The number of leading elements of a sequence of `len` that form complete chunks of `csize`.
pub fn complete_chunks(len: usize, csize: usize) -> (r: usize)
    requires
        csize > 0,
    ensures
        r == len - len % csize,
        r % csize == 0,
{
    let remainder = len % csize;
    proof {
        vstd::arithmetic::div_mod::lemma_mod_decreases(len as nat, csize as nat);
        vstd::arithmetic::div_mod::lemma_fundamental_div_mod(len as int, csize as int);
        vstd::arithmetic::div_mod::lemma_mod_multiples_basic(len as int / csize as int, csize as int);
        assert((len as int / csize as int) * csize as int == csize as int * (len as int / csize as int)) by (nonlinear_arith);
    }
    len - remainder
}

/// The sums of consecutive pairs of `list`, as `pair_sums` describes.
fn pair_up(list: &Vec<u128>) -> (r: Vec<u128>)
    requires
        forall|k: int| 0 <= k < list@.len() ==> list@[k] < 0x8000_0000_0000_0000_0000_0000_0000_0000,
    ensures
        r@ == pair_sums(list@),
{
    let m = complete_chunks(list.len(), 2);
    let mut r: Vec<u128> = Vec::new();
    let mut i: usize = 0;
    while i < m
        invariant
            m == list@.len() - list@.len() % 2,
            i % 2 == 0,
            i <= m,
            r@.len() == i / 2,
            forall|k: int| 0 <= k < r@.len() ==> r@[k] == pair_sums(list@)[k],
            forall|k: int| 0 <= k < list@.len() ==> list@[k] < 0x8000_0000_0000_0000_0000_0000_0000_0000,
        decreases m - i,
    {
        r.push(list[i] + list[i + 1]);
        i = i + 2;
    }
    assert(r@ =~= pair_sums(list@));
    r
}

/// The frequencies in ranked order.
fn ranked_values(w: &[u64], rank: &Vec<usize>) -> (r: Vec<u128>)
    requires
        rank@ == ranking(w@),
        rank@.len() == w@.len(),
        forall|i: int| 0 <= i < rank@.len() ==> rank@[i] < w@.len(),
    ensures
        r@ == ranked_weights(w@),
{
    let mut r: Vec<u128> = Vec::new();
    let mut i: usize = 0;
    while i < rank.len()
        invariant
            i <= rank@.len() == w@.len(),
            rank@ == ranking(w@),
            forall|k: int| 0 <= k < rank@.len() ==> rank@[k] < w@.len(),
            r@.len() == i,
            forall|k: int| 0 <= k < i ==> r@[k] == ranked_weights(w@)[k],
        decreases rank.len() - i,
    {
        r.push(w[rank[i]] as u128);
        i = i + 1;
    }
    assert(r@ =~= ranked_weights(w@));
    r
}

/// Builds one level: merges the pair sums of `list` with `leaves`, packages first on a tie.
/// Returns the level's values and which of its positions hold a package.
fn next_level(list: &Vec<u128>, leaves: Vec<u128>) -> (r: (Vec<u128>, Vec<bool>))
    requires
        forall|k: int| 0 <= k < list@.len() ==> list@[k] < 0x8000_0000_0000_0000_0000_0000_0000_0000,
    ensures
        r.0@ == values(merged(pair_sums(list@), leaves@, package_first())),
        r.1@ == package_flags(merged(pair_sums(list@), leaves@, package_first())),
{
    let pairs = pair_up(list);
    let pick = |x: &u128, y: &u128| -> (p: Pick)
        ensures
            p == (if *x <= *y {
                Pick::Left
            } else {
                Pick::Right
            }),
        {
            if *x <= *y {
                Pick::Left
            } else {
                Pick::Right
            }
        };
    assert(follows_rule(pick, package_first()));
    let mut it = MergeIter::new(pairs, leaves, pick, Ghost(package_first()));
    let ghost full = it.remaining();
    let ghost mut done: Seq<Either<u128, u128>> = Seq::empty();
    let mut vals: Vec<u128> = Vec::new();
    let mut flags: Vec<bool> = Vec::new();
    loop
        invariant
            it.wf(),
            full == merged(pair_sums(list@), leaves@, package_first()),
            full == done + it.remaining(),
            vals@ == values(done),
            flags@ == package_flags(done),
        ensures
            vals@ == values(full),
            flags@ == package_flags(full),
        decreases it.remaining().len(),
    {
        let ghost rem = it.remaining();
        let e = it.next();
        match e {
            Some(Either::Left(v)) => {
                vals.push(v);
                flags.push(true);
            },
            Some(Either::Right(v)) => {
                vals.push(v);
                flags.push(false);
            },
            None => {
                assert(full =~= done);
                break;
            },
        }
        proof {
            let x = e->Some_0;
            assert(rem =~= seq![x] + it.remaining());
            done = done.push(x);
            assert(full =~= done + it.remaining());
            assert(vals@ =~= values(done));
            assert(flags@ =~= package_flags(done));
        }
    }
    (vals, flags)
}

/// Builds levels `0 .. max_len` and returns, for each, which positions hold a package.
pub fn build_levels(w: &[u64], rank: &Vec<usize>, max_len: u32) -> (flags: Vec<Vec<bool>>)
    requires
        rank@ == ranking(w@),
        rank@.len() == w@.len(),
        forall|i: int| 0 <= i < rank@.len() ==> rank@[i] < w@.len(),
        max_len <= 32,
    ensures
        flags@.len() == max_len,
        forall|d: int| 0 <= d < max_len ==> (#[trigger] flags@[d])@ == package_flags(level(w@, d as nat)),
{
    let mut list: Vec<u128> = Vec::new();
    let mut flags: Vec<Vec<bool>> = Vec::new();
    let mut depth: u32 = 0;
    while depth < max_len
        invariant
            depth <= max_len <= 32,
            rank@ == ranking(w@),
            rank@.len() == w@.len(),
            forall|i: int| 0 <= i < rank@.len() ==> rank@[i] < w@.len(),
            depth == 0 ==> list@ == Seq::<u128>::empty(),
            depth > 0 ==> list@ == values(level(w@, (depth - 1) as nat)),
            flags@.len() == depth,
            forall|d: int| 0 <= d < depth ==> (#[trigger] flags@[d])@ == package_flags(level(w@, d as nat)),
        decreases max_len - depth,
    {
        proof {
            if depth > 0 {
                let d = (depth - 1) as nat;
                lemma_level_bound(w@, d);
                lemma_pow2_strictly_increases(d, 31);
                lemma2_to64();
                assert forall|k: int| 0 <= k < list@.len() implies list@[k]
                    < 0x8000_0000_0000_0000_0000_0000_0000_0000 by {
                    let v = list@[k];
                    assert(v as int <= pow2(d) * 0xFFFF_FFFF_FFFF_FFFF);
                    assert(pow2(d) * 0xFFFF_FFFF_FFFF_FFFF <= 0x8000_0000 * 0xFFFF_FFFF_FFFF_FFFF) by (nonlinear_arith)
                        requires
                            pow2(d) <= 0x8000_0000,
                    ;
                }
            }
        }
        let leaves = ranked_values(w, rank);
        let (vals, fl) = next_level(&list, leaves);
        proof {
            let d = depth as nat;
            let prev = if d == 0 {
                Seq::empty()
            } else {
                values(level(w@, (d - 1) as nat))
            };
            assert(prev == list@);
        }
        flags.push(fl);
        list = vals;
        depth = depth + 1;
    }
    flags
}

} // verus!
