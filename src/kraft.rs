use vstd::arithmetic::power2::{lemma2_to64, lemma_pow2_pos, lemma_pow2_unfold, pow2};
use vstd::prelude::*;

use crate::lengths::{
    code_length,
    leaves_at,
    levels_from,
    packages_before,
    relevant,
};
use crate::levels::{level, package_first, pair_sums, ranked_weights};
use crate::mergeiter::{lefts, lemma_merged_sides, rights, values, Either};

verus! {

/// The number of `Left` elements among the first `r` positions of `s`.
pub open spec fn left_count<T, U>(s: Seq<Either<T, U>>, r: nat) -> nat
    decreases r,
{
    if r == 0 {
        0
    } else {
        left_count(s, (r - 1) as nat) + if r - 1 < s.len() && s[r - 1] is Left {
            1nat
        } else {
            0nat
        }
    }
}

proof fn lemma_left_count_shift<T, U>(s: Seq<Either<T, U>>, r: nat)
    requires
        r >= 1,
        s.len() >= 1,
    ensures
        left_count(s, r) == (if s[0] is Left {
            1nat
        } else {
            0nat
        }) + left_count(s.drop_first(), (r - 1) as nat),
    decreases r,
{
    let t = s.drop_first();
    if r > 1 {
        lemma_left_count_shift(s, (r - 1) as nat);
        if r - 1 < s.len() {
            assert(t[r - 2] == s[r - 1]);
        }
        assert(left_count(t, (r - 1) as nat) == left_count(t, (r - 2) as nat) + if r - 2 < t.len()
            && t[r - 2] is Left {
            1nat
        } else {
            0nat
        });
    } else {
        assert(left_count(s, 0) == 0);
        assert(left_count(t, 0) == 0);
    }
}

proof fn lemma_left_count_all<T, U>(s: Seq<Either<T, U>>)
    ensures
        left_count(s, s.len()) == lefts(s).len(),
        lefts(s).len() + rights(s).len() == s.len(),
    decreases s.len(),
{
    if s.len() > 0 {
        lemma_left_count_shift(s, s.len());
        lemma_left_count_all(s.drop_first());
    }
}

proof fn lemma_left_count_mono<T, U>(s: Seq<Either<T, U>>, r1: nat, r2: nat)
    requires
        r1 <= r2,
    ensures
        left_count(s, r1) <= left_count(s, r2),
        r1 - left_count(s, r1) <= r2 - left_count(s, r2),
        r2 >= s.len() ==> left_count(s, r2) == left_count(s, s.len()),
        left_count(s, r1) <= r1,
        left_count(s, r2) <= r2,
    decreases r2,
{
    if r2 > 0 && r1 < r2 {
        lemma_left_count_mono(s, r1, (r2 - 1) as nat);
    }
    if r2 > s.len() {
        lemma_left_count_mono(s, s.len(), (r2 - 1) as nat);
    }
    lemma_left_count_le(s, r1);
    lemma_left_count_le(s, r2);
}

proof fn lemma_left_count_le<T, U>(s: Seq<Either<T, U>>, r: nat)
    ensures
        left_count(s, r) <= r,
    decreases r,
{
    if r > 0 {
        lemma_left_count_le(s, (r - 1) as nat);
    }
}

proof fn lemma_packages_before_is_left_count(w: Seq<u64>, d: nat, r: nat)
    ensures
        packages_before(w, d, r) == left_count(level(w, d), r),
    decreases r,
{
    if r > 0 {
        lemma_packages_before_is_left_count(w, d, (r - 1) as nat);
    }
}

/// Level `d` holds `n` leaves and, as packages, the pair sums of the level below.
proof fn lemma_level_parts(w: Seq<u64>, d: nat)
    ensures
        left_count(level(w, d), level(w, d).len()) == if d == 0 {
            0
        } else {
            level(w, (d - 1) as nat).len() / 2
        },
        level(w, d).len() - left_count(level(w, d), level(w, d).len()) == w.len(),
{
    let prev = if d == 0 {
        Seq::empty()
    } else {
        values(level(w, (d - 1) as nat))
    };
    lemma_merged_sides(pair_sums(prev), ranked_weights(w), package_first());
    lemma_left_count_all(level(w, d));
}

/// With at most `2^max_len` symbols, level `d` holds at least `2n - 2^(max_len - d)` entries.
proof fn lemma_level_len_lower(w: Seq<u64>, max_len: nat, d: nat)
    requires
        d <= max_len,
        w.len() <= pow2(max_len),
    ensures
        level(w, d).len() + pow2((max_len - d) as nat) >= 2 * w.len(),
    decreases d,
{
    lemma_level_parts(w, d);
    if d > 0 {
        lemma_level_len_lower(w, max_len, (d - 1) as nat);
        lemma_pow2_unfold((max_len - d + 1) as nat);
        assert((max_len - (d - 1)) as nat == (max_len - d + 1) as nat);
    }
}

/// The positions of level `d` that take part in the code lie within the level.
proof fn lemma_relevant_within(w: Seq<u64>, max_len: nat, d: nat)
    requires
        d < max_len,
        1 <= w.len() <= pow2(max_len),
    ensures
        relevant(w, max_len, d) <= level(w, d).len(),
{
    if d + 1 >= max_len {
        lemma_level_len_lower(w, max_len, d);
        lemma2_to64();
        assert((max_len - d) as nat == 1);
    } else {
        let up = (d + 1) as nat;
        let r = relevant(w, max_len, up);
        let s = level(w, up);
        lemma_packages_before_is_left_count(w, up, r);
        lemma_level_parts(w, up);
        if r <= s.len() {
            lemma_left_count_mono(s, r, s.len());
        } else {
            lemma_left_count_mono(s, s.len(), r);
        }
    }
}

/// At most `n` leaves take part at any level.
proof fn lemma_leaves_at_bound(w: Seq<u64>, max_len: nat, d: nat)
    requires
        d < max_len,
        1 <= w.len() <= pow2(max_len),
    ensures
        leaves_at(w, max_len, d) <= w.len(),
        packages_before(w, d, relevant(w, max_len, d)) <= relevant(w, max_len, d),
{
    let r = relevant(w, max_len, d);
    let s = level(w, d);
    lemma_relevant_within(w, max_len, d);
    lemma_packages_before_is_left_count(w, d, r);
    lemma_level_parts(w, d);
    lemma_left_count_mono(s, r, s.len());
}

/// The first level holds no packages.
proof fn lemma_no_packages_at_first_level(w: Seq<u64>, r: nat)
    ensures
        packages_before(w, 0, r) == 0,
{
    let s = level(w, 0);
    lemma_packages_before_is_left_count(w, 0, r);
    lemma_level_parts(w, 0);
    if r <= s.len() {
        lemma_left_count_mono(s, r, s.len());
    } else {
        lemma_left_count_mono(s, s.len(), r);
    }
}

/// The face value of the leaves below level `k`: a leaf taking part at level `d` is worth `2^d`.
pub open spec fn face_sum(w: Seq<u64>, max_len: nat, k: nat) -> int
    decreases k,
{
    if k == 0 {
        0
    } else {
        face_sum(w, max_len, (k - 1) as nat) + leaves_at(w, max_len, (k - 1) as nat) * pow2(
            (k - 1) as nat,
        )
    }
}

/// The leaves below level `k` are worth what the positions taking part at level `k - 1` are:
/// a package there is worth its two halves one level down.
proof fn lemma_face_sum(w: Seq<u64>, max_len: nat, k: nat)
    requires
        1 <= k <= max_len,
        1 <= w.len() <= pow2(max_len),
    ensures
        face_sum(w, max_len, k) == relevant(w, max_len, (k - 1) as nat) * pow2((k - 1) as nat),
    decreases k,
{
    let d = (k - 1) as nat;
    lemma_leaves_at_bound(w, max_len, d);
    if k == 1 {
        lemma2_to64();
        lemma_no_packages_at_first_level(w, relevant(w, max_len, 0));
        assert(face_sum(w, max_len, 0) == 0);
    } else {
        lemma_face_sum(w, max_len, d);
        let pb = packages_before(w, d, relevant(w, max_len, d));
        let lo = (d - 1) as nat;
        assert(relevant(w, max_len, lo) == 2 * pb);
        lemma_pow2_unfold(d);
        assert(2 * pb * pow2(lo) == pb * pow2(d)) by (nonlinear_arith)
            requires
                pow2(d) == 2 * pow2(lo),
        ;
        let r = relevant(w, max_len, d);
        assert(leaves_at(w, max_len, d) * pow2(d) + pb * pow2(d) == r * pow2(d)) by (nonlinear_arith)
            requires
                leaves_at(w, max_len, d) == r - pb,
        ;
    }
}

/// The face value of the levels below `k` at which the symbol ranked `p` takes part.
pub open spec fn sym_face(w: Seq<u64>, max_len: nat, p: int, k: nat) -> int
    decreases k,
{
    if k == 0 {
        0
    } else {
        sym_face(w, max_len, p, (k - 1) as nat) + if p < leaves_at(w, max_len, (k - 1) as nat) {
            pow2((k - 1) as nat) as int
        } else {
            0
        }
    }
}

/// The number of levels below `k` at which the symbol ranked `p` takes part.
pub open spec fn sym_count(w: Seq<u64>, max_len: nat, p: int, k: nat) -> nat
    decreases k,
{
    if k == 0 {
        0
    } else {
        sym_count(w, max_len, p, (k - 1) as nat) + if p < leaves_at(w, max_len, (k - 1) as nat) {
            1nat
        } else {
            0nat
        }
    }
}

proof fn lemma_sym_count(w: Seq<u64>, max_len: nat, p: int, k: nat)
    requires
        k <= max_len,
    ensures
        sym_count(w, max_len, p, k) + levels_from(w, max_len, p, k) == levels_from(w, max_len, p, 0),
    decreases k,
{
    if k > 0 {
        lemma_sym_count(w, max_len, p, (k - 1) as nat);
    }
}

/// Taking part at `c` of the levels below `k` is worth at most the top `c` of them.
proof fn lemma_sym_face_bound(w: Seq<u64>, max_len: nat, p: int, k: nat)
    ensures
        sym_count(w, max_len, p, k) <= k,
        sym_face(w, max_len, p, k) + pow2((k - sym_count(w, max_len, p, k)) as nat) <= pow2(k),
    decreases k,
{
    if k == 0 {
        lemma2_to64();
    } else {
        let j = (k - 1) as nat;
        lemma_sym_face_bound(w, max_len, p, j);
        let c = sym_count(w, max_len, p, j);
        lemma_pow2_unfold(k);
        if p < leaves_at(w, max_len, j) {
            assert((k - (c + 1)) as nat == (j - c) as nat);
        } else {
            lemma_pow2_unfold((k - c) as nat);
            assert((k - c - 1) as nat == (j - c) as nat);
            if c > 0 {
                vstd::arithmetic::power2::lemma_pow2_strictly_increases((j - c) as nat, j);
            }
        }
    }
}

/// The face values of the symbols ranked `0 .. m` below level `k`, added up.
pub open spec fn all_face(w: Seq<u64>, max_len: nat, m: nat, k: nat) -> int
    decreases m,
{
    if m == 0 {
        0
    } else {
        all_face(w, max_len, (m - 1) as nat, k) + sym_face(w, max_len, m - 1, k)
    }
}

proof fn lemma_all_face_step(w: Seq<u64>, max_len: nat, m: nat, k: nat)
    ensures
        all_face(w, max_len, m, k + 1) == all_face(w, max_len, m, k) + (if leaves_at(w, max_len, k)
            <= m {
            leaves_at(w, max_len, k) as int
        } else {
            m as int
        }) * pow2(k),
    decreases m,
{
    if m > 0 {
        lemma_all_face_step(w, max_len, (m - 1) as nat, k);
        let l = leaves_at(w, max_len, k);
        assert(((k + 1) - 1) as nat == k);
        assert(sym_face(w, max_len, m - 1, k + 1) == sym_face(w, max_len, m - 1, k) + if m - 1 < l {
            pow2(k) as int
        } else {
            0
        });
        assert(all_face(w, max_len, m, k + 1) == all_face(w, max_len, (m - 1) as nat, k + 1)
            + sym_face(w, max_len, m - 1, k + 1));
        assert(all_face(w, max_len, m, k) == all_face(w, max_len, (m - 1) as nat, k) + sym_face(
            w,
            max_len,
            m - 1,
            k,
        ));
        assert((if l <= m - 1 { l as int } else { m - 1 }) * pow2(k) + (if m - 1 < l { pow2(k) as int } else { 0 }) ==
            (if l <= m { l as int } else { m as int }) * pow2(k)) by (nonlinear_arith);
    } else {
        assert(0 * pow2(k) == 0);
        assert(all_face(w, max_len, 0, k + 1) == 0);
        assert(all_face(w, max_len, 0, k) == 0);
    }
}

/// Counting leaf by leaf or symbol by symbol gives the same total.
proof fn lemma_all_face(w: Seq<u64>, max_len: nat, k: nat)
    requires
        k <= max_len,
        1 <= w.len() <= pow2(max_len),
    ensures
        all_face(w, max_len, w.len(), k) == face_sum(w, max_len, k),
    decreases k,
{
    if k == 0 {
        lemma_all_face_zero(w, max_len, w.len());
    } else {
        lemma_all_face(w, max_len, (k - 1) as nat);
        lemma_all_face_step(w, max_len, w.len(), (k - 1) as nat);
        lemma_leaves_at_bound(w, max_len, (k - 1) as nat);
    }
}

proof fn lemma_all_face_zero(w: Seq<u64>, max_len: nat, m: nat)
    ensures
        all_face(w, max_len, m, 0) == 0,
    decreases m,
{
    if m > 0 {
        lemma_all_face_zero(w, max_len, (m - 1) as nat);
    }
}

/// `2^(max_len - length)` added up over the symbols ranked `0 .. m`: the left side of Kraft's
/// inequality, scaled by `2^max_len`.
pub open spec fn kraft_terms(w: Seq<u64>, max_len: nat, m: nat) -> int
    decreases m,
{
    if m == 0 {
        0
    } else {
        kraft_terms(w, max_len, (m - 1) as nat) + pow2(
            (max_len - code_length(w, max_len, m - 1)) as nat,
        )
    }
}

proof fn lemma_kraft_terms(w: Seq<u64>, max_len: nat, m: nat)
    ensures
        all_face(w, max_len, m, max_len) + kraft_terms(w, max_len, m) <= m * pow2(max_len),
        forall|p: int| 0 <= p < m ==> code_length(w, max_len, p) <= max_len,
    decreases m,
{
    if m > 0 {
        let p = m - 1;
        lemma_kraft_terms(w, max_len, (m - 1) as nat);
        lemma_sym_face_bound(w, max_len, p, max_len);
        lemma_sym_count(w, max_len, p, max_len);
        assert(m * pow2(max_len) == (m - 1) * pow2(max_len) + pow2(max_len)) by (nonlinear_arith);
    }
}

/// Kraft's inequality: the code lengths leave room for a prefix-free code.
pub proof fn lemma_kraft_terms_bound(w: Seq<u64>, max_len: nat)
    requires
        1 <= w.len() <= pow2(max_len),
    ensures
        kraft_terms(w, max_len, w.len()) <= pow2(max_len),
        forall|p: int| 0 <= p < w.len() ==> code_length(w, max_len, p) <= max_len,
{
    lemma_kraft_terms(w, max_len, w.len());
    if max_len == 0 {
        lemma2_to64();
        lemma_all_face_zero(w, max_len, w.len());
        assert(w.len() * pow2(0) == w.len());
    } else {
        lemma_all_face(w, max_len, max_len);
        lemma_face_sum(w, max_len, max_len);
        let lo = (max_len - 1) as nat;
        assert(relevant(w, max_len, lo) == 2 * w.len() - 2);
        lemma_pow2_unfold(max_len);
        assert((2 * w.len() - 2) * pow2(lo) == (w.len() - 1) * pow2(max_len)) by (nonlinear_arith)
            requires
                pow2(max_len) == 2 * pow2(lo),
                w.len() >= 1,
        ;
        assert(w.len() * pow2(max_len) == (w.len() - 1) * pow2(max_len) + pow2(max_len))
            by (nonlinear_arith);
    }
}

proof fn lemma_kraft_terms_lower(w: Seq<u64>, max_len: nat, m: nat, q: int)
    requires
        0 <= q < m,
        code_length(w, max_len, q) == 0,
    ensures
        kraft_terms(w, max_len, m) >= pow2(max_len) + m - 1,
    decreases m,
{
    let p = m - 1;
    lemma_pow2_pos((max_len - code_length(w, max_len, p)) as nat);
    if q < p {
        lemma_kraft_terms_lower(w, max_len, (m - 1) as nat, q);
    } else {
        lemma_kraft_terms_pos(w, max_len, (m - 1) as nat);
    }
}

proof fn lemma_kraft_terms_pos(w: Seq<u64>, max_len: nat, m: nat)
    ensures
        kraft_terms(w, max_len, m) >= m,
    decreases m,
{
    if m > 0 {
        lemma_kraft_terms_pos(w, max_len, (m - 1) as nat);
        lemma_pow2_pos((max_len - code_length(w, max_len, m - 1)) as nat);
    }
}

/// With two or more symbols, every symbol takes part in at least one level.
pub proof fn lemma_code_length_positive(w: Seq<u64>, max_len: nat, q: int)
    requires
        2 <= w.len() <= pow2(max_len),
        0 <= q < w.len(),
    ensures
        code_length(w, max_len, q) >= 1,
{
    lemma_kraft_terms_bound(w, max_len);
    if code_length(w, max_len, q) == 0 {
        lemma_kraft_terms_lower(w, max_len, w.len(), q);
    }
}

} // verus!
