//! Optimal length-limited prefix-free code lengths by the package-merge algorithm.
//!
//! Given the frequency of each symbol and a limit on the length of code words, the
//! library computes, for each symbol, the length of its code word, so that no length
//! exceeds the limit and the expected code length is as small as the limit allows.
//! Unlike Huffman's algorithm, the longest code word is bounded.
//!
//! Frequencies are non-negative integers (`u64`); the sums the algorithm forms are kept in
//! `u128`, where they provably cannot overflow.
pub mod mergeiter;
pub mod kraft;
pub mod lengths;
pub mod levels;
pub mod rank;

use vstd::prelude::*;

use crate::lengths::{
    code_length,
    decode,
    lemma_levels_below_empty,
    levels_from,
    lemma_levels_from_bound,
    lemma_levels_from_monotone,
};
use crate::levels::build_levels;
use crate::kraft::{kraft_terms, lemma_code_length_positive, lemma_kraft_terms_bound};
use crate::rank::{
    lemma_ranking_multiset,
    lemma_ranking_permutation,
    lemma_seq_sum_permutation,
    rank_le,
    rank_symbols,
    ranking,
    seq_sum,
    symbols,
};
use vstd::arithmetic::power2::pow2;

verus! {

/// Why code lengths could not be computed.
#[derive(Clone, Copy, PartialEq, Eq, Debug)]
pub enum Error {
    /// The frequencies were empty.
    NoSymbols,
    /// The length limit leaves room for fewer code words than there are symbols.
    MaxLenTooSmall,
    /// The length limit exceeds the 32 levels the algorithm supports.
    MaxLenTooLarge,
}

impl Error {
    /// A sentence that describes the error.
    pub fn descr(&self) -> (r: &'static str)
        ensures
            r@ == error_text(*self),
    {
        match *self {
            Error::NoSymbols => "package-merge error: frequencies slice was empty",
            Error::MaxLenTooSmall => "package-merge error: max_len parameter was chosen too small",
            Error::MaxLenTooLarge => "package-merge error: max_len parameter was chosen too large",
        }
    }
}

/// The sentence that describes each error.
pub open spec fn error_text(e: Error) -> Seq<char> {
    match e {
        Error::NoSymbols => "package-merge error: frequencies slice was empty"@,
        Error::MaxLenTooSmall => "package-merge error: max_len parameter was chosen too small"@,
        Error::MaxLenTooLarge => "package-merge error: max_len parameter was chosen too large"@,
    }
}

/// The largest length limit the algorithm supports.
pub const MAX_LEVELS: u32 = 32;

/// Which error, if any, the inputs call for, checked in this order: no symbols; more
/// symbols than there are code words of at most `max_len` bits (`2^max_len`); a limit beyond
/// `MAX_LEVELS`.
pub open spec fn input_error(n: nat, max_len: nat) -> Option<Error> {
    if n == 0 {
        Some(Error::NoSymbols)
    } else if n > pow2(max_len) {
        Some(Error::MaxLenTooSmall)
    } else if max_len > MAX_LEVELS {
        Some(Error::MaxLenTooLarge)
    } else {
        None
    }
}

/// Checks the number of symbols `n` against the length limit `max_len`.
pub fn check_inputs(n: usize, max_len: u32) -> (r: Result<(), Error>)
    ensures
        r is Err <==> input_error(n as nat, max_len as nat) is Some,
        r is Err ==> r->Err_0 == input_error(n as nat, max_len as nat)->Some_0,
{
    if n == 0 {
        return Err(Error::NoSymbols);
    }
    // `n` is below `2^64`, so a limit of 64 or more always leaves room for it.
    let lim: u32 = if max_len < 64 {
        max_len
    } else {
        64
    };
    let mut cap: u128 = 1;
    let mut i: u32 = 0;
    proof {
        vstd::arithmetic::power2::lemma2_to64();
    }
    while i < lim
        invariant
            i <= lim <= 64,
            cap == pow2(i as nat),
        decreases lim - i,
    {
        proof {
            vstd::arithmetic::power2::lemma2_to64();
            vstd::arithmetic::power2::lemma_pow2_unfold((i + 1) as nat);
            vstd::arithmetic::power2::lemma_pow2_strictly_increases(i as nat, 64);
        }
        cap = cap * 2;
        i = i + 1;
    }
    proof {
        vstd::arithmetic::power2::lemma2_to64();
        if max_len > 64 {
            vstd::arithmetic::power2::lemma_pow2_strictly_increases(64, max_len as nat);
        }
    }
    if n as u128 > cap {
        return Err(Error::MaxLenTooSmall);
    }
    if max_len > MAX_LEVELS {
        return Err(Error::MaxLenTooLarge);
    }
    Ok(())
}

/// `r` gives each symbol the code length that package-merge assigns it under the limit
/// `max_len`: `r[s]` is the length for `w[s]`, where the symbol ranked `p` gets
/// `code_length(w, max_len, p)`.
pub open spec fn is_code_lengths(w: Seq<u64>, max_len: nat, r: Seq<u32>) -> bool {
    &&& r.len() == w.len()
    &&& forall|p: int| 0 <= p < w.len() ==> r[ranking(w)[p] as int] == code_length(w, max_len, p)
}

/// Computes, for symbols of frequencies `frequencies` and a limit `max_len` (at most 32) on
/// the length of code words, the code length of each symbol in an optimal length-limited
/// prefix-free code. The result is aligned with `frequencies`. A lone symbol gets the
/// length 0; with two or more, every length lies between 1 and `max_len`.
pub fn package_merge(frequencies: &[u64], max_len: u32) -> (r: Result<Vec<u32>, Error>)
    ensures
        r is Err <==> input_error(frequencies@.len(), max_len as nat) is Some,
        r is Err ==> r->Err_0 == input_error(frequencies@.len(), max_len as nat)->Some_0,
        r is Ok ==> is_code_lengths(frequencies@, max_len as nat, r->Ok_0@),
        r is Ok ==> forall|s: int|
            0 <= s < frequencies@.len() ==> #[trigger] r->Ok_0@[s] <= max_len,
        r is Ok ==> kraft_sum(max_len as nat, r->Ok_0@, frequencies@.len()) <= pow2(max_len as nat),
        r is Ok && frequencies@.len() >= 2 ==> forall|s: int|
            0 <= s < frequencies@.len() ==> 1 <= #[trigger] r->Ok_0@[s],
        r is Ok && frequencies@.len() == 1 ==> r->Ok_0@[0] == 0,
{
    match check_inputs(frequencies.len(), max_len) {
        Err(e) => {
            return Err(e);
        },
        Ok(()) => {},
    }
    proof {
        vstd::arithmetic::power2::lemma2_to64();
        if max_len < 32 {
            vstd::arithmetic::power2::lemma_pow2_strictly_increases(max_len as nat, 32);
        }
    }
    let sorted = rank_symbols(frequencies);
    let flags = build_levels(frequencies, &sorted, max_len);
    let code_lens = decode(Ghost(frequencies@), &flags, &sorted, max_len);
    proof {
        lemma_length_bound(frequencies@, max_len as nat, code_lens@);
        lemma_kraft(frequencies@, max_len as nat, code_lens@);
        if frequencies@.len() >= 2 {
            lemma_length_range(frequencies@, max_len as nat, code_lens@);
        } else {
            lemma_single_symbol(frequencies@, max_len as nat, code_lens@);
        }
    }
    Ok(code_lens)
}

/// The result is a function of the frequencies and the limit: two results for the same
/// inputs are equal.
pub proof fn lemma_deterministic(w: Seq<u64>, max_len: nat, r1: Seq<u32>, r2: Seq<u32>)
    requires
        w.len() <= usize::MAX,
        is_code_lengths(w, max_len, r1),
        is_code_lengths(w, max_len, r2),
    ensures
        r1 == r2,
{
    lemma_ranking_permutation(w);
    assert forall|s: int| 0 <= s < w.len() implies r1[s] == r2[s] by {
        assert(ranking(w).contains(s as usize));
        let p = choose|p: int| 0 <= p < w.len() && #[trigger] ranking(w)[p] == s as usize;
        assert(r1[ranking(w)[p] as int] == code_length(w, max_len, p));
        assert(r2[ranking(w)[p] as int] == code_length(w, max_len, p));
    }
    assert(r1 =~= r2);
}

/// No code length exceeds the limit.
pub proof fn lemma_length_bound(w: Seq<u64>, max_len: nat, r: Seq<u32>)
    requires
        w.len() <= usize::MAX,
        is_code_lengths(w, max_len, r),
    ensures
        forall|s: int| 0 <= s < w.len() ==> r[s] <= max_len,
{
    lemma_ranking_permutation(w);
    assert forall|s: int| 0 <= s < w.len() implies r[s] <= max_len by {
        assert(ranking(w).contains(s as usize));
        let p = choose|p: int| 0 <= p < w.len() && #[trigger] ranking(w)[p] == s as usize;
        lemma_levels_from_bound(w, max_len, p, 0);
        assert(r[ranking(w)[p] as int] == code_length(w, max_len, p));
    }
}

/// A single symbol gets the length 0: no code word is needed to tell it apart.
pub proof fn lemma_single_symbol(w: Seq<u64>, max_len: nat, r: Seq<u32>)
    requires
        is_code_lengths(w, max_len, r),
        w.len() == 1,
    ensures
        r[0] == 0,
{
    lemma_ranking_permutation(w);
    assert(ranking(w)[0] < 1);
    if max_len > 0 {
        lemma_levels_below_empty(w, max_len, 0, max_len);
    }
    assert(levels_from(w, max_len, 0, max_len) == 0);
    assert(r[ranking(w)[0] as int] == code_length(w, max_len, 0));
}

/// With two or more symbols, every code length lies between 1 and the limit.
pub proof fn lemma_length_range(w: Seq<u64>, max_len: nat, r: Seq<u32>)
    requires
        2 <= w.len() <= usize::MAX,
        input_error(w.len(), max_len) is None,
        is_code_lengths(w, max_len, r),
    ensures
        forall|s: int| 0 <= s < w.len() ==> 1 <= #[trigger] r[s] <= max_len,
{
    lemma_ranking_permutation(w);
    lemma_length_bound(w, max_len, r);
    assert forall|s: int| 0 <= s < w.len() implies 1 <= #[trigger] r[s] by {
        assert(ranking(w).contains(s as usize));
        let p = choose|p: int| 0 <= p < w.len() && #[trigger] ranking(w)[p] == s as usize;
        lemma_code_length_positive(w, max_len, p);
        assert(r[ranking(w)[p] as int] == code_length(w, max_len, p));
    }
}

/// `2^(max_len - r[s])` added up over the symbols `0 .. m`: the left side of Kraft's
/// inequality, scaled by `2^max_len`.
pub open spec fn kraft_sum(max_len: nat, r: Seq<u32>, m: nat) -> int
    decreases m,
{
    if m == 0 {
        0
    } else {
        kraft_sum(max_len, r, (m - 1) as nat) + pow2((max_len - r[m - 1]) as nat)
    }
}

/// The weight `2^(max_len - r[s])` of symbol `s`.
spec fn kraft_weight(max_len: nat, r: Seq<u32>) -> spec_fn(usize) -> int {
    |s: usize| pow2((max_len - r[s as int]) as nat) as int
}

proof fn lemma_kraft_sum_in_order(max_len: nat, r: Seq<u32>, m: nat)
    requires
        m <= usize::MAX + 1,
    ensures
        kraft_sum(max_len, r, m) == seq_sum(symbols(m), kraft_weight(max_len, r)),
    decreases m,
{
    if m > 0 {
        lemma_kraft_sum_in_order(max_len, r, (m - 1) as nat);
        assert(symbols(m).drop_last() =~= symbols((m - 1) as nat));
    }
}

proof fn lemma_kraft_sum_ranked(w: Seq<u64>, max_len: nat, r: Seq<u32>, m: nat)
    requires
        m <= w.len() <= usize::MAX,
        is_code_lengths(w, max_len, r),
    ensures
        kraft_terms(w, max_len, m) == seq_sum(ranking(w).take(m as int), kraft_weight(max_len, r)),
    decreases m,
{
    lemma_ranking_permutation(w);
    if m > 0 {
        lemma_kraft_sum_ranked(w, max_len, r, (m - 1) as nat);
        assert(ranking(w).take(m as int).drop_last() =~= ranking(w).take(m - 1));
        assert(r[ranking(w)[m - 1] as int] == code_length(w, max_len, m - 1));
    }
}

/// Kraft's inequality: the lengths add up to at most one in `2^-length`, so a prefix-free code
/// with exactly these lengths exists.
pub proof fn lemma_kraft(w: Seq<u64>, max_len: nat, r: Seq<u32>)
    requires
        w.len() <= usize::MAX,
        input_error(w.len(), max_len) is None,
        is_code_lengths(w, max_len, r),
    ensures
        kraft_sum(max_len, r, w.len()) <= pow2(max_len),
{
    lemma_kraft_terms_bound(w, max_len);
    lemma_ranking_permutation(w);
    lemma_ranking_multiset(w);
    lemma_kraft_sum_ranked(w, max_len, r, w.len());
    assert(ranking(w).take(w.len() as int) =~= ranking(w));
    lemma_seq_sum_permutation(ranking(w), kraft_weight(max_len, r), w.len());
    lemma_kraft_sum_in_order(max_len, r, w.len());
}

/// A symbol of lower frequency than another, or of equal frequency and earlier in the
/// input, never gets a shorter code.
pub proof fn lemma_monotone(w: Seq<u64>, max_len: nat, r: Seq<u32>, i: int, j: int)
    requires
        is_code_lengths(w, max_len, r),
        0 <= i < w.len() <= usize::MAX,
        0 <= j < w.len(),
        w[i] < w[j] || (w[i] == w[j] && i < j),
    ensures
        r[i] >= r[j],
{
    lemma_ranking_permutation(w);
    assert(ranking(w).contains(i as usize));
    assert(ranking(w).contains(j as usize));
    let p = choose|p: int| 0 <= p < w.len() && #[trigger] ranking(w)[p] == i as usize;
    let q = choose|q: int| 0 <= q < w.len() && #[trigger] ranking(w)[q] == j as usize;
    if q < p {
        assert(rank_le(w)(ranking(w)[q], ranking(w)[p]));
    }
    lemma_levels_from_monotone(w, max_len, p, q, 0);
    assert(r[ranking(w)[p] as int] == code_length(w, max_len, p));
    assert(r[ranking(w)[q] as int] == code_length(w, max_len, q));
}

} // verus!
