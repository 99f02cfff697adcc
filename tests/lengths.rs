use package_merge::levels::complete_chunks;
use package_merge::{check_inputs, package_merge, Error};

const FREQS: [u64; 7] = [1, 32, 16, 4, 8, 2, 1];

#[test]
fn lib_it_works() {
    let freqs = FREQS;
    let cl = package_merge(&freqs, 8).unwrap();
    assert_eq!(&cl[..], &[6, 1, 2, 4, 3, 5, 6]);
    let cl = package_merge(&freqs, 5).unwrap();
    assert_eq!(&cl[..], &[5, 1, 2, 5, 3, 5, 5]);
}

#[test]
#[should_panic]
fn it_fails() {
    let freqs = FREQS;
    package_merge(&freqs, 2).unwrap();
}

#[test]
fn limit_too_small_is_reported() {
    assert_eq!(package_merge(&FREQS, 2), Err(Error::MaxLenTooSmall));
    assert_eq!(package_merge(&[2, 1], 0), Err(Error::MaxLenTooSmall));
}

#[test]
fn empty_input_is_reported() {
    assert_eq!(package_merge(&[], 8), Err(Error::NoSymbols));
    assert_eq!(package_merge(&[], 40), Err(Error::NoSymbols));
}

#[test]
fn limit_too_large_is_reported() {
    assert_eq!(package_merge(&FREQS, 33), Err(Error::MaxLenTooLarge));
    assert_eq!(package_merge(&[1], 64), Err(Error::MaxLenTooLarge));
    assert_eq!(package_merge(&[1, 2], 32).map(|v| v.len()), Ok(2));
}

#[test]
fn single_symbol_gets_length_zero() {
    assert_eq!(package_merge(&[7], 0), Ok(vec![0]));
    assert_eq!(package_merge(&[7], 3), Ok(vec![0]));
}

#[test]
fn symbol_count_equal_to_capacity_is_accepted() {
    assert_eq!(package_merge(&[5, 5, 5, 5], 2), Ok(vec![2, 2, 2, 2]));
    assert_eq!(package_merge(&[2, 1], 1), Ok(vec![1, 1]));
    assert_eq!(package_merge(&[3, 3], 1), Ok(vec![1, 1]));
}

#[test]
fn equal_frequencies_keep_input_order() {
    // the last of three equal symbols ranks last and gets the shortest code
    assert_eq!(package_merge(&[1, 1, 1], 4), Ok(vec![2, 2, 1]));
}

#[test]
fn limit_changes_lengths() {
    let freqs = [10, 1, 1, 1, 1, 1, 1, 1];
    assert_eq!(package_merge(&freqs, 3), Ok(vec![3, 3, 3, 3, 3, 3, 3, 3]));
    assert_eq!(package_merge(&freqs, 4), Ok(vec![1, 4, 4, 4, 4, 4, 4, 3]));
}

#[test]
fn largest_frequencies_do_not_overflow() {
    let m = u64::MAX;
    assert_eq!(package_merge(&[m, m, m], 32), Ok(vec![2, 2, 1]));
    assert_eq!(package_merge(&[m, 1, m, 7], 3), Ok(vec![2, 3, 1, 3]));
}

#[test]
fn same_inputs_give_same_lengths() {
    assert_eq!(package_merge(&FREQS, 6), package_merge(&FREQS, 6));
}

fn kraft_sum_times(lens: &[u32], max_len: u32) -> u64 {
    lens.iter().map(|&l| 1u64 << (max_len - l)).sum()
}

#[test]
fn lengths_are_bounded_and_satisfy_kraft() {
    for max_len in 3..=10u32 {
        let cl = package_merge(&FREQS, max_len).unwrap();
        assert!(cl.iter().all(|&l| l >= 1 && l <= max_len));
        assert!(kraft_sum_times(&cl, max_len) <= 1u64 << max_len);
    }
}

#[test]
fn higher_frequency_never_gets_longer_code() {
    let cl = package_merge(&FREQS, 5).unwrap();
    for i in 0..FREQS.len() {
        for j in 0..FREQS.len() {
            if FREQS[i] < FREQS[j] {
                assert!(cl[i] >= cl[j]);
            }
        }
    }
}

#[test]
fn error_descriptions() {
    assert_eq!(Error::NoSymbols.descr(), "package-merge error: frequencies slice was empty");
    assert_eq!(
        Error::MaxLenTooSmall.descr(),
        "package-merge error: max_len parameter was chosen too small"
    );
    assert_eq!(
        Error::MaxLenTooLarge.descr(),
        "package-merge error: max_len parameter was chosen too large"
    );
}

#[test]
fn input_checks() {
    assert_eq!(check_inputs(0, 5), Err(Error::NoSymbols));
    assert_eq!(check_inputs(4, 2), Ok(()));
    assert_eq!(check_inputs(5, 2), Err(Error::MaxLenTooSmall));
    assert_eq!(check_inputs(1 << 32, 32), Ok(()));
    assert_eq!(check_inputs((1 << 32) + 1, 32), Err(Error::MaxLenTooSmall));
    assert_eq!(check_inputs(3, 33), Err(Error::MaxLenTooLarge));
}

#[test]
fn too_small_takes_precedence_over_too_large() {
    assert_eq!(check_inputs((1 << 33) + 1, 33), Err(Error::MaxLenTooSmall));
    assert_eq!(check_inputs(1 << 33, 33), Err(Error::MaxLenTooLarge));
    assert_eq!(check_inputs(usize::MAX, 63), Err(Error::MaxLenTooSmall));
    assert_eq!(check_inputs(usize::MAX, 64), Err(Error::MaxLenTooLarge));
    assert_eq!(check_inputs(usize::MAX, u32::MAX), Err(Error::MaxLenTooLarge));
}

#[test]
fn ranking_with_many_ties() {
    assert_eq!(
        package_merge(&[3, 1, 3, 1, 2, 0, 9, 9, 4, 1, 2], 4),
        Ok(vec![4, 4, 4, 4, 4, 4, 3, 2, 3, 4, 4])
    );
    let freqs: Vec<u64> = (0..40u64).map(|i| i % 7).collect();
    let expected: Vec<u32> = vec![
        6, 6, 6, 6, 5, 5, 5, 6, 6, 6, 6, 5, 5, 4, 6, 6, 6, 6, 5, 5, 4, 6, 6, 6, 6, 5, 5, 4, 6,
        6, 6, 6, 5, 5, 4, 6, 6, 6, 6, 5,
    ];
    assert_eq!(package_merge(&freqs, 6), Ok(expected));
}

#[test]
fn complete_chunks_drops_the_remainder() {
    assert_eq!(complete_chunks(7, 2), 6);
    assert_eq!(complete_chunks(8, 2), 8);
    assert_eq!(complete_chunks(10, 3), 9);
    assert_eq!(complete_chunks(0, 4), 0);
}
