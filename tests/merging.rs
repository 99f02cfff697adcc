use package_merge::mergeiter::{merge, Either, MergeIter, Pick};

fn pick_f64(&a: &f64, &b: &f64) -> Pick {
    if a < b {
        Pick::Left
    } else {
        Pick::Right
    }
}

fn drain<T: Copy, U: Copy, P: Fn(&T, &U) -> Pick>(mut it: MergeIter<T, U, P>) -> Vec<Either<T, U>> {
    let mut out = Vec::new();
    while let Some(e) = it.next() {
        out.push(e);
    }
    out
}

#[test]
fn mergeiter_it_works() {
    let f1 = [1.25, 2.375, 5.5, 9.25];
    let f2 = [3.25, 3.375, 6.5, 7.75];
    let vec: Vec<_> = drain(merge(f1.to_vec(), f2.to_vec(), pick_f64));
    assert_eq!(
        &vec[..],
        &[
            Either::Left(1.25),
            Either::Left(2.375),
            Either::Right(3.25),
            Either::Right(3.375),
            Either::Left(5.5),
            Either::Right(6.5),
            Either::Right(7.75),
            Either::Left(9.25)
        ]
    );
}

#[test]
fn exhausted_side_stops_consulting_pick() {
    let calls = std::cell::Cell::new(0u32);
    let pick = |a: &u32, b: &u32| {
        calls.set(calls.get() + 1);
        if a <= b {
            Pick::Left
        } else {
            Pick::Right
        }
    };
    let out = drain(merge(vec![1u32, 2], vec![5u32, 6, 7], pick));
    assert_eq!(
        out,
        vec![
            Either::Left(1),
            Either::Left(2),
            Either::Right(5),
            Either::Right(6),
            Either::Right(7)
        ]
    );
    assert_eq!(calls.get(), 2);
}

#[test]
fn ties_follow_pick() {
    let left_on_tie = |a: &u32, b: &u32| if a <= b { Pick::Left } else { Pick::Right };
    let out = drain(merge(vec![3u32, 3], vec![3u32], left_on_tie));
    assert_eq!(out, vec![Either::Left(3), Either::Left(3), Either::Right(3)]);
    let right_on_tie = |a: &u32, b: &u32| if a < b { Pick::Left } else { Pick::Right };
    let out = drain(merge(vec![3u32, 3], vec![3u32], right_on_tie));
    assert_eq!(out, vec![Either::Right(3), Either::Left(3), Either::Left(3)]);
}

#[test]
fn empty_inputs_and_one_shot() {
    let pick = |_: &u8, _: &u8| Pick::Left;
    let mut it = merge(Vec::<u8>::new(), Vec::<u8>::new(), pick);
    assert_eq!(it.next(), None);
    assert_eq!(it.next(), None);
    let mut it = merge(vec![4u8], Vec::new(), pick);
    assert_eq!(it.next(), Some(Either::Left(4)));
    assert_eq!(it.next(), None);
    assert_eq!(it.next(), None);
}

#[test]
fn merge_keeps_every_element_once() {
    let pick = |a: &i64, b: &i64| if a <= b { Pick::Left } else { Pick::Right };
    let a = vec![-3i64, 0, 0, 8, 9];
    let b = vec![-5i64, 0, 4, 4, 10, 11];
    let out = drain(merge(a.clone(), b.clone(), pick));
    let lefts: Vec<i64> = out.iter().filter_map(|e| if let Either::Left(x) = e { Some(*x) } else { None }).collect();
    let rights: Vec<i64> = out.iter().filter_map(|e| if let Either::Right(y) = e { Some(*y) } else { None }).collect();
    assert_eq!(lefts, a);
    assert_eq!(rights, b);
    let vals: Vec<i64> = out.iter().map(|e| match e { Either::Left(x) | Either::Right(x) => *x }).collect();
    assert_eq!(vals, vec![-5, -3, 0, 0, 0, 4, 4, 8, 9, 10, 11]);
}

#[test]
fn size_hint_counts_what_remains() {
    let pick = |a: &u8, b: &u8| if a <= b { Pick::Left } else { Pick::Right };
    let mut it = merge(vec![1u8, 4], vec![2u8, 3, 5], pick);
    assert_eq!(it.size_hint(), (5, Some(5)));
    it.next();
    it.next();
    assert_eq!(it.size_hint(), (3, Some(3)));
    while it.next().is_some() {}
    assert_eq!(it.size_hint(), (0, Some(0)));
}
