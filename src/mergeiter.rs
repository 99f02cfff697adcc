use vstd::prelude::*;
use vstd::relations::{sorted_by, transitive};

verus! {

/// An element of a merged sequence, tagged with the input it came from.
#[derive(Clone, Copy, PartialEq, Eq, Debug)]
pub enum Either<T, U> {
    Left(T),
    Right(U),
}

/// The answer of a choice function: `Left` takes the head of the first input next.
#[derive(Clone, Copy, PartialEq, Eq, Debug)]
pub enum Pick {
    Left,
    Right,
}

/// The merge of `a` and `b`. While both are non-empty, the head of `a` comes next exactly
/// when `left_first` holds of the two heads. Once one side is exhausted the rest of the
/// other side follows in order, and `left_first` is no longer consulted.
pub open spec fn merged<T, U>(a: Seq<T>, b: Seq<U>, left_first: spec_fn(T, U) -> bool) -> Seq<
    Either<T, U>,
>
    decreases a.len() + b.len(),
{
    if a.len() == 0 && b.len() == 0 {
        Seq::empty()
    } else if b.len() == 0 || (a.len() > 0 && left_first(a[0], b[0])) {
        seq![Either::Left(a[0])] + merged(a.drop_first(), b, left_first)
    } else {
        seq![Either::Right(b[0])] + merged(a, b.drop_first(), left_first)
    }
}

/// The elements of `s` that came from the first input, in order.
pub open spec fn lefts<T, U>(s: Seq<Either<T, U>>) -> Seq<T>
    decreases s.len(),
{
    if s.len() == 0 {
        Seq::empty()
    } else {
        match s[0] {
            Either::Left(x) => seq![x] + lefts(s.drop_first()),
            Either::Right(_) => lefts(s.drop_first()),
        }
    }
}

/// The elements of `s` that came from the second input, in order.
pub open spec fn rights<T, U>(s: Seq<Either<T, U>>) -> Seq<U>
    decreases s.len(),
{
    if s.len() == 0 {
        Seq::empty()
    } else {
        match s[0] {
            Either::Left(_) => rights(s.drop_first()),
            Either::Right(y) => seq![y] + rights(s.drop_first()),
        }
    }
}

/// The value an element carries, whichever side it came from.
pub open spec fn value_of<T>(e: Either<T, T>) -> T {
    match e {
        Either::Left(x) => x,
        Either::Right(y) => y,
    }
}

/// The values of a merged sequence with the tags dropped.
pub open spec fn values<T>(s: Seq<Either<T, T>>) -> Seq<T> {
    s.map_values(|e: Either<T, T>| value_of(e))
}

/// A choice function that can be called on any pair of heads and answers each pair one way.
pub open spec fn pick_ok<T, U, P: Fn(&T, &U) -> Pick>(pick: P) -> bool {
    &&& forall|x: &T, y: &U| #[trigger] pick.requires((x, y))
    &&& forall|x: &T, y: &U, r1: Pick, r2: Pick|
        #![trigger pick.ensures((x, y), r1), pick.ensures((x, y), r2)]
        pick.ensures((x, y), r1) && pick.ensures((x, y), r2) ==> r1 == r2
}

/// The rule `pick` follows, as a relation: the head of the first input goes first unless
/// `pick` answers `Right`.
pub open spec fn picks_left<T, U, P: Fn(&T, &U) -> Pick>(pick: P) -> spec_fn(T, U) -> bool {
    |x: T, y: U| !pick.ensures((&x, &y), Pick::Right)
}

/// Every element of the first input and of the second input appears in the merge, each
/// exactly once and in its input's order: the merge is the disjoint union of the two inputs.
pub proof fn lemma_merged_sides<T, U>(a: Seq<T>, b: Seq<U>, left_first: spec_fn(T, U) -> bool)
    ensures
        lefts(merged(a, b, left_first)) == a,
        rights(merged(a, b, left_first)) == b,
        merged(a, b, left_first).len() == a.len() + b.len(),
    decreases a.len() + b.len(),
{
    let m = merged(a, b, left_first);
    if a.len() == 0 && b.len() == 0 {
        assert(lefts(m) =~= a);
        assert(rights(m) =~= b);
    } else if b.len() == 0 || (a.len() > 0 && left_first(a[0], b[0])) {
        let rest = merged(a.drop_first(), b, left_first);
        lemma_merged_sides(a.drop_first(), b, left_first);
        assert(m.drop_first() =~= rest);
        assert(lefts(m) =~= a);
    } else {
        let rest = merged(a, b.drop_first(), left_first);
        lemma_merged_sides(a, b.drop_first(), left_first);
        assert(m.drop_first() =~= rest);
        assert(rights(m) =~= b);
    }
}

/// Once the first input is exhausted, the merge is the second input, whatever the rule.
pub proof fn lemma_merged_first_exhausted<T, U>(b: Seq<U>, left_first: spec_fn(T, U) -> bool)
    ensures
        merged(Seq::<T>::empty(), b, left_first) == merged(
            Seq::<T>::empty(),
            b,
            |x: T, y: U| true,
        ),
        rights(merged(Seq::<T>::empty(), b, left_first)) == b,
        lefts(merged(Seq::<T>::empty(), b, left_first)) == Seq::<T>::empty(),
    decreases b.len(),
{
    lemma_merged_sides(Seq::<T>::empty(), b, left_first);
    if b.len() > 0 {
        lemma_merged_first_exhausted(b.drop_first(), left_first);
    }
}

/// Once the second input is exhausted, the merge is the first input, whatever the rule.
pub proof fn lemma_merged_second_exhausted<T, U>(a: Seq<T>, left_first: spec_fn(T, U) -> bool)
    ensures
        merged(a, Seq::<U>::empty(), left_first) == merged(
            a,
            Seq::<U>::empty(),
            |x: T, y: U| false,
        ),
        lefts(merged(a, Seq::<U>::empty(), left_first)) == a,
        rights(merged(a, Seq::<U>::empty(), left_first)) == Seq::<U>::empty(),
    decreases a.len(),
{
    lemma_merged_sides(a, Seq::<U>::empty(), left_first);
    if a.len() > 0 {
        lemma_merged_second_exhausted(a.drop_first(), left_first);
    }
}

/// A property that holds of every element of both inputs holds of every value of the merge.
pub proof fn lemma_merged_all<T>(
    a: Seq<T>,
    b: Seq<T>,
    left_first: spec_fn(T, T) -> bool,
    p: spec_fn(T) -> bool,
)
    requires
        forall|i: int| 0 <= i < a.len() ==> #[trigger] p(a[i]),
        forall|j: int| 0 <= j < b.len() ==> #[trigger] p(b[j]),
    ensures
        forall|k: int|
            0 <= k < merged(a, b, left_first).len() ==> #[trigger] p(
                values(merged(a, b, left_first))[k],
            ),
    decreases a.len() + b.len(),
{
    let m = merged(a, b, left_first);
    if a.len() == 0 && b.len() == 0 {
    } else if b.len() == 0 || (a.len() > 0 && left_first(a[0], b[0])) {
        lemma_merged_all(a.drop_first(), b, left_first, p);
        let rest = merged(a.drop_first(), b, left_first);
        assert forall|k: int| 0 <= k < m.len() implies #[trigger] p(values(m)[k]) by {
            if k > 0 {
                assert(values(m)[k] == values(rest)[k - 1]);
            }
        }
    } else {
        lemma_merged_all(a, b.drop_first(), left_first, p);
        let rest = merged(a, b.drop_first(), left_first);
        assert forall|k: int| 0 <= k < m.len() implies #[trigger] p(values(m)[k]) by {
            if k > 0 {
                assert(values(m)[k] == values(rest)[k - 1]);
            }
        }
    }
}

/// Two inputs ascending under `le`, merged by a rule that puts an element first only when
/// it is `le` the other, give an ascending merge.
pub proof fn lemma_merged_sorted<T>(
    a: Seq<T>,
    b: Seq<T>,
    left_first: spec_fn(T, T) -> bool,
    le: spec_fn(T, T) -> bool,
)
    requires
        transitive(le),
        forall|x: T, y: T| #[trigger] left_first(x, y) ==> le(x, y),
        forall|x: T, y: T| !#[trigger] left_first(x, y) ==> le(y, x),
        sorted_by(a, le),
        sorted_by(b, le),
    ensures
        sorted_by(values(merged(a, b, left_first)), le),
    decreases a.len() + b.len(),
{
    let m = merged(a, b, left_first);
    if a.len() == 0 && b.len() == 0 {
    } else {
        let h = values(m)[0];
        let rest = if b.len() == 0 || (a.len() > 0 && left_first(a[0], b[0])) {
            merged(a.drop_first(), b, left_first)
        } else {
            merged(a, b.drop_first(), left_first)
        };
        let p = |x: T| le(h, x);
        if b.len() == 0 || (a.len() > 0 && left_first(a[0], b[0])) {
            lemma_merged_sorted(a.drop_first(), b, left_first, le);
            if b.len() > 0 {
                assert(le(a[0], b[0]));
            }
            assert forall|i: int| 0 <= i < a.drop_first().len() implies #[trigger] p(
                a.drop_first()[i],
            ) by {
                assert(le(a[0], a[i + 1]));
            }
            assert forall|j: int| 0 <= j < b.len() implies #[trigger] p(b[j]) by {
                if j > 0 {
                    assert(le(b[0], b[j]));
                }
            }
            lemma_merged_all(a.drop_first(), b, left_first, p);
        } else {
            lemma_merged_sorted(a, b.drop_first(), left_first, le);
            if a.len() > 0 {
                assert(le(b[0], a[0]));
            }
            assert forall|i: int| 0 <= i < a.len() implies #[trigger] p(a[i]) by {
                if i > 0 {
                    assert(le(a[0], a[i]));
                }
            }
            assert forall|j: int| 0 <= j < b.drop_first().len() implies #[trigger] p(
                b.drop_first()[j],
            ) by {
                assert(le(b[0], b[j + 1]));
            }
            lemma_merged_all(a, b.drop_first(), left_first, p);
        }
        assert forall|i: int, j: int| 0 <= i < j < values(m).len() implies #[trigger] le(
            values(m)[i],
            values(m)[j],
        ) by {
            assert(values(m)[j] == values(rest)[j - 1]);
            if i > 0 {
                assert(values(m)[i] == values(rest)[i - 1]);
            } else {
                assert(p(values(rest)[j - 1]));
            }
        }
    }
}

/// `pick` can be called on any pair of heads and answers `Left` exactly where `rule` holds.
pub open spec fn follows_rule<T, U, P: Fn(&T, &U) -> Pick>(pick: P, rule: spec_fn(T, U) -> bool) -> bool {
    &&& forall|x: &T, y: &U| #[trigger] pick.requires((x, y))
    &&& forall|x: &T, y: &U, r: Pick| #[trigger]
        pick.ensures((x, y), r) ==> (r == Pick::Left <==> rule(*x, *y))
}

/// A one-shot merge of two sequences that emits one tagged element per step. It holds
/// one cursor per input, so each element is read once and never looked at again.
#[verifier::reject_recursive_types(T)]
#[verifier::reject_recursive_types(U)]
pub struct MergeIter<T, U, P> {
    ita: Vec<T>,
    itb: Vec<U>,
    ia: usize,
    ib: usize,
    pck: P,
    rule: Ghost<spec_fn(T, U) -> bool>,
}

impl<T: Copy, U: Copy, P: Fn(&T, &U) -> Pick> MergeIter<T, U, P> {
    /// The cursors lie within their inputs and the choice function can be called.
    pub closed spec fn wf(&self) -> bool {
        &&& self.ia <= self.ita.len()
        &&& self.ib <= self.itb.len()
        &&& follows_rule(self.pck, self.rule@)
    }

    /// The rule the choice function follows.
    pub closed spec fn rule(&self) -> spec_fn(T, U) -> bool {
        self.rule@
    }

    /// What is still to be emitted.
    pub closed spec fn remaining(&self) -> Seq<Either<T, U>> {
        merged(
            self.ita@.skip(self.ia as int),
            self.itb@.skip(self.ib as int),
            self.rule@,
        )
    }

    /// Starts a merge of `ia` and `ib` under `pck`, which follows `rule`.
    pub fn new(ia: Vec<T>, ib: Vec<U>, pck: P, rule: Ghost<spec_fn(T, U) -> bool>) -> (r: Self)
        requires
            follows_rule(pck, rule@),
        ensures
            r.wf(),
            r.rule() == rule@,
            r.remaining() == merged(ia@, ib@, rule@),
    {
        let r = MergeIter { ita: ia, itb: ib, ia: 0, ib: 0, pck, rule };
        assert(r.ita@.skip(0) =~= r.ita@);
        assert(r.itb@.skip(0) =~= r.itb@);
        r
    }

    /// Bounds on the number of elements still to come: the exact count, saturated at
    /// `usize::MAX` in the lower bound, and `None` as the upper bound where it does not fit.
    pub fn size_hint(&self) -> (r: (usize, Option<usize>))
        requires
            self.wf(),
        ensures
            r.0 == if self.remaining().len() <= usize::MAX {
                self.remaining().len() as usize
            } else {
                usize::MAX
            },
            r.1 == if self.remaining().len() <= usize::MAX {
                Some(self.remaining().len() as usize)
            } else {
                None::<usize>
            },
    {
        proof {
            lemma_merged_sides(
                self.ita@.skip(self.ia as int),
                self.itb@.skip(self.ib as int),
                self.rule@,
            );
        }
        let left = self.ita.len() - self.ia;
        let right = self.itb.len() - self.ib;
        if left <= usize::MAX - right {
            (left + right, Some(left + right))
        } else {
            (usize::MAX, None)
        }
    }

    /// Emits the next element of the merge, or `None` once both inputs are exhausted.
    /// `pck` is called only while both inputs still have an element.
    pub fn next(&mut self) -> (r: Option<Either<T, U>>)
        requires
            old(self).wf(),
        ensures
            final(self).wf(),
            final(self).rule() == old(self).rule(),
            old(self).remaining().len() == 0 ==> r is None && final(self).remaining() == old(
                self,
            ).remaining(),
            old(self).remaining().len() > 0 ==> r == Some(old(self).remaining()[0])
                && final(self).remaining() == old(self).remaining().drop_first(),
    {
        let ghost ra = self.ita@.skip(self.ia as int);
        let ghost rb = self.itb@.skip(self.ib as int);
        let ghost f = self.rule@;
        proof {
            lemma_merged_sides(ra, rb, f);
        }
        if self.ia < self.ita.len() {
            let x = self.ita[self.ia];
            if self.ib < self.itb.len() {
                let y = self.itb[self.ib];
                let p = (self.pck)(&x, &y);
                match p {
                    Pick::Left => {
                        assert(f(ra[0], rb[0]));
                        self.ia = self.ia + 1;
                        assert(self.ita@.skip(self.ia as int) =~= ra.drop_first());
                        Some(Either::Left(x))
                    },
                    Pick::Right => {
                        assert(!f(ra[0], rb[0]));
                        self.ib = self.ib + 1;
                        assert(self.itb@.skip(self.ib as int) =~= rb.drop_first());
                        Some(Either::Right(y))
                    },
                }
            } else {
                self.ia = self.ia + 1;
                assert(self.ita@.skip(self.ia as int) =~= ra.drop_first());
                Some(Either::Left(x))
            }
        } else if self.ib < self.itb.len() {
            let y = self.itb[self.ib];
            self.ib = self.ib + 1;
            assert(self.itb@.skip(self.ib as int) =~= rb.drop_first());
            Some(Either::Right(y))
        } else {
            None
        }
    }
}

/// Merges `a` and `b`, asking `pick` which head goes first while both have one.
pub fn merge<T: Copy, U: Copy, P: Fn(&T, &U) -> Pick>(a: Vec<T>, b: Vec<U>, pick: P) -> (r:
    MergeIter<T, U, P>)
    requires
        pick_ok(pick),
    ensures
        r.wf(),
        r.rule() == picks_left(pick),
        r.remaining() == merged(a@, b@, picks_left(pick)),
{
    MergeIter::new(a, b, pick, Ghost(picks_left(pick)))
}

} // verus!
