//! Prefix sums, for constant-time sums over half-open index ranges.
use vstd::prelude::*;

verus! {

/// Sum of all elements of `s`.
pub open spec fn seq_sum(s: Seq<i64>) -> int
    decreases s.len(),
{
    if s.len() == 0 {
        0
    } else {
        seq_sum(s.drop_last()) + s.last()
    }
}

/// Every prefix sum of `v` is representable as an `i64`.
pub open spec fn prefix_sums_fit(v: Seq<i64>) -> bool {
    forall|i: int|
        0 <= i <= v.len() ==> i64::MIN <= #[trigger] seq_sum(v.take(i)) <= i64::MAX
}

/// The sum over `[left, right)` is the difference of the two prefix sums.
pub proof fn lemma_range_sum(v: Seq<i64>, left: int, right: int)
    requires
        0 <= left <= right <= v.len(),
    ensures
        seq_sum(v.take(right)) - seq_sum(v.take(left)) == seq_sum(v.subrange(left, right)),
    decreases right - left,
{
    if left == right {
        assert(v.subrange(left, right).len() == 0);
    } else {
        lemma_range_sum(v, left, right - 1);
        assert(v.take(right).drop_last() =~= v.take(right - 1));
        assert(v.subrange(left, right).drop_last() =~= v.subrange(left, right - 1));
    }
}

/// The prefix sums of a sequence: entry `i` of the table is the sum of the
/// first `i` values, so the table is one longer than the sequence.
pub struct CumSum {
    sec: Vec<i64>,
    values: Ghost<Seq<i64>>,
}

impl View for CumSum {
    type V = Seq<i64>;

    /// The values whose prefix sums are held.
    closed spec fn view(&self) -> Seq<i64> {
        self.values@
    }
}

impl CumSum {
    #[verifier::type_invariant]
    spec fn table_matches(self) -> bool {
        &&& self.sec@.len() == self.values@.len() + 1
        &&& forall|i: int|
            0 <= i <= self.values@.len() ==> #[trigger] self.sec@[i] == seq_sum(
                self.values@.take(i),
            )
    }

    /// Builds the prefix-sum table of `v`.
    pub fn new(v: &[i64]) -> (r: Self)
        requires
            prefix_sums_fit(v@),
        ensures
            r@ == v@,
    {
        let mut sec: Vec<i64> = Vec::new();
        sec.push(0);
        assert(v@.take(0).len() == 0);
        let mut i: usize = 0;
        while i < v.len()
            invariant
                i <= v@.len(),
                prefix_sums_fit(v@),
                sec@.len() == i + 1,
                forall|j: int| 0 <= j <= i ==> #[trigger] sec@[j] == seq_sum(v@.take(j)),
            decreases v@.len() - i,
        {
            assert(v@.take(i + 1).drop_last() =~= v@.take(i as int));
            assert(seq_sum(v@.take(i + 1)) == seq_sum(v@.take(i as int)) + v@[i as int]);
            let next = sec[i] + v[i];
            sec.push(next);
            i = i + 1;
        }
        assert(v@.take(v@.len() as int) =~= v@);
        CumSum { sec, values: Ghost(v@) }
    }

    /// The prefix-sum table itself.
    pub fn sec_ref(&self) -> (r: &Vec<i64>)
        ensures
            r@.len() == self@.len() + 1,
            forall|i: int| 0 <= i <= self@.len() ==> #[trigger] r@[i] == seq_sum(self@.take(i)),
    {
        proof {
            use_type_invariant(self);
        }
        &self.sec
    }

    /// A copy of the prefix-sum table.
    pub fn sec(&self) -> (r: Vec<i64>)
        ensures
            r@.len() == self@.len() + 1,
            forall|i: int| 0 <= i <= self@.len() ==> #[trigger] r@[i] == seq_sum(self@.take(i)),
    {
        proof {
            use_type_invariant(self);
        }
        let mut r: Vec<i64> = Vec::new();
        let mut i: usize = 0;
        while i < self.sec.len()
            invariant
                i <= self.sec@.len(),
                r@ == self.sec@.take(i as int),
            decreases self.sec@.len() - i,
        {
            r.push(self.sec[i]);
            i = i + 1;
            assert(r@ =~= self.sec@.take(i as int));
        }
        assert(r@ =~= self.sec@);
        r
    }

    /// Prefix sum up to `right` minus prefix sum up to `left`: for
    /// `left <= right`, the sum of the values at indices `left..right`.
    pub fn sum(&self, left: usize, right: usize) -> (r: i64)
        requires
            left <= self@.len(),
            right <= self@.len(),
            i64::MIN <= seq_sum(self@.take(right as int)) - seq_sum(self@.take(left as int))
                <= i64::MAX,
        ensures
            r == seq_sum(self@.take(right as int)) - seq_sum(self@.take(left as int)),
            left <= right ==> r == seq_sum(self@.subrange(left as int, right as int)),
    {
        proof {
            use_type_invariant(self);
            if left <= right {
                lemma_range_sum(self@, left as int, right as int);
            }
        }
        self.sec[right] - self.sec[left]
    }
}

} // verus!
