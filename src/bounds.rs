//! Partition-point searches over a slice sorted in non-decreasing order.
use vstd::prelude::*;

verus! {

/// The slice is sorted in non-decreasing order.
pub open spec fn sorted(s: Seq<i64>) -> bool {
    forall|i: int, j: int| 0 <= i <= j < s.len() ==> s[i] <= s[j]
}

/// Number of elements of `s` that are strictly less than `x`.
pub open spec fn count_less(s: Seq<i64>, x: i64) -> nat
    decreases s.len(),
{
    if s.len() == 0 {
        0
    } else {
        count_less(s.drop_last(), x) + if s.last() < x { 1nat } else { 0nat }
    }
}

/// Number of elements of `s` that are less than or equal to `x`.
pub open spec fn count_at_most(s: Seq<i64>, x: i64) -> nat
    decreases s.len(),
{
    if s.len() == 0 {
        0
    } else {
        count_at_most(s.drop_last(), x) + if s.last() <= x { 1nat } else { 0nat }
    }
}

/// A split point `p`, with every element before it below `x` and every
/// element from it on at least `x`, is the number of elements below `x`.
pub proof fn lemma_count_less_at_split(s: Seq<i64>, x: i64, p: int)
    requires
        0 <= p <= s.len(),
        forall|i: int| 0 <= i < p ==> s[i] < x,
        forall|i: int| p <= i < s.len() ==> s[i] >= x,
    ensures
        count_less(s, x) == p,
    decreases s.len(),
{
    if s.len() > 0 {
        if p == s.len() {
            lemma_count_less_at_split(s.drop_last(), x, p - 1);
        } else {
            lemma_count_less_at_split(s.drop_last(), x, p);
        }
    }
}

/// Same as `lemma_count_less_at_split`, for the elements at most `x`.
pub proof fn lemma_count_at_most_at_split(s: Seq<i64>, x: i64, p: int)
    requires
        0 <= p <= s.len(),
        forall|i: int| 0 <= i < p ==> s[i] <= x,
        forall|i: int| p <= i < s.len() ==> s[i] > x,
    ensures
        count_at_most(s, x) == p,
    decreases s.len(),
{
    if s.len() > 0 {
        if p == s.len() {
            lemma_count_at_most_at_split(s.drop_last(), x, p - 1);
        } else {
            lemma_count_at_most_at_split(s.drop_last(), x, p);
        }
    }
}

/// In a sorted sequence the elements below `x` are exactly those before
/// position `count_less(s, x)`.
pub proof fn lemma_count_less_partitions(s: Seq<i64>, x: i64)
    requires
        sorted(s),
    ensures
        count_less(s, x) <= s.len(),
        forall|i: int| 0 <= i < count_less(s, x) ==> s[i] < x,
        forall|i: int| count_less(s, x) <= i < s.len() ==> s[i] >= x,
    decreases s.len(),
{
    if s.len() > 0 {
        let t = s.drop_last();
        assert(sorted(t));
        lemma_count_less_partitions(t, x);
        assert forall|i: int| 0 <= i < t.len() implies #[trigger] s[i] == t[i] by {}
        if s.last() < x {
            let c = count_less(t, x);
            if c < t.len() {
                assert(s[c as int] <= s[s.len() - 1]);
            }
            assert forall|i: int| 0 <= i < s.len() implies s[i] < x by {
                assert(s[i] <= s[s.len() - 1]);
            }
        } else {
            assert forall|i: int| 0 <= i < s.len() && i >= t.len() implies s[i] >= x by {}
        }
    }
}

/// In a sorted sequence the elements at most `x` are exactly those before
/// position `count_at_most(s, x)`.
pub proof fn lemma_count_at_most_partitions(s: Seq<i64>, x: i64)
    requires
        sorted(s),
    ensures
        count_at_most(s, x) <= s.len(),
        forall|i: int| 0 <= i < count_at_most(s, x) ==> s[i] <= x,
        forall|i: int| count_at_most(s, x) <= i < s.len() ==> s[i] > x,
    decreases s.len(),
{
    if s.len() > 0 {
        let t = s.drop_last();
        assert(sorted(t));
        lemma_count_at_most_partitions(t, x);
        assert forall|i: int| 0 <= i < t.len() implies #[trigger] s[i] == t[i] by {}
        if s.last() <= x {
            let c = count_at_most(t, x);
            if c < t.len() {
                assert(s[c as int] <= s[s.len() - 1]);
            }
            assert forall|i: int| 0 <= i < s.len() implies s[i] <= x by {
                assert(s[i] <= s[s.len() - 1]);
            }
        } else {
            assert forall|i: int| 0 <= i < s.len() && i >= t.len() implies s[i] > x by {}
        }
    }
}

/// The first index holding a value at least `x` never exceeds the first
/// index holding a value greater than `x`, and neither exceeds the length.
pub proof fn lemma_lower_not_above_upper(s: Seq<i64>, x: i64)
    ensures
        count_less(s, x) <= count_at_most(s, x) <= s.len(),
    decreases s.len(),
{
    if s.len() > 0 {
        lemma_lower_not_above_upper(s.drop_last(), x);
    }
}

/// In a sorted sequence, the first index holding a value at least `x` is
/// the index of the first occurrence of `x`, when `x` occurs.
pub proof fn lemma_first_occurrence(s: Seq<i64>, x: i64, i: int)
    requires
        sorted(s),
        0 <= i < s.len(),
        s[i] == x,
        forall|j: int| 0 <= j < i ==> s[j] != x,
    ensures
        count_less(s, x) == i,
{
    assert forall|j: int| 0 <= j < i implies s[j] < x by {
        assert(s[j] <= s[i]);
    }
    assert forall|j: int| i <= j < s.len() implies s[j] >= x by {
        assert(s[i] <= s[j]);
    }
    lemma_count_less_at_split(s, x, i);
}

/// Reason for which a clamped bound has no answer.
#[derive(Debug, Clone, Copy, PartialEq, Eq, Structural)]
pub enum SearchError {
    /// The slice holds no element, so it has no last index to clamp to.
    EmptyInput,
}

/// What `lower_bound` and `upper_bound` return for a split point `p` of a
/// slice of length `len`: the point itself, clamped to the last index.
pub open spec fn clamped(p: nat, len: nat) -> Result<usize, SearchError> {
    if len == 0 {
        Err(SearchError::EmptyInput)
    } else if p >= len {
        Ok((len - 1) as usize)
    } else {
        Ok(p as usize)
    }
}

/// Bounds of a value within a sorted sequence.
pub trait Bound<T> {
    /// First index whose element is not less than `x`, clamped to the last index.
    fn lower_bound(&self, x: T) -> Result<usize, SearchError>;

    /// First index whose element is greater than `x`, clamped to the last index.
    fn upper_bound(&self, x: T) -> Result<usize, SearchError>;

    /// First index whose element is not less than `x`, or the length when none is.
    fn b_search(&self, x: T) -> usize;
}

impl Bound<i64> for [i64] {
    fn lower_bound(&self, x: i64) -> (r: Result<usize, SearchError>)
        ensures
            sorted(self@) ==> r == clamped(count_less(self@, x), self@.len()),
            r is Err <==> self@.len() == 0,
            r matches Ok(i) ==> i < self@.len(),
    {
        let mut low: usize = 0;
        let mut high: usize = self.len();
        while low < high
            invariant
                low <= high <= self@.len(),
                sorted(self@) ==> forall|i: int| 0 <= i < low ==> self@[i] < x,
                sorted(self@) ==> forall|i: int| high <= i < self@.len() ==> self@[i] >= x,
            decreases high - low,
        {
            let mid = low + (high - low) / 2;
            if self[mid] < x {
                low = mid + 1;
            } else {
                high = mid;
            }
        }
        if self.len() == 0 {
            return Err(SearchError::EmptyInput);
        }
        proof {
            if sorted(self@) {
                lemma_count_less_at_split(self@, x, low as int);
            }
        }
        if low == self.len() {
            Ok(low - 1)
        } else {
            Ok(low)
        }
    }

    fn upper_bound(&self, x: i64) -> (r: Result<usize, SearchError>)
        ensures
            sorted(self@) ==> r == clamped(count_at_most(self@, x), self@.len()),
            r is Err <==> self@.len() == 0,
            r matches Ok(i) ==> i < self@.len(),
    {
        let mut low: usize = 0;
        let mut high: usize = self.len();
        while low < high
            invariant
                low <= high <= self@.len(),
                sorted(self@) ==> forall|i: int| 0 <= i < low ==> self@[i] <= x,
                sorted(self@) ==> forall|i: int| high <= i < self@.len() ==> self@[i] > x,
            decreases high - low,
        {
            let mid = low + (high - low) / 2;
            if self[mid] > x {
                high = mid;
            } else {
                low = mid + 1;
            }
        }
        if self.len() == 0 {
            return Err(SearchError::EmptyInput);
        }
        proof {
            if sorted(self@) {
                lemma_count_at_most_at_split(self@, x, low as int);
            }
        }
        if low == self.len() {
            Ok(low - 1)
        } else {
            Ok(low)
        }
    }

    fn b_search(&self, x: i64) -> (r: usize)
        ensures
            sorted(self@) ==> r == count_less(self@, x),
            r <= self@.len(),
    {
        // `ng` is one past the last index known to hold an element below `x`;
        // `ok` is the first index known to hold an element at least `x`.
        let mut ng: usize = 0;
        let mut ok: usize = self.len();
        while ng < ok
            invariant
                ng <= ok <= self@.len(),
                sorted(self@) ==> forall|i: int| 0 <= i < ng ==> self@[i] < x,
                sorted(self@) ==> forall|i: int| ok <= i < self@.len() ==> self@[i] >= x,
            decreases ok - ng,
        {
            let mid = ng + (ok - ng) / 2;
            if self[mid] >= x {
                ok = mid;
            } else {
                ng = mid + 1;
            }
        }
        proof {
            if sorted(self@) {
                lemma_count_less_at_split(self@, x, ok as int);
            }
        }
        ok
    }
}

} // verus!
