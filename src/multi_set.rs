//! A multiset of integers with rank and order-statistic queries.
//!
//! Each inserted value is stored as a key `(value, seq)`, where `seq` is the
//! number of insertions made before it. Keys are kept in increasing
//! lexicographic order, so equal values stay distinct and sort by insertion.
use vstd::prelude::*;
use crate::bounds::{
    count_less, count_at_most, sorted, lemma_count_less_at_split, lemma_count_at_most_at_split,
    lemma_count_less_partitions, lemma_count_at_most_partitions, lemma_lower_not_above_upper,
};

verus! {

/// Lexicographic order on keys.
pub open spec fn key_less(a: (i64, usize), b: (i64, usize)) -> bool {
    a.0 < b.0 || (a.0 == b.0 && a.1 < b.1)
}

/// The keys are in strictly increasing lexicographic order.
pub open spec fn keys_sorted(s: Seq<(i64, usize)>) -> bool {
    forall|i: int, j: int| 0 <= i < j < s.len() ==> key_less(s[i], s[j])
}

/// The values of the keys, in key order.
pub open spec fn values_of(s: Seq<(i64, usize)>) -> Seq<i64> {
    s.map_values(|k: (i64, usize)| k.0)
}

/// A count reported only while it falls short of the whole size.
pub open spec fn below_size(c: nat, len: nat) -> Option<usize> {
    if c == len {
        None
    } else {
        Some(c as usize)
    }
}

/// Number of stored elements strictly less than `x`, or none when that is all of them.
pub open spec fn rank_lower(s: Seq<(i64, usize)>, x: i64) -> Option<usize> {
    below_size(count_less(values_of(s), x), s.len())
}

/// Number of stored elements at most `x`, or none when that is all of them.
pub open spec fn rank_upper(s: Seq<(i64, usize)>, x: i64) -> Option<usize> {
    below_size(count_at_most(values_of(s), x), s.len())
}

/// Among the keys whose value is at most `x`, the `k`-th from the largest.
pub open spec fn kth_at_or_below(s: Seq<(i64, usize)>, x: i64, k: usize) -> Option<(i64, usize)> {
    let q = count_at_most(values_of(s), x);
    if k < q {
        Some(s[q - 1 - k])
    } else {
        None
    }
}

/// Among the keys whose value is at least `x`, the `k`-th from the smallest.
pub open spec fn kth_at_or_above(s: Seq<(i64, usize)>, x: i64, k: usize) -> Option<(i64, usize)> {
    let p = count_less(values_of(s), x);
    if p + k < s.len() {
        Some(s[p + k])
    } else {
        None
    }
}

/// The keys after inserting `v` with sequence number `n`: the new key goes
/// after every key whose value is at most `v`.
pub open spec fn inserted(s: Seq<(i64, usize)>, v: i64, n: usize) -> Seq<(i64, usize)> {
    s.insert(count_at_most(values_of(s), v) as int, (v, n))
}

/// Sorted keys have sorted values.
pub proof fn lemma_values_sorted(s: Seq<(i64, usize)>)
    requires
        keys_sorted(s),
    ensures
        sorted(values_of(s)),
{
    assert forall|i: int, j: int| 0 <= i <= j < values_of(s).len() implies values_of(s)[i]
        <= values_of(s)[j] by {
        if i < j {
            assert(key_less(s[i], s[j]));
        }
    }
}

/// Inserting `v` into keys with sorted values keeps the values sorted, puts
/// the new key right after the keys of value at most `v`, leaves the count
/// below `v` alone and raises the count at most `v` by one.
proof fn lemma_inserted_counts(s: Seq<(i64, usize)>, v: i64, n: usize)
    requires
        sorted(values_of(s)),
    ensures
        ({
            let t = inserted(s, v, n);
            let q = count_at_most(values_of(s), v);
            &&& sorted(values_of(t))
            &&& t[q as int] == (v, n)
            &&& count_less(values_of(t), v) == count_less(values_of(s), v)
            &&& count_at_most(values_of(t), v) == q + 1
        }),
{
    let vs = values_of(s);
    let t = inserted(s, v, n);
    let vt = values_of(t);
    let q = count_at_most(vs, v) as int;
    let p = count_less(vs, v) as int;
    lemma_count_at_most_partitions(vs, v);
    lemma_count_less_partitions(vs, v);
    lemma_lower_not_above_upper(vs, v);
    assert forall|i: int| 0 <= i < q implies #[trigger] vt[i] == vs[i] && vs[i] <= v by {}
    assert(vt[q] == v);
    assert forall|i: int| q < i < vt.len() implies #[trigger] vt[i] == vs[i - 1] && vs[i - 1] > v by {}
    assert forall|i: int, j: int| 0 <= i <= j < vt.len() implies vt[i] <= vt[j] by {
        if j < q {
            assert(vs[i] <= vs[j]);
        } else if i > q {
            assert(vs[i - 1] <= vs[j - 1]);
        } else if i < q && j > q {
            assert(vt[i] <= v);
        }
    }
    lemma_count_at_most_at_split(vt, v, q + 1);
    assert forall|i: int| 0 <= i < p implies vt[i] < v by {}
    assert forall|i: int| p <= i < vt.len() implies vt[i] >= v by {
        if i < q {
            assert(vs[i] >= v);
        }
    }
    lemma_count_less_at_split(vt, v, p);
}

/// An ordered multiset of integers. Equal values are kept apart by the
/// order in which they were inserted.
pub struct MultiSet {
    keys: Vec<(i64, usize)>,
    index: usize,
}

impl View for MultiSet {
    type V = Seq<(i64, usize)>;

    /// The stored keys, in increasing order.
    closed spec fn view(&self) -> Seq<(i64, usize)> {
        self.keys@
    }
}

impl MultiSet {
    /// The keys are sorted, the counter equals the number of keys, and the
    /// sequence numbers are distinct and below the counter.
    pub closed spec fn wf(&self) -> bool {
        &&& keys_sorted(self.keys@)
        &&& self.index == self.keys@.len()
        &&& forall|i: int| 0 <= i < self.keys@.len() ==> (#[trigger] self.keys@[i]).1 < self.index
        &&& forall|i: int, j: int|
            0 <= i < j < self.keys@.len() ==> (#[trigger] self.keys@[i]).1 != (
            #[trigger] self.keys@[j]).1
    }

    /// An empty multiset.
    pub fn new() -> (r: Self)
        ensures
            r.wf(),
            r@ == Seq::<(i64, usize)>::empty(),
    {
        MultiSet { keys: Vec::new(), index: 0 }
    }

    /// Number of keys whose value is below `x`, by binary search.
    fn count_below(&self, x: i64) -> (r: usize)
        requires
            self.wf(),
        ensures
            r == count_less(values_of(self@), x),
            r <= self@.len(),
    {
        let mut low: usize = 0;
        let mut high: usize = self.keys.len();
        while low < high
            invariant
                self.wf(),
                low <= high <= self.keys@.len(),
                forall|i: int| 0 <= i < low ==> self.keys@[i].0 < x,
                forall|i: int| high <= i < self.keys@.len() ==> self.keys@[i].0 >= x,
            decreases high - low,
        {
            let mid = low + (high - low) / 2;
            proof {
                lemma_values_sorted(self.keys@);
                assert(values_of(self.keys@)[mid as int] == self.keys@[mid as int].0);
            }
            if self.keys[mid].0 < x {
                proof {
                    assert forall|i: int| 0 <= i <= mid implies self.keys@[i].0 < x by {
                        assert(values_of(self.keys@)[i] <= values_of(self.keys@)[mid as int]);
                    }
                }
                low = mid + 1;
            } else {
                proof {
                    assert forall|i: int| mid <= i < self.keys@.len() implies self.keys@[i].0
                        >= x by {
                        assert(values_of(self.keys@)[mid as int] <= values_of(self.keys@)[i]);
                    }
                }
                high = mid;
            }
        }
        proof {
            lemma_count_less_at_split(values_of(self.keys@), x, low as int);
        }
        low
    }

    /// Number of keys whose value is at most `x`, by binary search.
    fn count_not_above(&self, x: i64) -> (r: usize)
        requires
            self.wf(),
        ensures
            r == count_at_most(values_of(self@), x),
            r <= self@.len(),
    {
        let mut low: usize = 0;
        let mut high: usize = self.keys.len();
        while low < high
            invariant
                self.wf(),
                low <= high <= self.keys@.len(),
                forall|i: int| 0 <= i < low ==> self.keys@[i].0 <= x,
                forall|i: int| high <= i < self.keys@.len() ==> self.keys@[i].0 > x,
            decreases high - low,
        {
            let mid = low + (high - low) / 2;
            proof {
                lemma_values_sorted(self.keys@);
                assert(values_of(self.keys@)[mid as int] == self.keys@[mid as int].0);
            }
            if self.keys[mid].0 <= x {
                proof {
                    assert forall|i: int| 0 <= i <= mid implies self.keys@[i].0 <= x by {
                        assert(values_of(self.keys@)[i] <= values_of(self.keys@)[mid as int]);
                    }
                }
                low = mid + 1;
            } else {
                proof {
                    assert forall|i: int| mid <= i < self.keys@.len() implies self.keys@[i].0
                        > x by {
                        assert(values_of(self.keys@)[mid as int] <= values_of(self.keys@)[i]);
                    }
                }
                high = mid;
            }
        }
        proof {
            lemma_count_at_most_at_split(values_of(self.keys@), x, low as int);
        }
        low
    }

    /// Number of stored elements strictly less than `x`; none when every
    /// stored element is less than `x`.
    pub fn lower_bound(&self, x: i64) -> (r: Option<usize>)
        requires
            self.wf(),
        ensures
            r == rank_lower(self@, x),
    {
        let cnt = self.count_below(x);
        if cnt == self.keys.len() {
            None
        } else {
            Some(cnt)
        }
    }

    /// Among the elements at most `x`, the `k`-th from the largest (`k = 0`
    /// is the largest); none when there are no more than `k` of them.
    pub fn lower_kth(&self, x: i64, k: usize) -> (r: Option<&(i64, usize)>)
        requires
            self.wf(),
        ensures
            match r {
                Some(e) => kth_at_or_below(self@, x, k) == Some(*e),
                None => kth_at_or_below(self@, x, k) is None,
            },
    {
        let q = self.count_not_above(x);
        if k < q {
            Some(&self.keys[q - 1 - k])
        } else {
            None
        }
    }

    /// Among the elements at least `x`, the `k`-th from the smallest (`k = 0`
    /// is the smallest); none when there are no more than `k` of them.
    pub fn higer_kth(&self, x: i64, k: usize) -> (r: Option<&(i64, usize)>)
        requires
            self.wf(),
        ensures
            match r {
                Some(e) => kth_at_or_above(self@, x, k) == Some(*e),
                None => kth_at_or_above(self@, x, k) is None,
            },
    {
        let p = self.count_below(x);
        if k < self.keys.len() - p {
            Some(&self.keys[p + k])
        } else {
            None
        }
    }

    /// Number of stored elements at most `x`; none when every stored element
    /// is at most `x`.
    pub fn upper_bound(&self, x: i64) -> (r: Option<usize>)
        requires
            self.wf(),
        ensures
            r == rank_upper(self@, x),
    {
        let cnt = self.count_not_above(x);
        if cnt == self.keys.len() {
            None
        } else {
            Some(cnt)
        }
    }

    /// Adds `x`, keyed by the number of insertions made so far.
    pub fn insert(&mut self, x: i64)
        requires
            old(self).wf(),
            old(self)@.len() < usize::MAX,
        ensures
            final(self).wf(),
            final(self)@ == inserted(old(self)@, x, old(self)@.len() as usize),
    {
        let pos = self.count_not_above(x);
        proof {
            lemma_values_sorted(self.keys@);
            lemma_count_at_most_partitions(values_of(self.keys@), x);
        }
        let ghost s = self.keys@;
        let ghost n = self.index;
        self.keys.insert(pos, (x, self.index));
        self.index = self.index + 1;
        proof {
            let t = self.keys@;
            assert forall|i: int| 0 <= i < pos implies #[trigger] t[i] == s[i] && s[i].0 <= x by {
                assert(values_of(s)[i] == s[i].0);
            }
            assert forall|i: int| pos < i < t.len() implies #[trigger] t[i] == s[i - 1] && s[i - 1].0 > x by {
                assert(values_of(s)[i - 1] == s[i - 1].0);
            }
            assert forall|i: int, j: int| 0 <= i < j < t.len() implies key_less(t[i], t[j]) by {
                if j < pos {
                    assert(key_less(s[i], s[j]));
                } else if j == pos {
                    assert(s[i].1 < n);
                } else if i < pos {
                    assert(key_less(s[i], s[j - 1]));
                } else if i > pos {
                    assert(key_less(s[i - 1], s[j - 1]));
                }
            }
            assert forall|i: int| 0 <= i < t.len() implies (#[trigger] t[i]).1 < self.index by {
                if i < pos {
                    assert(s[i].1 < n);
                } else if i > pos {
                    assert(s[i - 1].1 < n);
                }
            }
            assert forall|i: int, j: int| 0 <= i < j < t.len() implies (#[trigger] t[i]).1 != (
            #[trigger] t[j]).1 by {
                if j < pos {
                    assert(s[i].1 != s[j].1);
                } else if j == pos {
                    assert(s[i].1 < n);
                } else if i < pos {
                    assert(s[i].1 != s[j - 1].1);
                } else if i == pos {
                    assert(s[j - 1].1 < n);
                } else {
                    assert(s[i - 1].1 != s[j - 1].1);
                }
            }
        }
    }

    /// True when nothing has been inserted.
    pub fn is_empty(&self) -> (r: bool)
        ensures
            r == (self@.len() == 0),
    {
        self.keys.is_empty()
    }
}

/// Rank monotonicity: for `a <= b`, whenever both upper ranks are reported,
/// the rank of `a` does not exceed the rank of `b`.
pub proof fn lemma_rank_upper_monotone(m: &MultiSet, a: i64, b: i64)
    requires
        m.wf(),
        a <= b,
    ensures
        rank_upper(m@, a) matches Some(ra) ==> rank_upper(m@, b) matches Some(rb) ==> ra <= rb,
{
    let vs = values_of(m@);
    lemma_values_sorted(m@);
    lemma_count_at_most_partitions(vs, a);
    lemma_count_at_most_partitions(vs, b);
    let ca = count_at_most(vs, a);
    let cb = count_at_most(vs, b);
    if cb < ca {
        assert(vs[cb as int] <= a);
    }
}

/// Duplicate stability: after inserting `v` twice, the two new keys come
/// right after the copies of `v` already present, as the `c`-th and
/// `(c + 1)`-th elements at or above `v`, in insertion order.
pub proof fn lemma_duplicates_in_insertion_order(m: &MultiSet, v: i64)
    requires
        m.wf(),
        m@.len() + 1 < usize::MAX,
    ensures
        ({
            let n = m@.len();
            let twice = inserted(inserted(m@, v, n as usize), v, (n + 1) as usize);
            let c = (count_at_most(values_of(m@), v) - count_less(values_of(m@), v)) as usize;
            &&& kth_at_or_above(twice, v, c) == Some((v, n as usize))
            &&& kth_at_or_above(twice, v, (c + 1) as usize) == Some((v, (n + 1) as usize))
        }),
{
    let n = m@.len();
    let once = inserted(m@, v, n as usize);
    let twice = inserted(once, v, (n + 1) as usize);
    let vs = values_of(m@);
    lemma_values_sorted(m@);
    lemma_lower_not_above_upper(vs, v);
    lemma_inserted_counts(m@, v, n as usize);
    lemma_inserted_counts(once, v, (n + 1) as usize);
    let q = count_at_most(vs, v) as int;
    assert(twice[q] == once[q]);
}

} // verus!
