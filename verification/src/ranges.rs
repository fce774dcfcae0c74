//! Sparse sets of byte or chunk positions, stored in canonical boundary form.
//!
//! A `RangeSet` is a strictly ascending list of boundaries `b0 < b1 < ...`;
//! positions alternate between outside and inside the set at each boundary,
//! starting outside. So the list denotes `[b0, b1) ∪ [b2, b3) ∪ ...`, and
//! when the list has odd length the final interval `[b_last, ∞)` is
//! unbounded. The empty list is the empty set and `[0]` is all of `[0, ∞)`.
//! This form is canonical: two well-formed lists with the same members are
//! identical, which is what makes the set operations a Boolean algebra on
//! values and not merely on membership.

use vstd::prelude::*;

verus! {

/// Number of boundaries in `s` that are at most `x`.
pub open spec fn count_le(s: Seq<u64>, x: int) -> nat
    decreases s.len(),
{
    if s.len() == 0 {
        0
    } else {
        count_le(s.drop_last(), x) + if s.last() <= x {
            1nat
        } else {
            0nat
        }
    }
}

/// Membership: `x` lies inside an odd number of boundary crossings.
pub open spec fn in_set(s: Seq<u64>, x: int) -> bool {
    count_le(s, x) % 2 == 1
}

/// Boundaries are strictly ascending.
pub open spec fn strictly_sorted(s: Seq<u64>) -> bool {
    forall|i: int, j: int| 0 <= i < j < s.len() ==> s[i] < s[j]
}

/// Appending one boundary adds one crossing for every `x` past it.
pub proof fn lemma_count_le_push(s: Seq<u64>, t: u64, x: int)
    ensures
        count_le(s.push(t), x) == count_le(s, x) + if t <= x {
            1nat
        } else {
            0nat
        },
{
    assert(s.push(t).drop_last() =~= s);
}

/// For a sorted list, the count of boundaries at most `x` is exactly the
/// index of the first boundary past `x`.
pub proof fn lemma_count_at_index(s: Seq<u64>, idx: int, x: int)
    requires
        strictly_sorted(s),
        0 <= idx <= s.len(),
        forall|k: int| 0 <= k < idx ==> s[k] <= x,
        idx == s.len() || s[idx] > x,
    ensures
        count_le(s, x) == idx,
    decreases s.len(),
{
    if s.len() == 0 {
    } else if idx == s.len() {
        lemma_count_at_index(s.drop_last(), idx - 1, x);
    } else {
        assert(s.last() > x);
        lemma_count_at_index(s.drop_last(), idx, x);
    }
}

/// Dropping the first boundary removes one crossing for every `x` past it.
pub proof fn lemma_count_le_head(s: Seq<u64>, x: int)
    requires
        s.len() > 0,
    ensures
        count_le(s, x) == count_le(s.drop_first(), x) + if s[0] <= x {
            1nat
        } else {
            0nat
        },
    decreases s.len(),
{
    if s.len() == 1 {
        assert(s.drop_first() =~= Seq::<u64>::empty());
        assert(s.drop_last() =~= Seq::<u64>::empty());
    } else {
        assert(s.drop_last().drop_first() =~= s.drop_first().drop_last());
        lemma_count_le_head(s.drop_last(), x);
    }
}

/// Canonicity: well-formed boundary lists with the same members are equal.
pub proof fn lemma_canonical_unique(s: Seq<u64>, t: Seq<u64>)
    requires
        strictly_sorted(s),
        strictly_sorted(t),
        forall|x: int| in_set(s, x) == in_set(t, x),
    ensures
        s == t,
    decreases s.len() + t.len(),
{
    if s.len() == 0 && t.len() == 0 {
        assert(s =~= t);
    } else if s.len() == 0 {
        lemma_count_at_index(t, 1, t[0] as int);
        lemma_count_at_index(s, 0, t[0] as int);
        assert(in_set(t, t[0] as int));
        assert(false);
    } else if t.len() == 0 {
        lemma_count_at_index(s, 1, s[0] as int);
        lemma_count_at_index(t, 0, s[0] as int);
        assert(in_set(s, s[0] as int));
        assert(false);
    } else {
        if s[0] < t[0] {
            lemma_count_at_index(s, 1, s[0] as int);
            lemma_count_at_index(t, 0, s[0] as int);
            assert(in_set(s, s[0] as int));
            assert(false);
        }
        if t[0] < s[0] {
            lemma_count_at_index(t, 1, t[0] as int);
            lemma_count_at_index(s, 0, t[0] as int);
            assert(in_set(t, t[0] as int));
            assert(false);
        }
        assert(s[0] == t[0]);
        let s1 = s.drop_first();
        let t1 = t.drop_first();
        assert forall|x: int| in_set(s1, x) == in_set(t1, x) by {
            assert(in_set(s, x) == in_set(t, x));
            lemma_count_le_head(s, x);
            lemma_count_le_head(t, x);
            assert(count_le(s, x) == count_le(s1, x) + if s[0] <= x {
                1nat
            } else {
                0nat
            });
            assert(count_le(t, x) == count_le(t1, x) + if t[0] <= x {
                1nat
            } else {
                0nat
            });
        }
        lemma_canonical_unique(s1, t1);
        assert(s.len() == t.len());
        assert forall|i: int| 0 <= i < s.len() implies s[i] == t[i] by {
            if i > 0 {
                assert(s[i] == s1[i - 1]);
                assert(t[i] == t1[i - 1]);
            }
        }
        assert(s =~= t);
    }
}

/// Adjacent ascent implies ascent across any gap.
pub proof fn lemma_sorted_step(s: Seq<u64>, a: int, j: int)
    requires
        forall|i: int| #![trigger s[i]] 0 < i < s.len() ==> s[i - 1] < s[i],
        0 <= a < j < s.len(),
    ensures
        s[a] < s[j],
    decreases j - a,
{
    assert(s[j - 1] < s[j]);
    if a + 1 < j {
        lemma_sorted_step(s, a + 1, j);
    }
}

/// A canonical sparse set of `u64` positions; see the module doc for the
/// boundary representation.
#[derive(Debug)]
pub struct RangeSet {
    bounds: Vec<u64>,
}

impl RangeSet {
    /// The boundary list this set is made of.
    pub closed spec fn view(&self) -> Seq<u64> {
        self.bounds@
    }

    /// Well-formed: boundaries strictly ascending.
    pub open spec fn wf(&self) -> bool {
        strictly_sorted(self@)
    }

    /// The set with no members.
    pub fn empty() -> (r: RangeSet)
        ensures
            r.wf(),
            r@ =~= Seq::<u64>::empty(),
            forall|x: int| !in_set(r@, x),
    {
        RangeSet { bounds: Vec::new() }
    }

    /// The set of every position: `[0, ∞)`.
    pub fn all() -> (r: RangeSet)
        ensures
            r.wf(),
            r@ =~= seq![0u64],
            forall|x: int| in_set(r@, x) == (0 <= x),
    {
        Self::suffix(0)
    }

    /// The unbounded suffix `[start, ∞)`.
    pub fn suffix(start: u64) -> (r: RangeSet)
        ensures
            r.wf(),
            r@ =~= seq![start],
            forall|x: int| in_set(r@, x) == (start <= x),
    {
        let mut bounds: Vec<u64> = Vec::new();
        bounds.push(start);
        proof {
            assert forall|x: int| in_set(bounds@, x) == (start <= x) by {
                lemma_count_le_push(Seq::<u64>::empty(), start, x);
                assert(bounds@ =~= Seq::<u64>::empty().push(start));
            }
        }
        RangeSet { bounds }
    }

    /// The half-open interval `[start, end)`; empty when `start >= end`.
    pub fn interval(start: u64, end: u64) -> (r: RangeSet)
        ensures
            r.wf(),
            forall|x: int| in_set(r@, x) == (start <= x < end),
    {
        if start >= end {
            Self::empty()
        } else {
            let mut bounds: Vec<u64> = Vec::new();
            bounds.push(start);
            bounds.push(end);
            proof {
                assert forall|x: int| in_set(bounds@, x) == (start <= x < end) by {
                    lemma_count_le_push(Seq::<u64>::empty(), start, x);
                    lemma_count_le_push(seq![start], end, x);
                    assert(seq![start] =~= Seq::<u64>::empty().push(start));
                    assert(bounds@ =~= seq![start].push(end));
                }
            }
            RangeSet { bounds }
        }
    }

    /// Build a set from an explicit boundary list, rejecting lists that are
    /// not strictly ascending.
    pub fn from_bounds(bounds: Vec<u64>) -> (r: Option<RangeSet>)
        ensures
            match r {
                Some(s) => s@ == bounds@ && s.wf(),
                None => !strictly_sorted(bounds@),
            },
    {
        let n = bounds.len();
        let mut k: usize = 1;
        while k < n
            invariant
                1 <= k || n == 0,
                k <= n || n == 0,
                n == bounds@.len(),
                forall|i: int| #![trigger bounds@[i]] 0 < i < k ==> bounds@[i - 1] < bounds@[i],
            decreases n - k,
        {
            if bounds[k - 1] >= bounds[k] {
                return None;
            }
            k = k + 1;
        }
        proof {
            assert forall|i: int, j: int| 0 <= i < j < bounds@.len() implies bounds@[i]
                < bounds@[j] by {
                lemma_sorted_step(bounds@, i, j);
            }
        }
        Some(RangeSet { bounds })
    }

    /// Number of boundaries.
    pub fn num_bounds(&self) -> (r: usize)
        ensures
            r == self@.len(),
    {
        self.bounds.len()
    }

    /// The boundary at `k`.
    pub fn bound_at(&self, k: usize) -> (r: u64)
        requires
            k < self@.len(),
        ensures
            r == self@[k as int],
    {
        self.bounds[k]
    }

    /// Membership test.
    pub fn contains(&self, x: u64) -> (r: bool)
        ensures
            r == in_set(self@, x as int),
    {
        let n = self.bounds.len();
        let mut cnt: usize = 0;
        let mut k: usize = 0;
        while k < n
            invariant
                n == self@.len(),
                k <= n,
                cnt <= k,
                cnt == count_le(self@.take(k as int), x as int),
            decreases n - k,
        {
            proof {
                lemma_count_le_push(self@.take(k as int), self@[k as int], x as int);
                assert(self@.take(k + 1 as int) =~= self@.take(k as int).push(self@[k as int]));
            }
            if self.bounds[k] <= x {
                cnt = cnt + 1;
            }
            k = k + 1;
        }
        proof {
            assert(self@.take(n as int) =~= self@);
        }
        cnt % 2 == 1
    }

    /// True exactly when the set has no members.
    pub fn is_empty(&self) -> (r: bool)
        requires
            self.wf(),
        ensures
            r <==> (forall|x: int| !in_set(self@, x)),
    {
        if self.bounds.len() == 0 {
            true
        } else {
            proof {
                lemma_count_at_index(self@, 1, self@[0] as int);
                assert(in_set(self@, self@[0] as int));
            }
            false
        }
    }

    /// True exactly when the set holds every position in `[0, ∞)`.
    pub fn is_all(&self) -> (r: bool)
        requires
            self.wf(),
        ensures
            r <==> (forall|x: int| 0 <= x ==> in_set(self@, x)),
    {
        if self.bounds.len() == 1 && self.bounds[0] == 0 {
            proof {
                assert forall|x: int| 0 <= x implies in_set(self@, x) by {
                    lemma_count_at_index(self@, 1, x);
                }
            }
            true
        } else {
            proof {
                if self@.len() == 0 {
                    assert(!in_set(self@, 0));
                } else if self@[0] != 0 {
                    lemma_count_at_index(self@, 0, 0);
                    assert(!in_set(self@, 0));
                } else {
                    lemma_count_at_index(self@, 2, self@[1] as int);
                    assert(!in_set(self@, self@[1] as int));
                }
            }
            false
        }
    }

    /// The complement within `[0, ∞)`: toggle the leading `0` boundary.
    pub fn complement(&self) -> (r: RangeSet)
        requires
            self.wf(),
        ensures
            r.wf(),
            forall|x: int| 0 <= x ==> in_set(r@, x) == !in_set(self@, x),
    {
        let mut bounds: Vec<u64> = Vec::new();
        let n = self.bounds.len();
        if n > 0 && self.bounds[0] == 0 {
            let mut k: usize = 1;
            while k < n
                invariant
                    1 <= k <= n,
                    n == self@.len(),
                    bounds@ =~= self@.subrange(1, k as int),
                decreases n - k,
            {
                let v = self.bounds[k];
                bounds.push(v);
                k = k + 1;
            }
            proof {
                assert(bounds@ =~= self@.drop_first());
                assert forall|x: int| 0 <= x implies in_set(bounds@, x) == !in_set(self@, x) by {
                    lemma_count_le_head(self@, x);
                }
            }
        } else {
            bounds.push(0);
            let mut k: usize = 0;
            while k < n
                invariant
                    k <= n,
                    n == self@.len(),
                    self.wf(),
                    n > 0 ==> self@[0] != 0,
                    bounds@ =~= seq![0u64].add(self@.take(k as int)),
                decreases n - k,
            {
                let v = self.bounds[k];
                bounds.push(v);
                proof {
                    assert(bounds@ =~= seq![0u64].add(self@.take(k + 1 as int)));
                }
                k = k + 1;
            }
            proof {
                assert(bounds@ =~= seq![0u64].add(self@));
                assert(bounds@.drop_first() =~= self@);
                assert forall|x: int| 0 <= x implies in_set(bounds@, x) == !in_set(self@, x) by {
                    lemma_count_le_head(bounds@, x);
                }
                assert forall|i: int, j: int| 0 <= i < j < bounds@.len() implies bounds@[i]
                    < bounds@[j] by {
                    if i == 0 {
                        assert(bounds@[j] == self@[j - 1]);
                        if j - 1 > 0 {
                            assert(self@[0] < self@[j - 1]);
                        }
                    }
                }
            }
        }
        RangeSet { bounds }
    }

    /// Structural equality of two sets.
    pub fn same_as(&self, other: &RangeSet) -> (r: bool)
        ensures
            r == (self@ =~= other@),
    {
        let n = self.bounds.len();
        if n != other.bounds.len() {
            return false;
        }
        let mut k: usize = 0;
        while k < n
            invariant
                k <= n,
                n == self@.len(),
                n == other@.len(),
                forall|i: int| 0 <= i < k ==> self@[i] == other@[i],
            decreases n - k,
        {
            if self.bounds[k] != other.bounds[k] {
                return false;
            }
            k = k + 1;
        }
        proof {
            assert(self@ =~= other@);
        }
        true
    }

    /// A copy of this set.
    pub fn duplicate(&self) -> (r: RangeSet)
        ensures
            r@ =~= self@,
    {
        let n = self.bounds.len();
        let mut bounds: Vec<u64> = Vec::new();
        let mut k: usize = 0;
        while k < n
            invariant
                k <= n,
                n == self@.len(),
                bounds@ =~= self@.take(k as int),
            decreases n - k,
        {
            let v = self.bounds[k];
            bounds.push(v);
            k = k + 1;
        }
        proof {
            assert(bounds@ =~= self@);
        }
        RangeSet { bounds }
    }

    /// Union of two sets, by a parity-preserving merge of the boundaries.
    pub fn union(&self, other: &RangeSet) -> (r: RangeSet)
        requires
            self.wf(),
            other.wf(),
        ensures
            r.wf(),
            forall|x: int| in_set(r@, x) == (in_set(self@, x) || in_set(other@, x)),
    {
        let a = &self.bounds;
        let b = &other.bounds;
        let alen = a.len();
        let blen = b.len();
        let mut out: Vec<u64> = Vec::new();
        let mut i: usize = 0;
        let mut j: usize = 0;
        let ghost mut prev: int = -1;
        proof {
            lemma_count_at_index(a@, 0, prev);
            lemma_count_at_index(b@, 0, prev);
            assert forall|x: int|
                x <= prev implies in_set(out@, x) == (in_set(a@, x) || in_set(b@, x)) by {
                lemma_count_at_index(a@, 0, x);
                lemma_count_at_index(b@, 0, x);
            }
        }
        while i < alen || j < blen
            invariant
                alen == a@.len(),
                blen == b@.len(),
                a@ == self@,
                b@ == other@,
                self.wf(),
                other.wf(),
                i <= alen,
                j <= blen,
                strictly_sorted(out@),
                forall|k: int| 0 <= k < i ==> a@[k] <= prev,
                forall|k: int| 0 <= k < j ==> b@[k] <= prev,
                i < alen ==> prev < a@[i as int],
                j < blen ==> prev < b@[j as int],
                forall|k: int| 0 <= k < out@.len() ==> out@[k] <= prev,
                forall|x: int|
                    x <= prev ==> in_set(out@, x) == (in_set(a@, x) || in_set(b@, x)),
                count_le(a@, prev) == i,
                count_le(b@, prev) == j,
                count_le(out@, prev) == out@.len(),
            decreases alen + blen - i - j,
        {
            let t: u64 = if i < alen && j < blen {
                if a[i] <= b[j] {
                    a[i]
                } else {
                    b[j]
                }
            } else if i < alen {
                a[i]
            } else {
                b[j]
            };
            let mut ni: usize = i;
            let mut nj: usize = j;
            if i < alen && a[i] == t {
                ni = i + 1;
            }
            if j < blen && b[j] == t {
                nj = j + 1;
            }
            proof {
                lemma_count_at_index(a@, ni as int, t as int);
                lemma_count_at_index(b@, nj as int, t as int);
            }
            let m = (ni % 2 == 1) || (nj % 2 == 1);
            let cur = out.len() % 2 == 1;
            let ghost old_out = out@;
            if m != cur {
                out.push(t);
            }
            proof {
                assert forall|k: int| 0 <= k < out@.len() implies out@[k] <= t as int by {}
                lemma_count_at_index(out@, out@.len() as int, t as int);
                assert forall|x: int|
                    x <= t as int implies in_set(out@, x) == (in_set(a@, x) || in_set(
                    b@,
                    x,
                )) by {
                    if x <= prev {
                        if out@.len() > old_out.len() {
                            lemma_count_le_push(old_out, t, x);
                        }
    } else if x < t as int {
                        lemma_count_at_index(a@, i as int, x);
                        lemma_count_at_index(b@, j as int, x);
                        lemma_count_at_index(old_out, old_out.len() as int, x);
                        if out@.len() > old_out.len() {
                            lemma_count_le_push(old_out, t, x);
                        }
                        assert(in_set(out@, x) == in_set(old_out, x));
                        assert(in_set(a@, x) == (i % 2 == 1));
                        assert(in_set(b@, x) == (j % 2 == 1));
                        assert(in_set(old_out, x) == (old_out.len() % 2 == 1));
                        // the parity relation held at the old frontier
                        assert(in_set(old_out, prev) == (in_set(a@, prev) || in_set(b@, prev)));
                        assert(in_set(a@, prev) == (i % 2 == 1));
                        assert(in_set(b@, prev) == (j % 2 == 1));
                        assert(in_set(old_out, prev) == (old_out.len() % 2 == 1));
                    } else {
                        assert(x == t as int);
                        assert(in_set(a@, x) == (ni % 2 == 1));
                        assert(in_set(b@, x) == (nj % 2 == 1));
                        assert(in_set(out@, x) == (out@.len() % 2 == 1));
                    }
                }
                prev = t as int;
            }
            i = ni;
            j = nj;
        }
        proof {
            assert forall|x: int| in_set(out@, x) == (in_set(a@, x) || in_set(b@, x)) by {
                if x > prev {
                    lemma_count_at_index(a@, alen as int, x);
                    lemma_count_at_index(b@, blen as int, x);
                    lemma_count_at_index(out@, out@.len() as int, x);
                    assert(in_set(out@, prev) == (in_set(a@, prev) || in_set(b@, prev)));
                    assert(in_set(a@, prev) == (alen % 2 == 1));
                    assert(in_set(b@, prev) == (blen % 2 == 1));
                    assert(in_set(out@, prev) == (out@.len() % 2 == 1));
                }
            }
        }
        RangeSet { bounds: out }
    }

    /// Intersection, via the complement laws.
    pub fn intersect(&self, other: &RangeSet) -> (r: RangeSet)
        requires
            self.wf(),
            other.wf(),
        ensures
            r.wf(),
            forall|x: int| in_set(r@, x) == (in_set(self@, x) && in_set(other@, x)),
    {
        let r = self.complement().union(&other.complement()).complement();
        proof {
            assert forall|x: int| in_set(r@, x) == (in_set(self@, x) && in_set(other@, x)) by {
                if x < 0 {
                    lemma_count_at_index(r@, 0, x);
                    lemma_count_at_index(self@, 0, x);
                }
            }
        }
        r
    }
}

} // verus!
