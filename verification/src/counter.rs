use vstd::prelude::*;

verus! {

/// The occurrence count beside the first entry for `k`, if one is there.
pub open spec fn spec_lookup(s: Seq<(usize, usize)>, k: usize) -> Option<usize>
    decreases s.len(),
{
    if s.len() == 0 {
        None
    } else if s[0].0 == k {
        Some(s[0].1)
    } else {
        spec_lookup(s.drop_first(), k)
    }
}

/// The sum of `value * occurrences` over the first `n` entries.
pub open spec fn spec_sum_upto(s: Seq<(usize, usize)>, n: int) -> int
    decreases n,
{
    if n <= 0 {
        0
    } else {
        spec_sum_upto(s, n - 1) + s[n - 1].0 * s[n - 1].1
    }
}

/// The sum of all recorded values, each weighted by its occurrences.
pub open spec fn spec_sum(s: Seq<(usize, usize)>) -> int {
    spec_sum_upto(s, s.len() as int)
}

/// The number of occurrences recorded over the first `n` entries.
pub open spec fn spec_count_upto(s: Seq<(usize, usize)>, n: int) -> int
    decreases n,
{
    if n <= 0 {
        0
    } else {
        spec_count_upto(s, n - 1) + s[n - 1].1
    }
}

/// How many values were added in total.
pub open spec fn spec_count(s: Seq<(usize, usize)>) -> int {
    spec_count_upto(s, s.len() as int)
}

proof fn lemma_lookup_found(s: Seq<(usize, usize)>, i: int)
    requires
        0 <= i < s.len(),
        forall|j: int| 0 <= j < i ==> (#[trigger] s[j]).0 != s[i].0,
    ensures
        spec_lookup(s, s[i].0) == Some(s[i].1),
    decreases i,
{
    if i > 0 {
        assert(s.drop_first()[i - 1] == s[i]);
        assert forall|j: int| 0 <= j < i - 1 implies (#[trigger] s.drop_first()[j]).0 != s
            .drop_first()[i - 1].0 by {
            assert(s.drop_first()[j] == s[j + 1]);
        }
        lemma_lookup_found(s.drop_first(), i - 1);
    }
}

proof fn lemma_lookup_none(s: Seq<(usize, usize)>, k: usize)
    requires
        forall|j: int| 0 <= j < s.len() ==> (#[trigger] s[j]).0 != k,
    ensures
        spec_lookup(s, k) == None::<usize>,
    decreases s.len(),
{
    if s.len() > 0 {
        assert forall|j: int| 0 <= j < s.drop_first().len() implies (
        #[trigger] s.drop_first()[j]).0 != k by {
            assert(s.drop_first()[j] == s[j + 1]);
        }
        lemma_lookup_none(s.drop_first(), k);
    }
}

/// Weighted partial sums only grow.
proof fn lemma_sum_upto_le(s: Seq<(usize, usize)>, n: int, m: int)
    requires
        0 <= n <= m <= s.len(),
    ensures
        spec_sum_upto(s, n) <= spec_sum_upto(s, m),
        spec_count_upto(s, n) <= spec_count_upto(s, m),
    decreases m,
{
    if n < m {
        lemma_sum_upto_le(s, n, m - 1);
        assert(s[m - 1].0 * s[m - 1].1 >= 0) by (nonlinear_arith)
            requires
                s[m - 1].0 >= 0,
                s[m - 1].1 >= 0,
        ;
    }
}

/// A histogram of added values: for each value, how many times it was added.
/// The entries are kept ordered by value, each value at most once.
pub struct Counter {
    map: Vec<(usize, usize)>,
}

impl View for Counter {
    type V = Seq<(usize, usize)>;

    closed spec fn view(&self) -> Seq<(usize, usize)> {
        self.map@
    }
}

impl Counter {
    /// Entries are strictly ordered by value and every recorded value was
    /// added at least once.
    pub open spec fn wf(&self) -> bool {
        &&& forall|i: int, j: int| 0 <= i < j < self@.len() ==> (#[trigger] self@[i]).0 < (
        #[trigger] self@[j]).0
        &&& forall|i: int| 0 <= i < self@.len() ==> (#[trigger] self@[i]).1 >= 1
    }

    /// How many times `count` was added.
    pub open spec fn spec_get(&self, count: usize) -> Option<usize> {
        spec_lookup(self@, count)
    }

    pub fn new() -> (c: Counter)
        ensures
            c.wf(),
            c@ == Seq::<(usize, usize)>::empty(),
    {
        Counter { map: Vec::new() }
    }

    /// Records one more occurrence of `count`.
    pub fn add(&mut self, count: usize)
        requires
            old(self).wf(),
            old(self).spec_get(count) matches Some(v) ==> v < usize::MAX,
        ensures
            final(self).wf(),
            final(self).spec_get(count) == match old(self).spec_get(count) {
                Some(v) => Some((v + 1) as usize),
                None => Some(1usize),
            },
            forall|k: usize| k != count ==> final(self).spec_get(k) == old(self).spec_get(k),
            spec_count(final(self)@) == spec_count(old(self)@) + 1,
            spec_sum(final(self)@) == spec_sum(old(self)@) + count,
    {
        let ghost orig = self.map@;
        let n = self.map.len();
        let mut i: usize = 0;
        while i < n && self.map[i].0 < count
            invariant
                n == self.map@.len(),
                0 <= i <= n,
                forall|j: int| 0 <= j < i ==> (#[trigger] self.map@[j]).0 < count,
            decreases n - i,
        {
            i += 1;
        }
        assert(i == n || orig[i as int].0 >= count);
        assert(forall|j: int| 0 <= j < i ==> (#[trigger] orig[j]).0 != count);
        if i < n && self.map[i].0 == count {
            let v = self.map[i].1;
            proof {
                lemma_lookup_found(orig, i as int);
            }
            self.map.set(i, (count, v + 1));
            proof {
                lemma_lookup_found(self.map@, i as int);
                assert forall|k: usize| k != count implies spec_lookup(self.map@, k)
                    == spec_lookup(orig, k) by {
                    lemma_lookup_same_except(orig, self.map@, i as int, k);
                }
                lemma_sum_update(orig, self.map@, i as int);
            }
        } else {
            proof {
                if i < n {
                    assert(orig[i as int].0 > count);
                }
                assert forall|j: int| 0 <= j < orig.len() implies (#[trigger] orig[j]).0
                    != count by {
                    if j >= i {
                        assert(orig[i as int].0 <= orig[j].0);
                    }
                }
                lemma_lookup_none(orig, count);
            }
            self.map.insert(i, (count, 1));
            proof {
                lemma_lookup_found(self.map@, i as int);
                assert forall|k: usize| k != count implies spec_lookup(self.map@, k)
                    == spec_lookup(orig, k) by {
                    lemma_lookup_insert_other(orig, self.map@, i as int, k);
                }
                lemma_sum_insert(orig, self.map@, i as int);
            }
        }
    }

    /// How many times `count` has been added, or nothing when it never was.
    pub fn get(&mut self, count: usize) -> (r: Option<usize>)
        ensures
            *final(self) == *old(self),
            r == old(self).spec_get(count),
    {
        let n = self.map.len();
        let ghost s = self.map@;
        assert(s.skip(0) =~= s);
        let mut i: usize = 0;
        while i < n
            invariant
                s == self.map@,
                n == s.len(),
                0 <= i <= n,
                spec_lookup(s, count) == spec_lookup(s.skip(i as int), count),
            decreases n - i,
        {
            proof {
                assert(s.skip(i as int)[0] == s[i as int]);
                assert(s.skip(i as int).drop_first() =~= s.skip(i + 1));
            }
            if self.map[i].0 == count {
                return Some(self.map[i].1);
            }
            i += 1;
        }
        assert(s.skip(n as int).len() == 0);
        None
    }

    /// The sum of every added value.
    pub fn sum(&self) -> (r: usize)
        requires
            spec_sum(self@) <= usize::MAX,
        ensures
            r == spec_sum(self@),
    {
        let n = self.map.len();
        let mut acc: usize = 0;
        let mut i: usize = 0;
        while i < n
            invariant
                n == self@.len(),
                0 <= i <= n,
                acc == spec_sum_upto(self@, i as int),
                spec_sum(self@) <= usize::MAX,
            decreases n - i,
        {
            proof {
                lemma_sum_upto_le(self@, i + 1, n as int);
                assert(self@[i as int].0 * self@[i as int].1 >= 0) by (nonlinear_arith)
                    requires
                        self@[i as int].0 >= 0,
                        self@[i as int].1 >= 0,
                ;
            }
            acc = acc + self.map[i].0 * self.map[i].1;
            i += 1;
        }
        acc
    }

    /// How many values were added in total.
    pub fn count(&self) -> (r: usize)
        requires
            spec_count(self@) <= usize::MAX,
        ensures
            r == spec_count(self@),
    {
        let n = self.map.len();
        let mut acc: usize = 0;
        let mut i: usize = 0;
        while i < n
            invariant
                n == self@.len(),
                0 <= i <= n,
                acc == spec_count_upto(self@, i as int),
                spec_count(self@) <= usize::MAX,
            decreases n - i,
        {
            proof {
                lemma_sum_upto_le(self@, i + 1, n as int);
            }
            acc = acc + self.map[i].1;
            i += 1;
        }
        acc
    }

    /// The largest value added so far.
    pub fn max(&self) -> (r: usize)
        requires
            self.wf(),
            self@.len() > 0,
        ensures
            self.spec_get(r) is Some,
            forall|i: int| 0 <= i < self@.len() ==> (#[trigger] self@[i]).0 <= r,
    {
        let r = self.map[self.map.len() - 1].0;
        proof {
            lemma_lookup_found(self@, self@.len() - 1);
        }
        r
    }

    /// Every (value, occurrences) pair, ordered by value.
    pub fn as_vec(&self) -> (r: Vec<(usize, usize)>)
        ensures
            r@ == self@,
    {
        let n = self.map.len();
        let mut r: Vec<(usize, usize)> = Vec::new();
        let mut i: usize = 0;
        while i < n
            invariant
                n == self@.len(),
                0 <= i <= n,
                r@ =~= self@.subrange(0, i as int),
            decreases n - i,
        {
            r.push(self.map[i]);
            i += 1;
        }
        assert(r@ =~= self@);
        r
    }
}

/// Lookups of other keys see through an update of entry `i`.
proof fn lemma_lookup_same_except(s: Seq<(usize, usize)>, t: Seq<(usize, usize)>, i: int, k: usize)
    requires
        0 <= i < s.len(),
        t.len() == s.len(),
        forall|j: int| 0 <= j < s.len() && j != i ==> s[j] == #[trigger] t[j],
        t[i].0 == s[i].0,
        k != s[i].0,
    ensures
        spec_lookup(s, k) == spec_lookup(t, k),
    decreases s.len(),
{
    if s.len() > 0 {
        assert(t[0].0 == s[0].0);
        if s[0].0 != k {
            if i == 0 {
                assert forall|j: int|
                    0 <= j < s.drop_first().len() implies s.drop_first()[j] == #[trigger] t
                    .drop_first()[j] by {
                    assert(s.drop_first()[j] == s[j + 1]);
                    assert(t.drop_first()[j] == t[j + 1]);
                }
                assert(s.drop_first() =~= t.drop_first());
            } else {
                assert forall|j: int|
                    0 <= j < s.drop_first().len() && j != i - 1 implies s.drop_first()[j]
                    == #[trigger] t.drop_first()[j] by {
                    assert(s.drop_first()[j] == s[j + 1]);
                    assert(t.drop_first()[j] == t[j + 1]);
                }
                assert(s.drop_first()[i - 1] == s[i]);
                assert(t.drop_first()[i - 1] == t[i]);
                lemma_lookup_same_except(s.drop_first(), t.drop_first(), i - 1, k);
            }
        }
    }
}

/// Lookups of other keys see through an insertion at position `i`.
proof fn lemma_lookup_insert_other(s: Seq<(usize, usize)>, t: Seq<(usize, usize)>, i: int, k: usize)
    requires
        0 <= i <= s.len(),
        t == s.insert(i, t[i]),
        k != t[i].0,
    ensures
        spec_lookup(s, k) == spec_lookup(t, k),
    decreases s.len(),
{
    if i == 0 {
        assert(t.drop_first() =~= s);
    } else {
        assert(t[0] == s[0]);
        if s[0].0 != k {
            assert(t.drop_first() =~= s.drop_first().insert(i - 1, t[i]));
            assert(t.drop_first()[i - 1] == t[i]);
            lemma_lookup_insert_other(s.drop_first(), t.drop_first(), i - 1, k);
        }
    }
}

/// Raising one entry's occurrences by one raises the totals accordingly.
proof fn lemma_sum_update(s: Seq<(usize, usize)>, t: Seq<(usize, usize)>, i: int)
    requires
        0 <= i < s.len(),
        t.len() == s.len(),
        forall|j: int| 0 <= j < s.len() && j != i ==> s[j] == #[trigger] t[j],
        t[i].0 == s[i].0,
        t[i].1 == s[i].1 + 1,
    ensures
        spec_count(t) == spec_count(s) + 1,
        spec_sum(t) == spec_sum(s) + s[i].0,
{
    lemma_sum_update_upto(s, t, i, s.len() as int);
    assert(t[i].0 * t[i].1 == s[i].0 * s[i].1 + s[i].0) by (nonlinear_arith)
        requires
            t[i].0 == s[i].0,
            t[i].1 == s[i].1 + 1,
    ;
}

proof fn lemma_sum_update_upto(s: Seq<(usize, usize)>, t: Seq<(usize, usize)>, i: int, n: int)
    requires
        0 <= i < s.len(),
        n <= s.len(),
        t.len() == s.len(),
        forall|j: int| 0 <= j < s.len() && j != i ==> s[j] == #[trigger] t[j],
        t[i].0 == s[i].0,
        t[i].1 == s[i].1 + 1,
    ensures
        n <= i ==> spec_count_upto(t, n) == spec_count_upto(s, n) && spec_sum_upto(t, n)
            == spec_sum_upto(s, n),
        n > i ==> spec_count_upto(t, n) == spec_count_upto(s, n) + 1 && spec_sum_upto(t, n)
            == spec_sum_upto(s, n) + s[i].0,
    decreases n,
{
    if n > 0 {
        lemma_sum_update_upto(s, t, i, n - 1);
        if n - 1 == i {
            assert(t[i].0 * t[i].1 == s[i].0 * s[i].1 + s[i].0) by (nonlinear_arith)
                requires
                    t[i].0 == s[i].0,
                    t[i].1 == s[i].1 + 1,
            ;
        }
    }
}

/// Inserting a fresh entry with one occurrence raises the totals accordingly.
proof fn lemma_sum_insert(s: Seq<(usize, usize)>, t: Seq<(usize, usize)>, i: int)
    requires
        0 <= i <= s.len(),
        t == s.insert(i, t[i]),
        t[i].1 == 1,
    ensures
        spec_count(t) == spec_count(s) + 1,
        spec_sum(t) == spec_sum(s) + t[i].0,
{
    lemma_sum_insert_upto(s, t, i, t.len() as int);
}

proof fn lemma_sum_insert_upto(s: Seq<(usize, usize)>, t: Seq<(usize, usize)>, i: int, n: int)
    requires
        0 <= i <= s.len(),
        t == s.insert(i, t[i]),
        t[i].1 == 1,
        0 <= n <= t.len(),
    ensures
        n <= i ==> spec_count_upto(t, n) == spec_count_upto(s, n) && spec_sum_upto(t, n)
            == spec_sum_upto(s, n),
        n > i ==> spec_count_upto(t, n) == spec_count_upto(s, n - 1) + 1 && spec_sum_upto(t, n)
            == spec_sum_upto(s, n - 1) + t[i].0,
    decreases n,
{
    if n > 0 {
        lemma_sum_insert_upto(s, t, i, n - 1);
        if n - 1 < i {
            assert(t[n - 1] == s[n - 1]);
        } else if n - 1 == i {
            assert(t[i].0 * t[i].1 == t[i].0) by (nonlinear_arith)
                requires
                    t[i].1 == 1,
            ;
        } else {
            assert(t[n - 1] == s[n - 2]);
        }
    }
}

} // verus!
