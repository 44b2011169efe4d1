//! A Fenwick (binary indexed) tree of signed counters.
use vstd::prelude::*;

verus! {

/// Sum of `s[lo..hi]`.
pub open spec fn range_sum(s: Seq<int>, lo: int, hi: int) -> int
    decreases hi - lo,
{
    if lo >= hi {
        0
    } else {
        range_sum(s, lo, hi - 1) + s[hi - 1]
    }
}

/// Every contiguous block of `s` sums to a value an `i64` holds.
pub open spec fn sums_fit(s: Seq<int>) -> bool {
    forall|lo: int, hi: int| 0 <= lo <= hi <= s.len() ==> i64::MIN <= #[trigger] range_sum(s, lo, hi) <= i64::MAX
}

/// Nonnegative counters whose total fits in a `u32`.
pub open spec fn counts(s: Seq<int>) -> bool {
    &&& forall|k: int| 0 <= k < s.len() ==> s[k] >= 0
    &&& range_sum(s, 0, s.len() as int) <= u32::MAX
}

/// Lowest set bit of `x` (for `x > 0`).
pub open spec fn low(x: usize) -> usize {
    x & ((!x + 1) as usize)
}

/// Largest length a tree is built with, so that index arithmetic cannot overflow.
pub open spec fn max_len() -> int {
    0x4000_0000
}

pub proof fn lemma_range_sum_split(s: Seq<int>, lo: int, m: int, hi: int)
    requires
        lo <= m <= hi,
    ensures
        range_sum(s, lo, hi) == range_sum(s, lo, m) + range_sum(s, m, hi),
    decreases hi - m,
{
    if m < hi {
        lemma_range_sum_split(s, lo, m, hi - 1);
    }
}

pub proof fn lemma_range_sum_update(s: Seq<int>, i: int, v: int, lo: int, hi: int)
    requires
        0 <= i < s.len(),
        0 <= lo,
        hi <= s.len(),
    ensures
        range_sum(s.update(i, v), lo, hi) == range_sum(s, lo, hi) + (if lo <= i < hi {
            v - s[i]
        } else {
            0
        }),
    decreases hi - lo,
{
    if lo < hi {
        lemma_range_sum_update(s, i, v, lo, hi - 1);
    }
}

pub proof fn lemma_range_sum_nonneg(s: Seq<int>, lo: int, hi: int)
    requires
        0 <= lo,
        hi <= s.len(),
        forall|k: int| 0 <= k < s.len() ==> s[k] >= 0,
    ensures
        range_sum(s, lo, hi) >= 0,
    decreases hi - lo,
{
    if lo < hi {
        lemma_range_sum_nonneg(s, lo, hi - 1);
    }
}

pub proof fn lemma_range_sum_bounded(s: Seq<int>, lo: int, hi: int)
    requires
        0 <= lo <= hi <= s.len(),
        forall|k: int| 0 <= k < s.len() ==> s[k] >= 0,
    ensures
        0 <= range_sum(s, lo, hi) <= range_sum(s, 0, s.len() as int),
{
    lemma_range_sum_split(s, 0, lo, s.len() as int);
    lemma_range_sum_split(s, lo, hi, s.len() as int);
    lemma_range_sum_nonneg(s, 0, lo);
    lemma_range_sum_nonneg(s, lo, hi);
    lemma_range_sum_nonneg(s, hi, s.len() as int);
}

/// Adding `delta` to counter `i` adds `delta` to every prefix that covers it
/// and leaves the others: after `Bit::add(i, delta)` (whose `ensures` gives
/// the new counters as this update), `Bit::prefix(j)` is the old prefix plus
/// `delta` when `i < j`.
pub proof fn lemma_add_prefix(s: Seq<int>, i: int, delta: int, j: int)
    requires
        0 <= i < s.len(),
        0 <= j <= s.len(),
    ensures
        range_sum(s.update(i, s[i] + delta), 0, j) == range_sum(s, 0, j) + (if i < j { delta } else { 0 }),
{
    lemma_range_sum_update(s, i, s[i] + delta, 0, j);
}

/// Counters fit: every block sum lies between zero and the total.
pub proof fn lemma_counts_fit(s: Seq<int>)
    requires
        counts(s),
    ensures
        sums_fit(s),
{
    assert forall|lo: int, hi: int| 0 <= lo <= hi <= s.len() implies i64::MIN <= #[trigger] range_sum(s, lo, hi)
        <= i64::MAX by {
        lemma_range_sum_bounded(s, lo, hi);
    }
}

/// Adding to one counter what keeps it nonnegative and the total in a `u32`
/// keeps counters, which then fit.
pub proof fn lemma_add_counts(s: Seq<int>, i: int, delta: int)
    requires
        counts(s),
        0 <= i < s.len(),
        s[i] + delta >= 0,
        range_sum(s, 0, s.len() as int) + delta <= u32::MAX,
    ensures
        counts(s.update(i, s[i] + delta)),
        sums_fit(s.update(i, s[i] + delta)),
{
    lemma_range_sum_update(s, i, s[i] + delta, 0, s.len() as int);
    lemma_counts_fit(s.update(i, s[i] + delta));
}

proof fn lemma_low_bounds(x: usize)
    requires
        0 < x < 0x8000_0000,
    ensures
        1 <= low(x) <= x,
{
    assert(0 < x < 0x8000_0000 ==> 1 <= x & ((!x + 1) as usize) <= x) by (bit_vector);
}

/// Stepping from `x` to `x + low(x)` reaches a node whose block starts no later.
proof fn lemma_low_up(x: usize)
    requires
        0 < x < 0x4000_0000,
    ensures
        x + low(x) < 0x8000_0000,
        low(x) <= x,
        (x + low(x)) as usize - low((x + low(x)) as usize) <= x - low(x),
{
    assert(0 < x < 0x4000_0000 ==> x & ((!x + 1) as usize) <= x) by (bit_vector);
    let y: usize = (x + low(x)) as usize;
    assert(0 < x < 0x4000_0000 && y == x + (x & ((!x + 1) as usize)) ==> y - (y & ((!y + 1)
        as usize)) <= x - (x & ((!x + 1) as usize))) by (bit_vector);
}

/// Nodes strictly between `x` and `x + low(x)` have blocks that start at or after `x`.
proof fn lemma_low_between(x: usize, r: usize)
    requires
        0 < x < 0x4000_0000,
        0 < r < low(x),
    ensures
        (x + r) as usize - low((x + r) as usize) >= x,
{
    lemma_low_bounds(x);
    let y: usize = (x + r) as usize;
    assert(y == x + r);
    assert(0 < x < 0x4000_0000 && 0 < r < (x & ((!x + 1) as usize)) && y == x + r ==> y - (y & ((
    !y + 1) as usize)) >= x) by (bit_vector);
}

/// Lowest set bit of `x`.
fn lowbit(x: usize) -> (r: usize)
    requires
        0 < x < 0x8000_0000,
    ensures
        r == low(x),
        1 <= r <= x,
{
    proof {
        lemma_low_bounds(x);
    }
    assert(0 < x ==> !x < !0usize) by (bit_vector);
    x & (!x + 1)
}

/// A Fenwick tree over `n` counters: `prefix(i)` is the total of the first `i`.
pub struct Bit {
    t: Vec<i64>,
    vals: Ghost<Seq<int>>,
}

impl Bit {
    /// The counters the tree stands for.
    pub closed spec fn view(&self) -> Seq<int> {
        self.vals@
    }

    /// Every block of counters sums to an `i64`; each node `j` holds the
    /// total of the block of counters ending just before position `j`.
    pub closed spec fn wf(&self) -> bool {
        &&& self.t@.len() == self.vals@.len() + 1
        &&& self.t@.len() <= max_len()
        &&& sums_fit(self.vals@)
        &&& forall|j: int|
            1 <= j < self.t@.len() ==> #[trigger] self.t@[j] == range_sum(
                self.vals@,
                j - low(j as usize),
                j,
            )
    }

    /// Consequences of well-formedness for users of the tree, and of holding
    /// counters.
    pub proof fn lemma_wf(&self)
        requires
            self.wf(),
        ensures
            sums_fit(self@),
            self@.len() < max_len(),
            counts(self@) ==> forall|k: int| 0 <= k < self@.len() ==> self@[k] >= 0,
            counts(self@) ==> 0 <= self.total() <= u32::MAX,
    {
        if counts(self@) {
            lemma_range_sum_nonneg(self.vals@, 0, self.vals@.len() as int);
        }
    }

    /// The total of all counters.
    pub open spec fn total(&self) -> int {
        range_sum(self@, 0, self@.len() as int)
    }

    /// A tree of `n` zero counters.
    pub fn new(n: usize) -> (b: Self)
        requires
            n < max_len() - 1,
        ensures
            b.wf(),
            b@ == Seq::new(n as nat, |k: int| 0int),
            counts(b@),
    {
        let t: Vec<i64> = vec![0; n + 1];
        let ghost vals = Seq::new(n as nat, |k: int| 0int);
        let b = Bit { t, vals: Ghost(vals) };
        proof {
            assert forall|lo: int, hi: int| 0 <= lo <= hi <= n implies range_sum(vals, lo, hi)
                == 0 by {
                lemma_zero_sum(vals, lo, hi);
            }
            lemma_zero_sum(vals, 0, n as int);
            assert forall|lo: int, hi: int| 0 <= lo <= hi <= vals.len() implies i64::MIN <= #[trigger] range_sum(vals, lo, hi)
                <= i64::MAX by {
                lemma_zero_sum(vals, lo, hi);
            }
            assert forall|j: int| 1 <= j < b.t@.len() implies #[trigger] b.t@[j] == range_sum(
                vals,
                j - low(j as usize),
                j,
            ) by {
                lemma_low_bounds(j as usize);
            }
        }
        b
    }

    /// Adds `delta` to counter `i`.
    pub fn add(&mut self, i: usize, delta: i64)
        requires
            old(self).wf(),
            i < old(self)@.len(),
            sums_fit(old(self)@.update(i as int, old(self)@[i as int] + delta)),
        ensures
            final(self).wf(),
            final(self)@ == old(self)@.update(i as int, old(self)@[i as int] + delta),
    {
        let ghost old_vals = self.vals@;
        let ghost new_vals = old_vals.update(i as int, old_vals[i as int] + delta);
        let mut j = i + 1;
        proof {
            lemma_low_bounds(j);
            assert forall|k: int|
                1 <= k < self.t@.len() && k < j implies #[trigger] self.t@[k] == range_sum(
                new_vals,
                k - low(k as usize),
                k,
            ) by {
                lemma_low_bounds(k as usize);
                lemma_range_sum_update(
                    old_vals,
                    i as int,
                    old_vals[i as int] + delta,
                    k - low(k as usize),
                    k,
                );
            }
        }
        while j < self.t.len()
            invariant
                self.t@.len() == old_vals.len() + 1,
                self.t@.len() <= max_len(),
                1 <= j,
                j <= 2 * max_len(),
                i < old_vals.len(),
                new_vals == old_vals.update(i as int, old_vals[i as int] + delta),
                sums_fit(new_vals),
                j < self.t@.len() ==> j - low(j) <= i < j,
                forall|k: int|
                    1 <= k < self.t@.len() && k < j ==> #[trigger] self.t@[k] == range_sum(
                        new_vals,
                        k - low(k as usize),
                        k,
                    ),
                forall|k: int|
                    1 <= k < self.t@.len() && k >= j ==> #[trigger] self.t@[k] == range_sum(
                        old_vals,
                        k - low(k as usize),
                        k,
                    ),
            decreases 2 * max_len() - j,
        {
            proof {
                lemma_low_up(j);
                lemma_range_sum_update(
                    old_vals,
                    i as int,
                    old_vals[i as int] + delta,
                    j - low(j),
                    j as int,
                );
                assert(i64::MIN <= range_sum(new_vals, j - low(j), j as int) <= i64::MAX);
            }
            self.t.set(j, self.t[j] + delta);
            let ghost jj = j;
            j = j + lowbit(j);
            proof {
                assert forall|k: int|
                    1 <= k < self.t@.len() && k >= j implies #[trigger] self.t@[k] == range_sum(
                    old_vals,
                    k - low(k as usize),
                    k,
                ) by {}
                assert forall|k: int|
                    1 <= k < self.t@.len() && k < j implies #[trigger] self.t@[k] == range_sum(
                    new_vals,
                    k - low(k as usize),
                    k,
                ) by {
                    if k > jj {
                        lemma_low_between(jj, (k - jj) as usize);
                        lemma_low_bounds(k as usize);
                        lemma_range_sum_update(
                            old_vals,
                            i as int,
                            old_vals[i as int] + delta,
                            k - low(k as usize),
                            k,
                        );
                    }
                }
            }
        }
        self.vals = Ghost(new_vals);
    }

    /// Total of counters `0..i`.
    pub fn prefix(&self, i: usize) -> (s: i64)
        requires
            self.wf(),
            i <= self@.len(),
        ensures
            s == range_sum(self@, 0, i as int),
            counts(self@) ==> 0 <= s <= self.total(),
    {
        let mut s: i64 = 0;
        let mut j = i;
        while j > 0
            invariant
                self.wf(),
                j <= i <= self@.len(),
                s == range_sum(self@, j as int, i as int),
            decreases j,
        {
            proof {
                lemma_low_bounds(j);
                lemma_range_sum_split(self@, j - low(j), j as int, i as int);
                assert(self.t@[j as int] == range_sum(self@, j - low(j), j as int));
                assert(i64::MIN <= range_sum(self@, j - low(j), i as int) <= i64::MAX);
            }
            s = s + self.t[j];
            j = j - lowbit(j);
        }
        proof {
            if counts(self@) {
                lemma_range_sum_bounded(self.vals@, 0, i as int);
            }
        }
        s
    }
}

proof fn lemma_zero_sum(s: Seq<int>, lo: int, hi: int)
    requires
        0 <= lo,
        hi <= s.len(),
        forall|k: int| 0 <= k < s.len() ==> s[k] == 0,
    ensures
        range_sum(s, lo, hi) == 0,
    decreases hi - lo,
{
    if lo < hi {
        lemma_zero_sum(s, lo, hi - 1);
    }
}

} // verus!
