use vstd::prelude::*;
use vstd::relations::{sorted_by, total_ordering};

verus! {

broadcast use {vstd::seq_lib::group_to_multiset_ensures, vstd::multiset::group_multiset_axioms};

/// The order in which step times are ranked.
pub open spec fn time_le() -> spec_fn(u128, u128) -> bool {
    |a: u128, b: u128| a <= b
}

/// Sum of a sequence of step times.
pub open spec fn total_time(s: Seq<u128>) -> int
    decreases s.len(),
{
    if s.len() == 0 {
        0
    } else {
        total_time(s.drop_last()) + s.last()
    }
}

/// Index into the sorted step times at which the `pct`-th percentile is read.
pub open spec fn percentile_index(n: nat, pct: nat) -> int {
    (n * pct / 100) as int
}

/// The step times in ascending order.
pub open spec fn sorted_times(s: Seq<u128>) -> Seq<u128> {
    s.sort_by(time_le())
}

/// Summary statistics of the recorded step durations, in milliseconds.
#[derive(Debug)]
pub struct BenchmarkReport {
    pub total_steps: usize,
    pub mean_step_time_ms: u128,
    pub p95_step_time_ms: u128,
    pub p99_step_time_ms: u128,
}

impl Default for BenchmarkReport {
    fn default() -> (r: Self)
        ensures
            r.total_steps == 0,
            r.mean_step_time_ms == 0,
            r.p95_step_time_ms == 0,
            r.p99_step_time_ms == 0,
    {
        BenchmarkReport { total_steps: 0, mean_step_time_ms: 0, p95_step_time_ms: 0, p99_step_time_ms: 0 }
    }
}

/// What `report` gives for a sequence of step times: all zero when nothing
/// was recorded, otherwise the count, the floor of the mean and the values
/// at ranks `n * 95 / 100` and `n * 99 / 100` of the ascending order.
pub open spec fn report_matches(r: BenchmarkReport, s: Seq<u128>) -> bool {
    if s.len() == 0 {
        &&& r.total_steps == 0
        &&& r.mean_step_time_ms == 0
        &&& r.p95_step_time_ms == 0
        &&& r.p99_step_time_ms == 0
    } else {
        &&& r.total_steps == s.len()
        &&& r.mean_step_time_ms == total_time(s) / (s.len() as int)
        &&& r.p95_step_time_ms == sorted_times(s)[percentile_index(s.len(), 95)]
        &&& r.p99_step_time_ms == sorted_times(s)[percentile_index(s.len(), 99)]
    }
}

/// Whether `report` can run on these step times without overflow: the
/// total fits in a `u128` and the percentile ranks fit in a `usize`.
pub open spec fn report_in_range(s: Seq<u128>) -> bool {
    &&& total_time(s) <= u128::MAX
    &&& s.len() * 99 <= usize::MAX
}

/// Records the wall-clock duration of each simulation step.
pub struct BenchmarkHarness {
    step_times: Vec<u128>,
}

impl View for BenchmarkHarness {
    type V = Seq<u128>;

    closed spec fn view(&self) -> Seq<u128> {
        self.step_times@
    }
}

/// Step times are ranked by a total order.
pub proof fn lemma_time_le_total()
    ensures
        total_ordering(time_le()),
{
}

proof fn lemma_total_time_prefix(s: Seq<u128>, i: int)
    requires
        0 <= i <= s.len(),
    ensures
        0 <= total_time(s.take(i)) <= total_time(s),
    decreases s.len(),
{
    if i == s.len() {
        assert(s.take(i) =~= s);
        lemma_total_time_nonneg(s);
    } else {
        assert(s.drop_last().take(i) =~= s.take(i));
        lemma_total_time_prefix(s.drop_last(), i);
    }
}

proof fn lemma_total_time_nonneg(s: Seq<u128>)
    ensures
        total_time(s) >= 0,
    decreases s.len(),
{
    if s.len() > 0 {
        lemma_total_time_nonneg(s.drop_last());
    }
}

proof fn lemma_total_time_bounds(s: Seq<u128>, lo: int, hi: int)
    requires
        forall|i: int| 0 <= i < s.len() ==> lo <= #[trigger] s[i] <= hi,
    ensures
        s.len() * lo <= total_time(s) <= s.len() * hi,
    decreases s.len(),
{
    if s.len() > 0 {
        lemma_total_time_bounds(s.drop_last(), lo, hi);
        assert(s.len() * lo == (s.len() - 1) * lo + lo) by (nonlinear_arith);
        assert(s.len() * hi == (s.len() - 1) * hi + hi) by (nonlinear_arith);
    }
}

/// Laws of a report on at least one step: the 95th percentile is not above
/// the 99th, both are recorded step times, and the mean lies between the
/// smallest and the largest recorded step time.
pub proof fn lemma_report_ordered(r: BenchmarkReport, s: Seq<u128>)
    requires
        s.len() > 0,
        report_matches(r, s),
    ensures
        r.p95_step_time_ms <= r.p99_step_time_ms,
        s.contains(r.p95_step_time_ms),
        s.contains(r.p99_step_time_ms),
        sorted_times(s).first() <= r.mean_step_time_ms <= sorted_times(s).last(),
        r.p99_step_time_ms <= sorted_times(s).last(),
        r.total_steps == s.len(),
{
    let t = sorted_times(s);
    let n = s.len();
    lemma_time_le_total();
    s.lemma_sort_by_ensures(time_le());
    assert(t.len() == n) by {
        assert(t.to_multiset().len() == s.to_multiset().len());
    }
    let i95 = percentile_index(n, 95);
    let i99 = percentile_index(n, 99);
    assert(0 <= i95 <= i99 < n) by (nonlinear_arith)
        requires
            n > 0,
            i95 == n * 95 / 100,
            i99 == n * 99 / 100,
    ;
    if i95 < i99 {
        assert(time_le()(t[i95], t[i99]));
    }
    if i99 < n - 1 {
        assert(time_le()(t[i99], t[n - 1]));
    }
    assert(t.to_multiset().count(t[i95]) > 0);
    assert(t.to_multiset().count(t[i99]) > 0);
    assert forall|i: int| 0 <= i < n implies t[0] <= #[trigger] s[i] <= t[n - 1] by {
        assert(s.to_multiset().count(s[i]) > 0);
        assert(t.contains(s[i]));
        let j = choose|j: int| 0 <= j < t.len() && t[j] == s[i];
        if j > 0 {
            assert(time_le()(t[0], t[j]));
        }
        if j < n - 1 {
            assert(time_le()(t[j], t[n - 1]));
        }
    }
    lemma_total_time_bounds(s, t[0] as int, t[n - 1] as int);
    let sum = total_time(s);
    let lo = t[0] as int;
    let hi = t[n - 1] as int;
    assert(lo <= sum / (n as int) <= hi) by (nonlinear_arith)
        requires
            n > 0,
            n * lo <= sum <= n * hi,
            lo >= 0,
    ;
}

proof fn lemma_total_time_remove(s: Seq<u128>, j: int)
    requires
        0 <= j < s.len(),
    ensures
        total_time(s) == total_time(s.remove(j)) + s[j],
    decreases s.len(),
{
    if j < s.len() - 1 {
        lemma_total_time_remove(s.drop_last(), j);
        assert(s.remove(j).drop_last() =~= s.drop_last().remove(j));
        assert(s.remove(j).last() == s.last());
    } else {
        assert(s.remove(j) =~= s.drop_last());
    }
}

proof fn lemma_total_time_permutation(a: Seq<u128>, b: Seq<u128>)
    requires
        a.to_multiset() == b.to_multiset(),
    ensures
        total_time(a) == total_time(b),
    decreases a.len(),
{
    if a.len() == 0 {
        assert(b.to_multiset().len() == 0);
        assert(b =~= Seq::<u128>::empty());
    } else {
        let x = a.last();
        assert(a.to_multiset().count(x) > 0) by {
            assert(a.contains(x));
        }
        assert(b.contains(x));
        let j = choose|j: int| 0 <= j < b.len() && b[j] == x;
        assert(a.drop_last() =~= a.remove(a.len() - 1));
        assert(a.drop_last().to_multiset() == a.to_multiset().remove(x));
        assert(b.remove(j).to_multiset() == b.to_multiset().remove(x));
        lemma_total_time_permutation(a.drop_last(), b.remove(j));
        lemma_total_time_remove(b, j);
    }
}

/// The report does not depend on the order in which step times were
/// recorded: two recordings of the same times, in any order, give the same
/// count, mean and percentiles.
pub proof fn lemma_report_order_independent(
    r1: BenchmarkReport,
    s1: Seq<u128>,
    r2: BenchmarkReport,
    s2: Seq<u128>,
)
    requires
        s1.to_multiset() == s2.to_multiset(),
        report_matches(r1, s1),
        report_matches(r2, s2),
    ensures
        r1.total_steps == r2.total_steps,
        r1.mean_step_time_ms == r2.mean_step_time_ms,
        r1.p95_step_time_ms == r2.p95_step_time_ms,
        r1.p99_step_time_ms == r2.p99_step_time_ms,
{
    assert(s1.len() == s2.len()) by {
        vstd::seq_lib::to_multiset_len(s1);
        vstd::seq_lib::to_multiset_len(s2);
    }
    lemma_total_time_permutation(s1, s2);
    lemma_time_le_total();
    s1.lemma_sort_by_ensures(time_le());
    s2.lemma_sort_by_ensures(time_le());
    vstd::seq_lib::lemma_sorted_unique(sorted_times(s1), sorted_times(s2), time_le());
}

/// Recording one more step adds one to the count; after the first step the
/// mean and both percentiles are that step's time. Earlier times are kept:
/// `record_step` appends to the recorded sequence.
pub proof fn lemma_report_after_record(
    before: BenchmarkReport,
    after: BenchmarkReport,
    s: Seq<u128>,
    d: u128,
)
    requires
        report_matches(before, s),
        report_matches(after, s.push(d)),
    ensures
        after.total_steps == before.total_steps + 1,
        s.len() == 0 ==> after.mean_step_time_ms == d && after.p95_step_time_ms == d
            && after.p99_step_time_ms == d,
{
    if s.len() == 0 {
        let one = s.push(d);
        assert(one.drop_last() =~= s);
        assert(total_time(s) == 0);
        assert(one.last() == d);
        assert(total_time(one) == total_time(one.drop_last()) + one.last());
        lemma_time_le_total();
        one.lemma_sort_by_ensures(time_le());
        let t = sorted_times(one);
        vstd::seq_lib::to_multiset_len(one);
        vstd::seq_lib::to_multiset_len(t);
        assert(t.len() == 1);
        assert(t.to_multiset().count(t[0]) > 0) by {
            assert(t.contains(t[0]));
        }
        assert(one.contains(t[0]));
        assert(percentile_index(1, 95) == 0 && percentile_index(1, 99) == 0);
    }
}

/// A copy of `v` in ascending order.
fn sorted_copy(v: &Vec<u128>) -> (r: Vec<u128>)
    ensures
        sorted_by(r@, time_le()),
        r@.to_multiset() =~= v@.to_multiset(),
        r@ =~= sorted_times(v@),
{
    let mut r: Vec<u128> = Vec::new();
    let mut k: usize = 0;
    while k < v.len()
        invariant
            k <= v.len(),
            sorted_by(r@, time_le()),
            r@.to_multiset() =~= v@.take(k as int).to_multiset(),
        decreases v.len() - k,
    {
        let x = v[k];
        let mut p: usize = 0;
        while p < r.len() && r[p] <= x
            invariant
                p <= r.len(),
                forall|i: int| 0 <= i < p ==> r@[i] <= x,
            decreases r.len() - p,
        {
            p += 1;
        }
        let ghost before = r@;
        assert(forall|i: int| p <= i < before.len() ==> x < before[i]) by {
            if p < before.len() {
                assert(x < before[p as int]);
                assert forall|i: int| p <= i < before.len() implies x < before[i] by {
                    assert(time_le()(before[p as int], before[i]) || i == p);
                }
            }
        }
        r.insert(p, x);
        proof {
            assert(r@ =~= before.insert(p as int, x));
            assert forall|i: int, j: int| 0 <= i < j < r@.len() implies #[trigger] time_le()(
                r@[i],
                r@[j],
            ) by {
                if j < p {
                    assert(time_le()(before[i], before[j]));
                } else if i < p && j == p {
                } else if i < p {
                    assert(time_le()(before[i], before[j - 1]));
                } else if i == p {
                } else {
                    assert(time_le()(before[i - 1], before[j - 1]));
                }
            }
            assert(v@.take(k + 1) =~= v@.take(k as int).push(x));
        }
        k += 1;
    }
    proof {
        assert(v@.take(v.len() as int) =~= v@);
        lemma_time_le_total();
        v@.lemma_sort_by_ensures(time_le());
        vstd::seq_lib::lemma_sorted_unique(r@, sorted_times(v@), time_le());
    }
    r
}

impl BenchmarkHarness {
    /// A harness with no recorded steps.
    pub fn new() -> (h: Self)
        ensures
            h@ == Seq::<u128>::empty(),
    {
        BenchmarkHarness { step_times: Vec::new() }
    }

    /// Records the duration of one more step.
    pub fn record_step(&mut self, duration_ms: u128)
        ensures
            final(self)@ == old(self)@.push(duration_ms),
    {
        self.step_times.push(duration_ms);
    }

    /// The recorded step times, in recording order.
    pub fn step_times(&self) -> (times: &[u128])
        ensures
            times@ == self@,
    {
        self.step_times.as_slice()
    }

    /// Count, mean and 95th/99th percentile of the recorded step times.
    pub fn report(&self) -> (r: BenchmarkReport)
        requires
            report_in_range(self@),
        ensures
            report_matches(r, self@),
    {
        if self.step_times.len() == 0 {
            return BenchmarkReport::default();
        }
        let n = self.step_times.len();
        let mut sum: u128 = 0;
        let mut i: usize = 0;
        while i < n
            invariant
                n == self.step_times@.len(),
                i <= n,
                report_in_range(self.step_times@),
                sum == total_time(self.step_times@.take(i as int)),
            decreases n - i,
        {
            proof {
                assert(self.step_times@.take(i + 1).drop_last() =~= self.step_times@.take(i as int));
                lemma_total_time_prefix(self.step_times@, i + 1);
            }
            sum = sum + self.step_times[i];
            i += 1;
        }
        proof {
            assert(self.step_times@.take(n as int) =~= self.step_times@);
        }
        let mean = sum / (n as u128);
        let sorted = sorted_copy(&self.step_times);
        proof {
            assert(sorted@.len() == self.step_times@.to_multiset().len());
            assert(n * 95 / 100 < n && n * 99 / 100 < n && n * 95 / 100 <= n * 99 / 100) by (nonlinear_arith)
                requires
                    n > 0,
            ;
        }
        let i95 = (n * 95) / 100;
        let i99 = (n * 99) / 100;
        let p95 = sorted[i95];
        let p99 = sorted[i99];
        BenchmarkReport {
            total_steps: n,
            mean_step_time_ms: mean,
            p95_step_time_ms: p95,
            p99_step_time_ms: p99,
        }
    }
}

} // verus!
