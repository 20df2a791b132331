use vstd::prelude::*;

verus! {

/// The number of requests served since the last report.
///
/// The count wraps around at `usize::MAX + 1`, as an atomic `fetch_add` does.
pub struct RequestCounter {
    reqs: usize,
}

impl View for RequestCounter {
    type V = nat;

    closed spec fn view(&self) -> nat {
        self.reqs as nat
    }
}

impl RequestCounter {
    /// A counter that has seen no request.
    pub fn new() -> (counter: Self)
        ensures
            counter@ == 0,
    {
        RequestCounter { reqs: 0 }
    }

    /// The number of requests counted so far.
    pub fn count(&self) -> (n: usize)
        ensures
            n == self@,
    {
        self.reqs
    }
}

/// The count after one more request: one more, wrapping around at `usize::MAX + 1`.
pub open spec fn next_count(n: nat) -> nat {
    if n >= usize::MAX { 0 } else { n + 1 }
}

/// The count after `k` more requests, starting from `n`.
pub open spec fn count_after(n: nat, k: nat) -> nat
    decreases k,
{
    if k == 0 { n } else { next_count(count_after(n, (k - 1) as nat)) }
}

/// Records one request.
pub fn log_req(counter: &mut RequestCounter)
    ensures
        final(counter)@ == next_count(old(counter)@),
{
    counter.reqs = counter.reqs.wrapping_add(1);
}

/// Reads the count as whole thousands and starts counting again from zero.
///
/// This is what the per-second report prints (as "{thousands}k/s").
pub fn take_thousands(counter: &mut RequestCounter) -> (thousands: usize)
    ensures
        thousands == old(counter)@ / 1000,
        final(counter)@ == 0,
{
    let last = counter.reqs / 1000;
    counter.reqs = 0;
    last
}

/// After a report, `k` logged requests (fewer than `usize::MAX + 1`) are
/// reported as `k / 1000` thousands by the next report.
pub proof fn lemma_report_after_logs(k: nat)
    requires
        k <= usize::MAX,
    ensures
        count_after(0, k) == k,
        count_after(0, k) / 1000 == k / 1000,
    decreases k,
{
    if k > 0 {
        lemma_report_after_logs((k - 1) as nat);
    }
}

/// Logging `k` requests from any count `n` gives the wrapped sum
/// `(n + k) mod (usize::MAX + 1)`.
pub proof fn lemma_count_after(n: nat, k: nat)
    requires
        n <= usize::MAX,
    ensures
        count_after(n, k) == (n + k) % (usize::MAX as nat + 1),
    decreases k,
{
    let m = usize::MAX as nat + 1;
    if k == 0 {
        vstd::arithmetic::div_mod::lemma_small_mod(n, m);
    } else {
        lemma_count_after(n, (k - 1) as nat);
        let prev = count_after(n, (k - 1) as nat);
        assert(prev == (n + k - 1) as nat % m);
        vstd::arithmetic::div_mod::lemma_add_mod_noop(n + k - 1, 1, m as int);
        vstd::arithmetic::div_mod::lemma_small_mod(1, m);
        if prev >= usize::MAX {
            assert(prev + 1 == m);
            vstd::arithmetic::div_mod::lemma_mod_self_0(m as int);
        } else {
            vstd::arithmetic::div_mod::lemma_small_mod((prev + 1) as nat, m);
        }
    }
}

proof fn lemma_wrap_add(x: int, y: int, m: int)
    requires
        0 < m,
    ensures
        ((x % m) + y) % m == (x + y) % m,
{
    vstd::arithmetic::div_mod::lemma_add_mod_noop(x, y, m);
    vstd::arithmetic::div_mod::lemma_add_mod_noop(x % m, y, m);
    vstd::arithmetic::div_mod::lemma_mod_twice(x, m);
}

/// Logging goes by the number of requests alone: logging `a` and then `b`
/// requests leaves the same count as logging `a + b`, in whatever way the
/// calls are grouped or interleaved.
pub proof fn lemma_logs_compose(n: nat, a: nat, b: nat)
    requires
        n <= usize::MAX,
    ensures
        count_after(count_after(n, a), b) == count_after(n, a + b),
        count_after(count_after(n, a), b) == count_after(count_after(n, b), a),
{
    let m = usize::MAX as nat + 1;
    lemma_count_after(n, a);
    lemma_count_after(n, b);
    lemma_count_after(n, a + b);
    let na = count_after(n, a);
    let nb = count_after(n, b);
    lemma_count_after(na, b);
    lemma_count_after(nb, a);
    lemma_wrap_add((n + a) as int, b as int, m as int);
    lemma_wrap_add((n + b) as int, a as int, m as int);
}

} // verus!
