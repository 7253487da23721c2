use vstd::prelude::*;
use crate::modeling::device::{Device, DeviceRand, min_sample, max_sample, valid_rand, lemma_shape_min_le_max};
use crate::modeling::process::{ProcessBase, SharedProcess};
use crate::random::random_in;

verus! {

/// Sum of the weights of the first `k` successors.
pub open spec fn prefix_weight(next: Seq<(SharedProcess, u16)>, k: int) -> nat
    decreases k,
{
    if k <= 0 || k > next.len() {
        0
    } else {
        prefix_weight(next, k - 1) + next[k - 1].1 as nat
    }
}

/// Sum of all successor weights.
pub open spec fn total_weight(next: Seq<(SharedProcess, u16)>) -> nat {
    prefix_weight(next, next.len() as int)
}

/// Index of the successor that the draw `r` selects: the one whose share of
/// `0..total_weight` holds `r`.
pub open spec fn selects(next: Seq<(SharedProcess, u16)>, r: nat, i: int) -> bool {
    &&& 0 <= i < next.len()
    &&& prefix_weight(next, i) <= r < prefix_weight(next, i + 1)
}

proof fn lemma_prefix_mono(next: Seq<(SharedProcess, u16)>, j: int, k: int)
    requires
        0 <= j <= k <= next.len(),
    ensures
        prefix_weight(next, j) <= prefix_weight(next, k),
    decreases k - j,
{
    if j < k {
        lemma_prefix_mono(next, j, k - 1);
    }
}

proof fn lemma_prefix_push(next: Seq<(SharedProcess, u16)>, e: (SharedProcess, u16), k: int)
    requires
        0 <= k <= next.len(),
    ensures
        prefix_weight(next.push(e), k) == prefix_weight(next, k),
    decreases k,
{
    if k > 0 {
        lemma_prefix_push(next, e, k - 1);
    }
}

/// The set of draws in `0..total_weight` that select successor `i` has
/// exactly as many members as the weight of `i`: weighted routing sends jobs
/// to each successor in proportion to its weight.
pub proof fn lemma_selection_share(next: Seq<(SharedProcess, u16)>, i: int)
    requires
        0 <= i < next.len(),
    ensures
        Set::new(|r: int| 0 <= r < total_weight(next) && selects(next, r as nat, i)).finite(),
        Set::new(|r: int| 0 <= r < total_weight(next) && selects(next, r as nat, i)).len()
            == next[i].1 as nat,
{
    lemma_prefix_mono(next, i + 1, next.len() as int);
    let lo = prefix_weight(next, i) as int;
    let hi = prefix_weight(next, i + 1) as int;
    assert(Set::new(|r: int| 0 <= r < total_weight(next) && selects(next, r as nat, i))
        =~= vstd::set_lib::set_int_range(lo, hi));
    vstd::set_lib::lemma_int_range(lo, hi);
}

/// A station of a model: its queue and devices, its weighted successors and
/// its failure target.
#[derive(Debug)]
pub struct ModelProcess {
    base: ProcessBase,
    next: Vec<(SharedProcess, u16)>,
    if_failure: Option<SharedProcess>,
    weight_sum: u64,
}

impl ModelProcess {
    /// The queue and devices.
    pub closed spec fn base_view(&self) -> ProcessBase {
        self.base
    }

    /// The successors with their weights, in the order they were added.
    pub closed spec fn next_view(&self) -> Seq<(SharedProcess, u16)> {
        self.next@
    }

    /// The failure target.
    pub closed spec fn failure_view(&self) -> Option<SharedProcess> {
        self.if_failure
    }

    /// The station's invariant: its core is well formed, every weight is
    /// positive, no successor is listed twice, and the weights' sum fits a `u64`.
    pub open spec fn wf(&self) -> bool {
        &&& self.base_view().wf()
        &&& self.sum_kept()
        &&& total_weight(self.next_view()) <= u64::MAX
        &&& forall|k: int| 0 <= k < self.next_view().len() ==> (#[trigger] self.next_view()[k]).1 >= 1
        &&& forall|j: int, k: int|
            0 <= j < k < self.next_view().len() ==> (#[trigger] self.next_view()[j]).0 != (
            #[trigger] self.next_view()[k]).0
    }

    /// The cached sum of the weights is up to date.
    pub closed spec fn sum_kept(&self) -> bool {
        self.weight_sum == total_weight(self.next@)
    }

    /// Whether `h` is among the successors.
    pub open spec fn has_next(&self, h: SharedProcess) -> bool {
        exists|k: int| 0 <= k < self.next_view().len() && (#[trigger] self.next_view()[k]).0 == h
    }

    /// A station with room for `queue_capacity` waiting jobs, no device and no edge.
    pub fn new(queue_capacity: usize) -> (r: Self)
        ensures
            r.wf(),
            r.base_view().capacity() == queue_capacity,
            r.base_view().queue() == 0,
            r.base_view().devices_view().len() == 0,
            r.base_view().timed(0),
            r.base_view().stats_view().queue_sizes@.len() == 0,
            r.base_view().stats_view().requests_number == 0,
            r.base_view().stats_view().failures == 0,
            r.base_view().stats_view().processed == 0,
            r.base_view().stats_view().total_wait_time == 0,
            r.next_view().len() == 0,
            r.failure_view() is None,
    {
        ModelProcess {
            base: ProcessBase::new(queue_capacity),
            next: Vec::new(),
            if_failure: None,
            weight_sum: 0,
        }
    }

    /// Adds an idle device.
    pub fn add_device(&mut self, device: Device)
        requires
            old(self).wf(),
            device.wf(),
            !device.is_busy(),
        ensures
            final(self).wf(),
            final(self).base_view().devices_view() == old(self).base_view().devices_view().push(device),
            final(self).base_view().capacity() == old(self).base_view().capacity(),
            final(self).base_view().queue() == old(self).base_view().queue(),
            final(self).base_view().stats_view() == old(self).base_view().stats_view(),
            final(self).next_view() == old(self).next_view(),
            final(self).failure_view() == old(self).failure_view(),
    {
        self.base.add_device(device);
    }

    /// Adds `next` as a successor with weight `priority`, unless it already is
    /// one. Returns whether it was added.
    pub fn add_next(&mut self, next: SharedProcess, priority: u16) -> (added: bool)
        requires
            old(self).wf(),
            priority >= 1,
            total_weight(old(self).next_view()) + priority <= u64::MAX,
        ensures
            final(self).wf(),
            added == !old(self).has_next(next),
            final(self).next_view() == if added {
                old(self).next_view().push((next, priority))
            } else {
                old(self).next_view()
            },
            final(self).base_view() == old(self).base_view(),
            final(self).failure_view() == old(self).failure_view(),
    {
        let mut i: usize = 0;
        while i < self.next.len()
            invariant
                0 <= i <= self.next@.len(),
                *self == *old(self),
                old(self).wf(),
                forall|k: int| 0 <= k < i ==> (#[trigger] self.next@[k]).0 != next,
            decreases self.next@.len() - i,
        {
            if self.next[i].0 == next {
                proof {
                    assert(self.next_view()[i as int].0 == next);
                }
                return false;
            }
            i = i + 1;
        }
        proof {
            lemma_prefix_push(self.next@, (next, priority), self.next@.len() as int);
        }
        self.next.push((next, priority));
        self.weight_sum = self.weight_sum + priority as u64;
        proof {
            let v = self.next@;
            assert forall|j: int, k: int| 0 <= j < k < v.len() implies (#[trigger] v[j]).0 != (
            #[trigger] v[k]).0 by {
                if k == v.len() - 1 {
                    assert(v[j] == old(self).next@[j]);
                } else {
                    assert(v[j] == old(self).next@[j]);
                    assert(v[k] == old(self).next@[k]);
                }
            }
            assert forall|k: int| 0 <= k < v.len() implies (#[trigger] v[k]).1 >= 1 by {
                if k < v.len() - 1 {
                    assert(v[k] == old(self).next@[k]);
                }
            }
        }
        true
    }

    /// Sum of the successor weights.
    pub fn get_total_weight(&self) -> (r: u64)
        requires
            self.wf(),
        ensures
            r == total_weight(self.next_view()),
    {
        self.weight_sum
    }

    /// Makes `proc` the failure target.
    pub fn set_if_failure(&mut self, proc: SharedProcess)
        requires
            old(self).wf(),
        ensures
            final(self).wf(),
            final(self).failure_view() == Some(proc),
            final(self).base_view() == old(self).base_view(),
            final(self).next_view() == old(self).next_view(),
    {
        self.if_failure = Some(proc);
    }

    /// The successor that the draw `r` selects: the walk over the successors
    /// that stops where the running sum of weights first exceeds `r`.
    pub fn pick_next(&self, r: u64) -> (h: SharedProcess)
        requires
            self.wf(),
            r < total_weight(self.next_view()),
        ensures
            exists|i: int| selects(self.next_view(), r as nat, i) && h == self.next_view()[i].0,
    {
        let mut rest: u64 = r;
        let mut i: usize = 0;
        while i < self.next.len()
            invariant
                0 <= i <= self.next@.len(),
                rest == r - prefix_weight(self.next@, i as int),
                r >= prefix_weight(self.next@, i as int),
                r < total_weight(self.next@),
            decreases self.next@.len() - i,
        {
            let w = self.next[i].1 as u64;
            if rest < w {
                let h = self.next[i].0;
                proof {
                    assert(prefix_weight(self.next@, i + 1) == prefix_weight(self.next@, i as int)
                        + self.next@[i as int].1);
                    assert(selects(self.next_view(), r as nat, i as int));
                    assert(h == self.next_view()[i as int].0);
                }
                return h;
            }
            rest = rest - w;
            i = i + 1;
        }
        proof {
            assert(false);
        }
        self.next[0].0
    }

    /// The station that a completed job goes to: none without successors, the
    /// only one if there is one, and otherwise one drawn at random with
    /// probability proportional to its weight.
    pub fn get_next(&self) -> (r: Option<SharedProcess>)
        requires
            self.wf(),
        ensures
            r is None <==> self.next_view().len() == 0,
            self.next_view().len() == 1 ==> r == Some(self.next_view()[0].0),
            r matches Some(h) ==> exists|i: int|
                0 <= i < self.next_view().len() && (#[trigger] self.next_view()[i]).0 == h,
    {
        let n = self.next.len();
        if n == 0 {
            None
        } else if n == 1 {
            Some(self.next[0].0)
        } else {
            proof {
                lemma_prefix_mono(self.next@, 1, n as int);
            }
            let r = random_in(0, self.weight_sum - 1);
            let h = self.pick_next(r);
            Some(h)
        }
    }

    /// The successors, in the order they were added.
    pub fn get_all_next(&self) -> (r: Vec<SharedProcess>)
        ensures
            r@.len() == self.next_view().len(),
            forall|k: int| 0 <= k < r@.len() ==> r@[k] == (#[trigger] self.next_view()[k]).0,
    {
        let mut out: Vec<SharedProcess> = Vec::new();
        let mut i: usize = 0;
        while i < self.next.len()
            invariant
                0 <= i <= self.next@.len(),
                out@.len() == i,
                forall|k: int| 0 <= k < i ==> out@[k] == (#[trigger] self.next@[k]).0,
            decreases self.next@.len() - i,
        {
            out.push(self.next[i].0);
            i = i + 1;
        }
        out
    }

    /// The failure target, if any.
    pub fn get_if_failure(&self) -> (r: Option<SharedProcess>)
        ensures
            r == self.failure_view(),
    {
        self.if_failure
    }

    /// The queue and devices.
    pub fn get_base(&self) -> (r: &ProcessBase)
        ensures
            *r == self.base_view(),
    {
        &self.base
    }

    /// The queue and devices, to change them; the edges stay as they are.
    pub fn get_mut_base(&mut self) -> (r: &mut ProcessBase)
        ensures
            *r == old(self).base_view(),
            final(self).base_view() == *final(r),
            final(self).next_view() == old(self).next_view(),
            final(self).failure_view() == old(self).failure_view(),
            final(self).sum_kept() == old(self).sum_kept(),
    {
        &mut self.base
    }

    /// The least remaining work over the station's busy devices.
    pub fn get_work_time(&self) -> (r: Option<u64>)
        requires
            self.wf(),
        ensures
            self.base_view().is_min_work(r),
    {
        self.base.get_work_time()
    }
}

/// The arrival source of a model: every draw of its distribution is the time
/// to the next job that it offers to its entry station.
#[derive(Debug)]
pub struct ModelProducer {
    next: SharedProcess,
    rand: DeviceRand,
    current_time: u64,
    required_time: u64,
    produced: u64,
}

impl ModelProducer {
    /// The station that receives the arrivals.
    pub closed spec fn entry(&self) -> SharedProcess {
        self.next
    }

    /// Time since the last arrival.
    pub closed spec fn elapsed(&self) -> u64 {
        self.current_time
    }

    /// Time between the last arrival and the next one.
    pub closed spec fn due(&self) -> u64 {
        self.required_time
    }

    /// Arrivals so far.
    pub closed spec fn produced_view(&self) -> u64 {
        self.produced
    }

    /// The distribution of the times between arrivals.
    pub closed spec fn arrivals(&self) -> &DeviceRand {
        &self.rand
    }

    /// The next arrival lies ahead, the distribution is valid, and the time
    /// between arrivals is one that the distribution can draw.
    pub closed spec fn wf(&self) -> bool {
        &&& valid_rand(&self.rand)
        &&& self.current_time < self.required_time
        &&& min_sample(&self.rand) <= self.required_time <= max_sample(&self.rand)
    }

    /// A producer that sends jobs to `consumer`, with the first arrival drawn from `rand`.
    pub fn new(consumer: SharedProcess, rand: DeviceRand) -> (r: Self)
        requires
            valid_rand(&rand),
        ensures
            r.wf(),
            r.entry() == consumer,
            *r.arrivals() == rand,
            r.elapsed() == 0,
            r.produced_view() == 0,
            min_sample(&rand) <= r.due() <= max_sample(&rand),
    {
        let required_time = rand.next_rand();
        ModelProducer {
            next: consumer,
            rand: rand,
            current_time: 0,
            required_time: required_time,
            produced: 0,
        }
    }

    /// Time left until the next arrival.
    pub fn get_time(&self) -> (r: u64)
        requires
            self.wf(),
        ensures
            r == self.due() - self.elapsed(),
            r >= 1,
    {
        self.required_time - self.current_time
    }

    /// The station that receives the arrivals.
    pub fn get_next(&self) -> (r: SharedProcess)
        ensures
            r == self.entry(),
    {
        self.next
    }

    /// Arrivals so far.
    pub fn get_produced(&self) -> (r: u64)
        ensures
            r == self.produced_view(),
    {
        self.produced
    }

    /// Lets `time` units pass and returns how many arrivals fell due: the
    /// arrival that was due, if `time` reaches it, and then each one whose
    /// newly drawn time also fits in what is left of `time`.
    pub fn run(&mut self, time: u64) -> (n: u64)
        requires
            old(self).wf(),
            old(self).produced_view() + old(self).elapsed() + time <= u64::MAX,
        ensures
            final(self).wf(),
            final(self).entry() == old(self).entry(),
            final(self).arrivals() == old(self).arrivals(),
            final(self).produced_view() == old(self).produced_view() + n,
            final(self).produced_view() + final(self).elapsed() <= old(self).produced_view()
                + old(self).elapsed() + time,
            (n == 0) == (time < old(self).due() - old(self).elapsed()),
            n == 0 ==> final(self).elapsed() == old(self).elapsed() + time && final(self).due() == old(
                self,
            ).due(),
            final(self).elapsed() <= old(self).elapsed() + time,
            n >= 1 ==> old(self).elapsed() + time - final(self).elapsed() >= old(self).due() + (n - 1)
                * min_sample(old(self).arrivals()),
            n * min_sample(old(self).arrivals()) <= old(self).elapsed() + time - final(self).elapsed(),
            time == old(self).due() - old(self).elapsed() ==> n == 1 && final(self).elapsed() == 0,
    {
        let ghost c0 = self.current_time as int;
        let ghost d0 = self.required_time as int;
        let ghost made0 = self.produced as int;
        let ghost m = min_sample(&self.rand) as int;
        proof {
            lemma_shape_min_le_max(&self.rand);
        }
        self.current_time = self.current_time + time;
        let mut n: u64 = 0;
        while self.current_time >= self.required_time
            invariant
                valid_rand(&self.rand),
                self.rand == old(self).rand,
                self.next == old(self).next,
                m == min_sample(&self.rand),
                m >= 1,
                min_sample(&self.rand) <= self.required_time <= max_sample(&self.rand),
                made0 + c0 + time <= u64::MAX,
                made0 >= 0,
                self.produced == made0 + n,
                self.produced + self.current_time <= made0 + c0 + time,
                self.current_time <= c0 + time,
                n * m <= c0 + time - self.current_time,
                n >= 1 ==> c0 + time - self.current_time >= d0 + (n - 1) * m,
                n == 0 ==> self.current_time == c0 + time && self.required_time == d0,
                c0 + time == d0 ==> (n == 0 && self.current_time == d0 && self.required_time == d0) || (n
                    == 1 && self.current_time == 0),
            decreases self.current_time,
        {
            let ghost cur = self.current_time as int;
            let ghost req = self.required_time as int;
            self.current_time = self.current_time - self.required_time;
            self.required_time = self.rand.next_rand();
            self.produced = self.produced + 1;
            n = n + 1;
            proof {
                assert(n * m == (n - 1) * m + m) by (nonlinear_arith);
                assert((n - 1) * m == (n - 2) * m + m || n < 2) by (nonlinear_arith);
            }
        }
        n
    }
}

} // verus!
