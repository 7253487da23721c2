use vstd::prelude::*;
use crate::random::random_in;

verus! {

broadcast use vstd::std_specs::vec::group_vec_axioms;

/// The longest wait that an exponential draw may return, as a multiple of its mean.
pub const EXP_TAIL: u64 = 64;

/// Probability distribution of a duration, in time units.
#[derive(Debug)]
pub enum DeviceRand {
    /// Memoryless durations with the given mean: every time unit ends the
    /// wait with probability `1 / mean` (the discrete form of an exponential
    /// law), cut off at `EXP_TAIL` times the mean.
    Exponential(u64),
    /// Uniform over `low..=high`.
    Uniform(u64, u64),
    /// Always the given duration.
    Fixed(u64),
    /// The sum of one independent draw of each member.
    Mixed(Vec<DeviceRand>),
}

/// Smallest value that a draw of `d` can return.
pub open spec fn min_sample(d: &DeviceRand) -> nat
    decreases d, 0nat,
{
    match d {
        DeviceRand::Exponential(_) => 1,
        DeviceRand::Uniform(low, _) => *low as nat,
        DeviceRand::Fixed(v) => *v as nat,
        DeviceRand::Mixed(v) => min_sum(v, v.len() as int),
    }
}

/// Sum of `min_sample` over the first `k` members.
pub open spec fn min_sum(v: &Vec<DeviceRand>, k: int) -> nat
    decreases v, k,
{
    if k <= 0 || k > v.len() {
        0
    } else {
        min_sum(v, k - 1) + min_sample(&v[k - 1])
    }
}

/// Largest value that a draw of `d` can return.
pub open spec fn max_sample(d: &DeviceRand) -> nat
    decreases d, 0nat,
{
    match d {
        DeviceRand::Exponential(mean) => *mean as nat * EXP_TAIL as nat,
        DeviceRand::Uniform(_, high) => *high as nat,
        DeviceRand::Fixed(v) => *v as nat,
        DeviceRand::Mixed(v) => max_sum(v, v.len() as int),
    }
}

/// Sum of `max_sample` over the first `k` members.
pub open spec fn max_sum(v: &Vec<DeviceRand>, k: int) -> nat
    decreases v, k,
{
    if k <= 0 || k > v.len() {
        0
    } else {
        max_sum(v, k - 1) + max_sample(&v[k - 1])
    }
}

/// Every draw is at least one time unit, and every draw fits in a `u64`.
pub open spec fn valid_rand(d: &DeviceRand) -> bool {
    &&& valid_shape(d)
    &&& max_sample(d) <= u64::MAX
}

/// The bounds of each variant are well ordered and at least one.
pub open spec fn valid_shape(d: &DeviceRand) -> bool
    decreases d, 0nat,
{
    match d {
        DeviceRand::Exponential(mean) => *mean >= 1,
        DeviceRand::Uniform(low, high) => 1 <= *low <= *high,
        DeviceRand::Fixed(v) => *v >= 1,
        DeviceRand::Mixed(v) => v.len() >= 1 && all_shapes(v, v.len() as int),
    }
}

/// The first `k` members have a valid shape.
pub open spec fn all_shapes(v: &Vec<DeviceRand>, k: int) -> bool
    decreases v, k,
{
    if k <= 0 || k > v.len() {
        true
    } else {
        all_shapes(v, k - 1) && valid_shape(&v[k - 1])
    }
}

/// Every draw lies in `min_sample(d)..=max_sample(d)`, a non-empty range of
/// positive values.
pub proof fn lemma_shape_min_le_max(d: &DeviceRand)
    requires
        valid_shape(d),
    ensures
        1 <= min_sample(d) <= max_sample(d),
    decreases d, 0nat,
{
    match d {
        DeviceRand::Mixed(v) => {
            lemma_sums(v, v.len() as int);
            lemma_min_sum_first(v, v.len() as int);
        },
        _ => {},
    }
}

proof fn lemma_sums(v: &Vec<DeviceRand>, k: int)
    requires
        0 <= k <= v.len(),
        all_shapes(v, k),
    ensures
        min_sum(v, k) <= max_sum(v, k),
        forall|j: int| 0 <= j < k ==> valid_shape(#[trigger] &v[j]),
    decreases v, k,
{
    if k > 0 {
        lemma_sums(v, k - 1);
        lemma_shape_min_le_max(&v[k - 1]);
    }
}

proof fn lemma_min_sum_first(v: &Vec<DeviceRand>, k: int)
    requires
        1 <= k <= v.len(),
        forall|j: int| 0 <= j < k ==> valid_shape(#[trigger] &v[j]),
    ensures
        min_sum(v, k) >= 1,
    decreases v, k,
{
    if k > 1 {
        lemma_min_sum_first(v, k - 1);
    } else {
        lemma_shape_min_le_max(&v[0]);
    }
}

proof fn lemma_max_sum_mono(v: &Vec<DeviceRand>, j: int, k: int)
    requires
        0 <= j <= k <= v.len(),
    ensures
        max_sum(v, j) <= max_sum(v, k),
    decreases k - j,
{
    if j < k {
        lemma_max_sum_mono(v, j, k - 1);
    }
}

impl DeviceRand {
    /// Draws one duration.
    pub fn next_rand(&self) -> (r: u64)
        requires
            valid_shape(self),
            max_sample(self) <= u64::MAX,
        ensures
            min_sample(self) <= r <= max_sample(self),
            1 <= r,
        decreases self,
    {
        proof {
            lemma_shape_min_le_max(self);
        }
        match self {
            DeviceRand::Exponential(mean) => {
                let cap = *mean * EXP_TAIL;
                let mut n: u64 = 1;
                loop
                    invariant
                        1 <= n <= cap,
                        cap == *mean * EXP_TAIL,
                        *mean >= 1,
                    decreases cap - n,
                {
                    if n >= cap {
                        break;
                    }
                    if random_in(1, *mean) == 1 {
                        break;
                    }
                    n = n + 1;
                }
                n
            },
            DeviceRand::Uniform(low, high) => random_in(*low, *high),
            DeviceRand::Fixed(v) => *v,
            DeviceRand::Mixed(members) => {
                proof {
                    lemma_sums(members, members.len() as int);
                }
                let mut total: u64 = 0;
                let mut i: usize = 0;
                while i < members.len()
                    invariant
                        0 <= i <= members.len(),
                        *self == DeviceRand::Mixed(*members),
                        min_sum(members, i as int) <= total <= max_sum(members, i as int),
                        max_sum(members, members.len() as int) <= u64::MAX,
                        forall|j: int| 0 <= j < members.len() ==> valid_shape(#[trigger] &members[j]),
                    decreases members.len() - i,
                {
                    proof {
                        lemma_max_sum_mono(members, i + 1, members.len() as int);
                    }
                    proof {
                        assert(decreases_to!(*members => members[i as int]));
                        assert(decreases_to!(*self => (*self)->Mixed_0));
                        assert(decreases_to!(*self => members[i as int]));
                    }
                    let s = members[i].next_rand();
                    total = total + s;
                    i = i + 1;
                }
                total
            },
        }
    }
}

/// Counters of one device over a run, in time units.
#[derive(Clone, Copy, Debug)]
pub struct DeviceStats {
    /// Time spent serving jobs.
    pub busy_time: u64,
    /// Time observed in all, busy or idle.
    pub total_time: u64,
    /// Jobs served to completion.
    pub processed: u64,
}

impl DeviceStats {
    /// Records `time` units of service.
    pub fn add_busy_time(&mut self, time: u64)
        requires
            old(self).total_time + time <= u64::MAX,
            old(self).busy_time <= old(self).total_time,
        ensures
            *final(self) == (DeviceStats {
                busy_time: (old(self).busy_time + time) as u64,
                total_time: (old(self).total_time + time) as u64,
                ..*old(self)
            }),
    {
        self.busy_time = self.busy_time + time;
        self.total_time = self.total_time + time;
    }

    /// Records `time` units without service.
    pub fn add_wait_time(&mut self, time: u64)
        requires
            old(self).total_time + time <= u64::MAX,
        ensures
            *final(self) == (DeviceStats { total_time: (old(self).total_time + time) as u64, ..*old(self) }),
    {
        self.total_time = self.total_time + time;
    }

    /// Records one completed job.
    pub fn add_processed(&mut self)
        requires
            old(self).processed < u64::MAX,
        ensures
            *final(self) == (DeviceStats { processed: (old(self).processed + 1) as u64, ..*old(self) }),
    {
        self.processed = self.processed + 1;
    }
}

/// One server slot of a station: idle, or busy with the remaining part of a job.
#[derive(Debug)]
pub struct Device {
    current_time: u64,
    required_time: Option<u64>,
    rand: DeviceRand,
    stats: DeviceStats,
}

impl Device {
    /// The remaining work, if busy.
    pub closed spec fn remaining(&self) -> Option<u64> {
        match self.required_time {
            Some(t) => Some((t - self.current_time) as u64),
            None => None,
        }
    }

    /// Whether the device is serving a job.
    pub open spec fn is_busy(&self) -> bool {
        self.remaining() is Some
    }

    /// The device's counters.
    pub closed spec fn stats_view(&self) -> DeviceStats {
        self.stats
    }

    /// The distribution of the device's service times.
    pub closed spec fn service(&self) -> &DeviceRand {
        &self.rand
    }

    /// `new` is `old` after serving its job for `time` units (see `run`).
    pub open spec fn ran(old: Device, new: Device, time: nat) -> bool {
        let w = old.remaining()->0;
        let s = old.stats_view();
        let t = new.stats_view();
        &&& new.service() == old.service()
        &&& t.total_time == s.total_time + time
        &&& if time >= w {
            &&& !new.is_busy()
            &&& t.busy_time == s.busy_time + w
            &&& t.processed == s.processed + 1
        } else {
            &&& new.remaining() == Some((w - time) as u64)
            &&& t.busy_time == s.busy_time + time
            &&& t.processed == s.processed
        }
    }

    /// `new` is the idle `old` after starting a job drawn from its
    /// distribution and serving it for `time` units (see `process`, `run`).
    pub open spec fn started_and_ran(old: Device, new: Device, time: nat) -> bool {
        let s = old.stats_view();
        let t = new.stats_view();
        &&& new.service() == old.service()
        &&& t.total_time == s.total_time + time
        &&& if new.is_busy() {
            &&& t.processed == s.processed
            &&& t.busy_time == s.busy_time + time
            &&& min_sample(old.service()) <= time + new.remaining()->0 <= max_sample(old.service())
        } else {
            &&& t.processed == s.processed + 1
            &&& t.busy_time >= s.busy_time
            &&& t.busy_time - s.busy_time <= time
            &&& min_sample(old.service()) <= t.busy_time - s.busy_time <= max_sample(old.service())
        }
    }

    /// `new` is the idle `old` after waiting `time` units (see `wait`).
    pub open spec fn waited(old: Device, new: Device, time: nat) -> bool {
        &&& !new.is_busy()
        &&& new.service() == old.service()
        &&& new.stats_view().total_time == old.stats_view().total_time + time
        &&& new.stats_view().busy_time == old.stats_view().busy_time
        &&& new.stats_view().processed == old.stats_view().processed
    }

    /// The device's internal invariant.
    pub closed spec fn wf(&self) -> bool {
        &&& valid_rand(&self.rand)
        &&& match self.required_time {
            Some(t) => self.current_time < t,
            None => self.current_time == 0,
        }
        &&& self.stats.processed <= self.stats.busy_time <= self.stats.total_time
    }

    /// A remaining amount of work is at least one time unit.
    pub proof fn lemma_remaining_positive(&self)
        requires
            self.wf(),
        ensures
            self.remaining() matches Some(w) ==> w >= 1,
    {
    }

    /// An idle device that draws its service times from `rand`.
    pub fn new(rand: DeviceRand) -> (r: Self)
        requires
            valid_rand(&rand),
        ensures
            r.wf(),
            !r.is_busy(),
            r.stats_view() == (DeviceStats { busy_time: 0, total_time: 0, processed: 0 }),
            *r.service() == rand,
    {
        Device {
            current_time: 0,
            required_time: None,
            rand: rand,
            stats: DeviceStats { busy_time: 0, total_time: 0, processed: 0 },
        }
    }

    /// The remaining work time if the device is busy, `None` if it is idle.
    pub fn get_work_time(&self) -> (r: Option<u64>)
        requires
            self.wf(),
        ensures
            r == self.remaining(),
    {
        match self.required_time {
            Some(t) => Some(t - self.current_time),
            None => None,
        }
    }

    /// Serves the current job for `time` units. The job completes when its
    /// remaining work is at most `time`: the device then counts it, is busy
    /// only for the part of `time` that the job needed, and becomes idle.
    pub fn run(&mut self, time: u64)
        requires
            old(self).wf(),
            old(self).is_busy(),
            old(self).stats_view().total_time + time <= u64::MAX,
        ensures
            final(self).wf(),
            Device::ran(*old(self), *final(self), time as nat),
    {
        let t = self.required_time.unwrap();
        let left = t - self.current_time;
        if time >= left {
            self.stats.add_processed();
            self.stats.add_busy_time(left);
            self.stats.add_wait_time(time - left);
            self.current_time = 0;
            self.required_time = None;
        } else {
            self.current_time = self.current_time + time;
            self.stats.add_busy_time(time);
        }
    }

    /// Records `time` units spent idle.
    pub fn wait(&mut self, time: u64)
        requires
            old(self).wf(),
            !old(self).is_busy(),
            old(self).stats_view().total_time + time <= u64::MAX,
        ensures
            final(self).wf(),
            Device::waited(*old(self), *final(self), time as nat),
    {
        self.stats.add_wait_time(time);
    }

    /// Starts a job on an idle device, with a service time drawn from its distribution.
    pub fn process(&mut self)
        requires
            old(self).wf(),
            !old(self).is_busy(),
        ensures
            final(self).wf(),
            final(self).is_busy(),
            final(self).service() == old(self).service(),
            final(self).stats_view() == old(self).stats_view(),
            min_sample(old(self).service()) <= final(self).remaining()->0 <= max_sample(
                old(self).service(),
            ),
    {
        let t = self.rand.next_rand();
        self.required_time = Some(t);
        self.current_time = 0;
    }

    /// A copy of the device's counters.
    pub fn get_stats(&self) -> (r: DeviceStats)
        ensures
            r == self.stats_view(),
    {
        self.stats
    }
}

} // verus!
