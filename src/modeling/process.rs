use vstd::prelude::*;
use crate::modeling::device::{Device, min_sample, max_sample};

verus! {

/// A handle to a station of a model: its index in the model's arena.
#[derive(Clone, Copy, Debug, PartialEq, Eq, Structural)]
pub struct SharedProcess {
    pub id: usize,
}

impl SharedProcess {
    /// The handle for the station with index `id`.
    pub fn new(id: usize) -> (r: Self)
        ensures
            r.id == id,
    {
        SharedProcess { id }
    }

    /// The station's index, unique within its model.
    pub fn get_process_id(&self) -> (r: usize)
        ensures
            r == self.id,
    {
        self.id
    }
}

/// Number of busy devices in `devs`.
pub open spec fn busy_count(devs: Seq<Device>) -> nat
    decreases devs.len(),
{
    if devs.len() == 0 {
        0
    } else {
        busy_count(devs.drop_last()) + if devs.last().is_busy() {
            1nat
        } else {
            0nat
        }
    }
}

/// Number of idle devices among the first `k` of `devs`.
pub open spec fn idle_before(devs: Seq<Device>, k: int) -> nat
    decreases k,
{
    if k <= 0 || k > devs.len() {
        0
    } else {
        idle_before(devs, k - 1) + if devs[k - 1].is_busy() {
            0nat
        } else {
            1nat
        }
    }
}

/// Whether some device of `devs` is idle.
pub open spec fn has_idle(devs: Seq<Device>) -> bool {
    exists|k: int| 0 <= k < devs.len() && !(#[trigger] devs[k]).is_busy()
}

/// Index of the first idle device of `devs`.
pub open spec fn first_idle(devs: Seq<Device>) -> int
    recommends
        has_idle(devs),
{
    choose|k: int|
        0 <= k < devs.len() && !devs[k].is_busy() && forall|j: int|
            0 <= j < k ==> (#[trigger] devs[j]).is_busy()
}

/// Number of devices whose completed count grew from `old` to `new`,
/// among the first `k`.
pub open spec fn completions(old: Seq<Device>, new: Seq<Device>, k: int) -> nat
    decreases k,
{
    if k <= 0 || k > old.len() || k > new.len() {
        0
    } else {
        completions(old, new, k - 1) + if new[k - 1].stats_view().processed
            > old[k - 1].stats_view().processed {
            1nat
        } else {
            0nat
        }
    }
}

proof fn lemma_busy_count_update(devs: Seq<Device>, k: int, d: Device)
    requires
        0 <= k < devs.len(),
    ensures
        busy_count(devs.update(k, d)) + (if devs[k].is_busy() { 1nat } else { 0nat })
            == busy_count(devs) + (if d.is_busy() { 1nat } else { 0nat }),
    decreases devs.len(),
{
    let u = devs.update(k, d);
    if k == devs.len() - 1 {
        assert(u.drop_last() =~= devs.drop_last());
    } else {
        lemma_busy_count_update(devs.drop_last(), k, d);
        assert(u.drop_last() =~= devs.drop_last().update(k, d));
    }
}

proof fn lemma_busy_count_push(devs: Seq<Device>, d: Device)
    ensures
        busy_count(devs.push(d)) == busy_count(devs) + (if d.is_busy() { 1nat } else { 0nat }),
{
    assert(devs.push(d).drop_last() =~= devs);
}

proof fn lemma_first_idle(devs: Seq<Device>, k: int)
    requires
        0 <= k < devs.len(),
        !devs[k].is_busy(),
        forall|j: int| 0 <= j < k ==> (#[trigger] devs[j]).is_busy(),
    ensures
        has_idle(devs),
        first_idle(devs) == k,
{
    let f = first_idle(devs);
    assert(0 <= f < devs.len() && !devs[f].is_busy() && forall|j: int|
        0 <= j < f ==> (#[trigger] devs[j]).is_busy());
    if f < k {
        assert(devs[f].is_busy());
    } else if f > k {
        assert(devs[k].is_busy());
    }
}

proof fn lemma_completions_prefix(old: Seq<Device>, a: Seq<Device>, b: Seq<Device>, k: int)
    requires
        0 <= k <= old.len(),
        k <= a.len(),
        k <= b.len(),
        forall|j: int| 0 <= j < k ==> a[j] == b[j],
    ensures
        completions(old, a, k) == completions(old, b, k),
    decreases k,
{
    if k > 0 {
        lemma_completions_prefix(old, a, b, k - 1);
    }
}

/// Counters of one station over a run.
#[derive(Debug)]
pub struct ProcessStats {
    /// The queue length at each checkpoint.
    pub queue_sizes: Vec<usize>,
    /// Jobs offered to the station.
    pub requests_number: u64,
    /// Offered jobs that the station turned away.
    pub failures: u64,
    /// Jobs that the station's devices completed.
    pub processed: u64,
    /// Sum over the run of queue length times elapsed time.
    pub total_wait_time: u128,
}

impl ProcessStats {
    /// Records the queue length at a checkpoint.
    pub fn add_queue_size(&mut self, queue_size: usize)
        ensures
            final(self).queue_sizes@ == old(self).queue_sizes@.push(queue_size),
            final(self).requests_number == old(self).requests_number,
            final(self).failures == old(self).failures,
            final(self).processed == old(self).processed,
            final(self).total_wait_time == old(self).total_wait_time,
    {
        self.queue_sizes.push(queue_size);
    }

    /// Records one offered job.
    pub fn add_request(&mut self)
        requires
            old(self).requests_number < u64::MAX,
        ensures
            final(self).requests_number == old(self).requests_number + 1,
            final(self).queue_sizes == old(self).queue_sizes,
            final(self).failures == old(self).failures,
            final(self).processed == old(self).processed,
            final(self).total_wait_time == old(self).total_wait_time,
    {
        self.requests_number = self.requests_number + 1;
    }

    /// Records one rejected job.
    pub fn add_failures(&mut self)
        requires
            old(self).failures < u64::MAX,
        ensures
            final(self).failures == old(self).failures + 1,
            final(self).queue_sizes == old(self).queue_sizes,
            final(self).requests_number == old(self).requests_number,
            final(self).processed == old(self).processed,
            final(self).total_wait_time == old(self).total_wait_time,
    {
        self.failures = self.failures + 1;
    }

    /// Records `processed` completed jobs.
    pub fn add_processed(&mut self, processed: u64)
        requires
            old(self).processed + processed <= u64::MAX,
        ensures
            final(self).processed == old(self).processed + processed,
            final(self).queue_sizes == old(self).queue_sizes,
            final(self).requests_number == old(self).requests_number,
            final(self).failures == old(self).failures,
            final(self).total_wait_time == old(self).total_wait_time,
    {
        self.processed = self.processed + processed;
    }

    /// Adds `time` to the accumulated waiting time.
    pub fn add_wait_time(&mut self, time: u128)
        requires
            old(self).total_wait_time + time <= u128::MAX,
        ensures
            final(self).total_wait_time == old(self).total_wait_time + time,
            final(self).queue_sizes == old(self).queue_sizes,
            final(self).requests_number == old(self).requests_number,
            final(self).failures == old(self).failures,
            final(self).processed == old(self).processed,
    {
        self.total_wait_time = self.total_wait_time + time;
    }
}

proof fn lemma_wait_bound(w: nat, cap: nat, c: nat, q: nat, t: nat)
    requires
        w <= cap * c,
        q <= cap,
    ensures
        w + q * t <= cap * (c + t),
{
    assert(q * t <= cap * t) by (nonlinear_arith)
        requires
            q <= cap,
    ;
    assert(cap * (c + t) == cap * c + cap * t) by (nonlinear_arith);
}

proof fn lemma_u128_bound(cap: nat, c: nat)
    requires
        cap <= u64::MAX,
        c <= u64::MAX,
    ensures
        cap * c <= u128::MAX,
{
    assert(cap * c <= u64::MAX * u64::MAX) by (nonlinear_arith)
        requires
            cap <= u64::MAX,
            c <= u64::MAX,
    ;
}

/// The core of a station: a bounded waiting line and a set of devices.
#[derive(Debug)]
pub struct ProcessBase {
    queue_capacity: usize,
    queue_size: usize,
    devices: Vec<Device>,
    stats: ProcessStats,
}

impl ProcessBase {
    /// Most jobs that may wait with no free device.
    pub closed spec fn capacity(&self) -> usize {
        self.queue_capacity
    }

    /// Jobs waiting now.
    pub closed spec fn queue(&self) -> usize {
        self.queue_size
    }

    /// The station's devices.
    pub closed spec fn devices_view(&self) -> Seq<Device> {
        self.devices@
    }

    /// The station's counters.
    pub closed spec fn stats_view(&self) -> &ProcessStats {
        &self.stats
    }

    /// The station's invariant: the queue stays within its capacity, and every
    /// offered job was turned away, completed, is waiting, or is in service.
    pub open spec fn wf(&self) -> bool {
        &&& self.queue() <= self.capacity()
        &&& forall|k: int| 0 <= k < self.devices_view().len() ==> (#[trigger] self.devices_view()[k]).wf()
        &&& forall|k: int|
            0 <= k < self.stats_view().queue_sizes@.len() ==> #[trigger] self.stats_view().queue_sizes@[k]
                <= self.capacity()
        &&& self.stats_view().requests_number == self.stats_view().failures
            + self.stats_view().processed + self.queue() + busy_count(self.devices_view())
    }

    /// Whether an offered job would be taken now.
    pub open spec fn accepts(&self) -> bool {
        has_idle(self.devices_view()) || self.queue() < self.capacity()
    }

    /// Every device has observed `clock` time units, and the accumulated
    /// waiting time is at most what a full queue would have accumulated.
    pub open spec fn timed(&self, clock: nat) -> bool {
        &&& forall|k: int|
            0 <= k < self.devices_view().len() ==> (#[trigger] self.devices_view()[k]).stats_view().total_time
                == clock
        &&& self.stats_view().total_wait_time <= self.capacity() * clock
    }

    /// `r` is the least remaining work over the busy devices, `None` if all are idle.
    pub open spec fn is_min_work(&self, r: Option<u64>) -> bool {
        &&& r is None <==> forall|k: int|
            0 <= k < self.devices_view().len() ==> !(#[trigger] self.devices_view()[k]).is_busy()
        &&& r matches Some(m) ==> {
            &&& m >= 1
            &&& exists|k: int|
                0 <= k < self.devices_view().len() && (#[trigger] self.devices_view()[k]).remaining()
                    == Some(m)
            &&& forall|k: int|
                0 <= k < self.devices_view().len() && (#[trigger] self.devices_view()[k]).is_busy()
                    ==> self.devices_view()[k].remaining()->0 >= m
        }
    }

    /// `new` is `old` after an offer that returned `r` (see `process`).
    pub open spec fn took_offer(old: ProcessBase, new: ProcessBase, r: bool) -> bool {
        &&& r == old.accepts()
        &&& new.capacity() == old.capacity()
        &&& new.devices_view().len() == old.devices_view().len()
        &&& forall|k: int|
            0 <= k < old.devices_view().len() ==> {
                &&& (#[trigger] new.devices_view()[k]).stats_view() == old.devices_view()[k].stats_view()
                &&& new.devices_view()[k].service() == old.devices_view()[k].service()
            }
        &&& new.stats_view().requests_number == old.stats_view().requests_number + 1
        &&& new.stats_view().processed == old.stats_view().processed
        &&& new.stats_view().total_wait_time == old.stats_view().total_wait_time
        &&& new.stats_view().queue_sizes == old.stats_view().queue_sizes
        &&& new.stats_view().failures == old.stats_view().failures + if r {
            0int
        } else {
            1int
        }
        &&& has_idle(old.devices_view()) ==> {
            let k = first_idle(old.devices_view());
            let d = new.devices_view()[k];
            &&& new.queue() == old.queue()
            &&& new.devices_view() == old.devices_view().update(k, d)
            &&& d.is_busy()
            &&& min_sample(d.service()) <= d.remaining()->0 <= max_sample(d.service())
        }
        &&& !has_idle(old.devices_view()) ==> {
            &&& new.devices_view() == old.devices_view()
            &&& new.queue() == old.queue() + if r {
                1int
            } else {
                0int
            }
        }
    }

    /// `new` keeps the capacity, the devices' observed times, the waiting
    /// time and the checkpoint record of `old`.
    pub open spec fn kept_timing(old: ProcessBase, new: ProcessBase) -> bool {
        &&& new.capacity() == old.capacity()
        &&& new.devices_view().len() == old.devices_view().len()
        &&& forall|k: int|
            0 <= k < old.devices_view().len() ==> (#[trigger] new.devices_view()[k]).stats_view().total_time
                == old.devices_view()[k].stats_view().total_time
        &&& new.stats_view().total_wait_time == old.stats_view().total_wait_time
        &&& new.stats_view().queue_sizes == old.stats_view().queue_sizes
    }

    /// Timing that is kept stays valid.
    pub proof fn lemma_kept_timing(a: ProcessBase, b: ProcessBase, c: ProcessBase, clock: nat)
        ensures
            ProcessBase::kept_timing(a, a),
            ProcessBase::kept_timing(a, b) && ProcessBase::kept_timing(b, c) ==> ProcessBase::kept_timing(a, c),
            ProcessBase::kept_timing(a, b) && a.timed(clock) ==> b.timed(clock),
            ProcessBase::took_offer(a, b, true) ==> ProcessBase::kept_timing(a, b),
            ProcessBase::took_offer(a, b, false) ==> ProcessBase::kept_timing(a, b),
    {
        if ProcessBase::kept_timing(a, b) && a.timed(clock) {
            assert forall|k: int| 0 <= k < b.devices_view().len() implies (#[trigger] b.devices_view()[k]).stats_view().total_time
                == clock by {
                assert(b.devices_view()[k].stats_view().total_time == a.devices_view()[k].stats_view().total_time);
            }
        }
        if ProcessBase::kept_timing(a, b) && ProcessBase::kept_timing(b, c) {
            assert forall|k: int| 0 <= k < a.devices_view().len() implies (#[trigger] c.devices_view()[k]).stats_view().total_time
                == a.devices_view()[k].stats_view().total_time by {
                assert(c.devices_view()[k].stats_view().total_time == b.devices_view()[k].stats_view().total_time);
            }
        }
    }

    /// `new` is `old` after every device was advanced by `time` units,
    /// taking waiting jobs in device order, and `r` jobs completed (see `run`).
    pub open spec fn advanced(old: ProcessBase, new: ProcessBase, time: nat, r: nat) -> bool {
        let od = old.devices_view();
        let nd = new.devices_view();
        let n = od.len() as int;
        let oq = old.queue() as int;
        let pulled = if oq < idle_before(od, n) {
            oq
        } else {
            idle_before(od, n) as int
        };
        &&& new.capacity() == old.capacity()
        &&& nd.len() == n
        &&& new.queue() == oq - pulled
        &&& r == completions(od, nd, n)
        &&& new.stats_view().processed == old.stats_view().processed + r
        &&& new.stats_view().requests_number == old.stats_view().requests_number
        &&& new.stats_view().failures == old.stats_view().failures
        &&& new.stats_view().queue_sizes == old.stats_view().queue_sizes
        &&& new.stats_view().total_wait_time == old.stats_view().total_wait_time
            + new.queue() * time
        &&& forall|k: int|
            0 <= k < n ==> (#[trigger] nd[k]).service() == od[k].service()
        &&& forall|k: int|
            0 <= k < n && (#[trigger] od[k]).is_busy() ==> Device::ran(od[k], nd[k], time)
        &&& forall|k: int|
            0 <= k < n && !(#[trigger] od[k]).is_busy() && idle_before(od, k) < oq
                ==> Device::started_and_ran(od[k], nd[k], time)
        &&& forall|k: int|
            0 <= k < n && !(#[trigger] od[k]).is_busy() && idle_before(od, k) >= oq
                ==> Device::waited(od[k], nd[k], time)
    }

    /// An empty station with room for `queue_capacity` waiting jobs.
    pub fn new(queue_capacity: usize) -> (r: Self)
        ensures
            r.wf(),
            r.timed(0),
            r.capacity() == queue_capacity,
            r.queue() == 0,
            r.devices_view().len() == 0,
            r.stats_view().queue_sizes@.len() == 0,
            r.stats_view().requests_number == 0,
            r.stats_view().failures == 0,
            r.stats_view().processed == 0,
            r.stats_view().total_wait_time == 0,
    {
        ProcessBase {
            queue_capacity: queue_capacity,
            queue_size: 0,
            devices: Vec::new(),
            stats: ProcessStats {
                queue_sizes: Vec::new(),
                requests_number: 0,
                failures: 0,
                processed: 0,
                total_wait_time: 0,
            },
        }
    }

    /// Adds an idle device.
    pub fn add_device(&mut self, device: Device)
        requires
            old(self).wf(),
            device.wf(),
            !device.is_busy(),
        ensures
            final(self).wf(),
            final(self).devices_view() == old(self).devices_view().push(device),
            final(self).capacity() == old(self).capacity(),
            final(self).queue() == old(self).queue(),
            final(self).stats_view() == old(self).stats_view(),
    {
        proof {
            lemma_busy_count_push(self.devices@, device);
        }
        self.devices.push(device);
        proof {
            assert forall|k: int| 0 <= k < self.devices@.len() implies (#[trigger] self.devices@[k]).wf() by {
                if k < old(self).devices@.len() {
                    assert(self.devices@[k] == old(self).devices@[k]);
                }
            }
        }
    }

    /// The least remaining work over the busy devices, `None` if all are idle.
    pub fn get_work_time(&self) -> (r: Option<u64>)
        requires
            self.wf(),
        ensures
            self.is_min_work(r),
    {
        let mut best: Option<u64> = None;
        let mut i: usize = 0;
        while i < self.devices.len()
            invariant
                self.wf(),
                0 <= i <= self.devices@.len(),
                best is None <==> forall|k: int| 0 <= k < i ==> !(#[trigger] self.devices@[k]).is_busy(),
                best matches Some(m) ==> {
                    &&& m >= 1
                    &&& exists|k: int| 0 <= k < i && (#[trigger] self.devices@[k]).remaining() == Some(m)
                    &&& forall|k: int|
                        0 <= k < i && (#[trigger] self.devices@[k]).is_busy() ==> self.devices@[k].remaining()->0
                            >= m
                },
            decreases self.devices@.len() - i,
        {
            let w = self.devices[i].get_work_time();
            proof {
                self.devices@[i as int].lemma_remaining_positive();
            }
            match w {
                Some(v) => {
                    match best {
                        Some(b) => {
                            if v < b {
                                best = Some(v);
                            }
                        },
                        None => {
                            best = Some(v);
                        },
                    }
                },
                None => {},
            }
            i = i + 1;
        }
        best
    }

    /// Offers a job: it starts on the first idle device, or else waits if the
    /// queue has room, or else is turned away. Returns whether it was taken.
    pub fn process(&mut self) -> (r: bool)
        requires
            old(self).wf(),
            old(self).stats_view().requests_number < u64::MAX,
        ensures
            final(self).wf(),
            ProcessBase::took_offer(*old(self), *final(self), r),
    {
        self.stats.add_request();
        let mut i: usize = 0;
        while i < self.devices.len()
            invariant
                0 <= i <= self.devices@.len(),
                self.devices == old(self).devices,
                self.queue_size == old(self).queue_size,
                self.queue_capacity == old(self).queue_capacity,
                self.stats.requests_number == old(self).stats.requests_number + 1,
                self.stats.failures == old(self).stats.failures,
                self.stats.processed == old(self).stats.processed,
                self.stats.total_wait_time == old(self).stats.total_wait_time,
                self.stats.queue_sizes == old(self).stats.queue_sizes,
                old(self).wf(),
                forall|j: int| 0 <= j < i ==> (#[trigger] self.devices@[j]).is_busy(),
            decreases self.devices@.len() - i,
        {
            if self.devices[i].get_work_time().is_none() {
                proof {
                    lemma_first_idle(self.devices@, i as int);
                    lemma_busy_count_update(self.devices@, i as int, self.devices@[i as int]);
                }
                let ghost before = self.devices@;
                self.devices[i].process();
                proof {
                    lemma_busy_count_update(before, i as int, self.devices@[i as int]);
                    assert(self.devices@ == before.update(i as int, self.devices@[i as int]));
                    assert forall|k: int| 0 <= k < self.devices@.len() implies (#[trigger] self.devices@[k]).wf() by {
                        if k != i {
                            assert(self.devices@[k] == before[k]);
                        }
                    }
                }
                return true;
            }
            i = i + 1;
        }
        proof {
            assert(!has_idle(self.devices@));
        }
        if self.queue_size < self.queue_capacity {
            self.queue_size = self.queue_size + 1;
            true
        } else {
            self.stats.add_failures();
            false
        }
    }

    /// Advances every device by `time` units, in order. An idle device first
    /// takes a waiting job if there is one, and otherwise waits. Returns the
    /// number of jobs completed; adds the remaining queue length times `time`
    /// to the waiting time.
    pub fn run(&mut self, time: u64) -> (r: usize)
        requires
            old(self).wf(),
            old(self).devices_view().len() > 0,
            old(self).timed(old(self).devices_view()[0].stats_view().total_time as nat),
            old(self).devices_view()[0].stats_view().total_time + time <= u64::MAX,
        ensures
            final(self).wf(),
            final(self).timed((old(self).devices_view()[0].stats_view().total_time + time) as nat),
            ProcessBase::advanced(*old(self), *final(self), time as nat, r as nat),
    {
        let ghost od = self.devices@;
        let ghost c = od[0].stats_view().total_time as nat;
        let ghost oq = self.queue_size as int;
        let n = self.devices.len();
        let mut result: usize = 0;
        let mut i: usize = 0;
        while i < n
            invariant
                0 <= i <= n,
                n == od.len(),
                self.devices@.len() == n,
                c + time <= u64::MAX,
                forall|k: int| 0 <= k < n ==> (#[trigger] od[k]).wf() && od[k].stats_view().total_time == c,
                self.queue_capacity == old(self).queue_capacity,
                self.stats == old(self).stats,
                old(self).wf(),
                od == old(self).devices@,
                oq == old(self).queue_size,
                self.queue_size == oq - if oq < idle_before(od, i as int) {
                    oq
                } else {
                    idle_before(od, i as int) as int
                },
                result == completions(od, self.devices@, i as int),
                result <= i,
                old(self).stats.requests_number == old(self).stats.failures + old(self).stats.processed
                    + result + self.queue_size + busy_count(self.devices@),
                forall|k: int| i <= k < n ==> (#[trigger] self.devices@[k]) == od[k],
                forall|k: int|
                    0 <= k < i ==> {
                        &&& (#[trigger] self.devices@[k]).wf()
                        &&& self.devices@[k].stats_view().total_time == c + time
                        &&& self.devices@[k].service() == od[k].service()
                        &&& od[k].is_busy() ==> Device::ran(od[k], self.devices@[k], time as nat)
                        &&& (!od[k].is_busy() && idle_before(od, k) < oq) ==> Device::started_and_ran(
                            od[k],
                            self.devices@[k],
                            time as nat,
                        )
                        &&& (!od[k].is_busy() && idle_before(od, k) >= oq) ==> Device::waited(
                            od[k],
                            self.devices@[k],
                            time as nat,
                        )
                    },
            decreases n - i,
        {
            let ghost before = self.devices@;
            proof {
                assert(before[i as int] == od[i as int]);
            }
            let w = self.devices[i].get_work_time();
            if w.is_none() {
                if self.queue_size > 0 {
                    self.queue_size = self.queue_size - 1;
                    self.devices[i].process();
                    let ghost mid = self.devices@;
                    proof {
                        lemma_busy_count_update(before, i as int, mid[i as int]);
                        assert(mid == before.update(i as int, mid[i as int]));
                    }
                    self.devices[i].run(time);
                    proof {
                        lemma_busy_count_update(mid, i as int, self.devices@[i as int]);
                        assert(self.devices@ == mid.update(i as int, self.devices@[i as int]));
                        assert(self.devices@ == before.update(i as int, self.devices@[i as int]));
                    }
                    if self.devices[i].get_work_time().is_none() {
                        result = result + 1;
                    }
                } else {
                    self.devices[i].wait(time);
                    proof {
                        lemma_busy_count_update(before, i as int, self.devices@[i as int]);
                        assert(self.devices@ == before.update(i as int, self.devices@[i as int]));
                    }
                }
            } else {
                self.devices[i].run(time);
                proof {
                    lemma_busy_count_update(before, i as int, self.devices@[i as int]);
                    assert(self.devices@ == before.update(i as int, self.devices@[i as int]));
                }
                if self.devices[i].get_work_time().is_none() {
                    result = result + 1;
                }
            }
            proof {
                lemma_completions_prefix(od, before, self.devices@, i as int);
                assert(completions(od, self.devices@, i + 1) == completions(od, self.devices@, i as int)
                    + if self.devices@[i as int].stats_view().processed > od[i as int].stats_view().processed {
                    1nat
                } else {
                    0nat
                });
                assert forall|k: int| i + 1 <= k < n implies (#[trigger] self.devices@[k]) == od[k] by {
                    assert(self.devices@[k] == before[k]);
                }
                assert forall|k: int| 0 <= k < i implies (#[trigger] self.devices@[k]) == before[k] by {}
            }
            i = i + 1;
        }
        proof {
            assert forall|k: int| 0 <= k < n implies (#[trigger] self.devices@[k]).wf() by {
                assert(0 <= k < i);
            }
        }
        self.stats.add_processed(result as u64);
        proof {
            lemma_wait_bound(
                self.stats.total_wait_time as nat,
                self.queue_capacity as nat,
                c,
                self.queue_size as nat,
                time as nat,
            );
            lemma_u128_bound(self.queue_capacity as nat, (c + time) as nat);
            assert((self.queue_size as nat) * (time as nat) <= u128::MAX) by (nonlinear_arith)
                requires
                    self.queue_size <= u64::MAX,
                    time <= u64::MAX,
            ;
        }
        let waited = (self.queue_size as u128) * (time as u128);
        self.stats.add_wait_time(waited);
        result
    }

    /// Records the queue length at a checkpoint.
    pub fn measure_stats(&mut self)
        ensures
            final(self).stats_view().queue_sizes@ == old(self).stats_view().queue_sizes@.push(
                old(self).queue() as usize,
            ),
            final(self).stats_view().requests_number == old(self).stats_view().requests_number,
            final(self).stats_view().failures == old(self).stats_view().failures,
            final(self).stats_view().processed == old(self).stats_view().processed,
            final(self).stats_view().total_wait_time == old(self).stats_view().total_wait_time,
            final(self).capacity() == old(self).capacity(),
            final(self).queue() == old(self).queue(),
            final(self).devices_view() == old(self).devices_view(),
    {
        let q = self.queue_size;
        self.stats.add_queue_size(q);
    }

    /// The station's counters.
    pub fn get_stats(&self) -> (r: &ProcessStats)
        ensures
            r == self.stats_view(),
    {
        &self.stats
    }

    /// The station's devices.
    pub fn get_devices(&self) -> (r: &Vec<Device>)
        ensures
            r@ == self.devices_view(),
    {
        &self.devices
    }

    /// Jobs waiting now.
    pub fn get_queue_size(&self) -> (r: usize)
        ensures
            r == self.queue(),
    {
        self.queue_size
    }

    /// Most jobs that may wait with no free device.
    pub fn get_queue_capacity(&self) -> (r: usize)
        ensures
            r == self.capacity(),
    {
        self.queue_capacity
    }
}

} // verus!
